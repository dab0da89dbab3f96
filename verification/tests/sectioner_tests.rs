use mdproof::event::{Atom, BlockTag, Break};
use mdproof::resources::{CharAdvance, FontMetrics, Resources};
use mdproof::section::Section;
use mdproof::sectioner::{Sectioner, SubsectionType};
use mdproof::sizer::{SizedAtom, SizedEvent};
use mdproof::span::Span;
use mdproof::style::Style;
use mdproof::Config;

fn test_font(advances: Vec<CharAdvance>, line_height: u64, default_advance: u64) -> FontMetrics {
    FontMetrics { units_per_em: 12, line_height, default_advance, advances }
}

fn standard_advances() -> Vec<CharAdvance> {
    let pairs: [(char, u64); 12] = [
        ('H', 8),
        ('e', 8),
        ('l', 8),
        ('o', 8),
        ('W', 8),
        ('r', 8),
        ('d', 8),
        ('F', 8),
        ('i', 6),
        ('n', 6),
        ('s', 6),
        (' ', 10),
    ];
    pairs.iter().map(|&(ch, advance)| CharAdvance { ch, advance }).collect()
}

fn test_resources() -> Resources {
    let cfg = Config::default();
    let mut res = Resources::new(cfg, String::new());
    for name in [
        "mdproof-default-regular",
        "mdproof-default-bold",
        "mdproof-default-italic",
        "mdproof-default-bold-italic",
        "mdproof-default-mono",
    ] {
        res.add_font(name.to_string(), test_font(standard_advances(), 20, 9));
    }
    res
}

fn text_event(text: &str) -> SizedEvent {
    SizedEvent::SizedAtom(SizedAtom {
        atom: Atom::Text { text: text.to_string(), style: Style::new() },
        width: 0,
        height: 0,
    })
}

fn span_text(span: &Span) -> &str {
    match span {
        Span::Text { text, .. } => text.as_str(),
        _ => panic!("expected a text span"),
    }
}

fn sectioner(max_x: u64) -> Sectioner {
    Sectioner::new(0, max_x, Config::default())
}

/// Column 100: "Hello" (40) plus a space (10) plus "World" (40) fit on one
/// line, as one span.
#[test]
fn two_words_fit_on_one_line() {
    let res = test_resources();
    let mut sec = sectioner(100);
    sec.parse_event(&res, text_event("Hello World"));
    let sections = sec.get_vec();
    assert_eq!(sections.len(), 1);
    match &sections[0] {
        Section::Plain(spans) => {
            assert_eq!(spans.len(), 1);
            assert_eq!(span_text(&spans[0]), "Hello World");
        }
        _ => panic!("expected one plain line"),
    }
}

/// Adding "Friends" (50) would reach 150 > 100: it wraps onto its own
/// line.
#[test]
fn third_word_wraps_to_a_second_line() {
    let res = test_resources();
    let mut sec = sectioner(100);
    sec.parse_event(&res, text_event("Hello World Friends"));
    let sections = sec.get_vec();
    assert_eq!(sections.len(), 2);
    match (&sections[0], &sections[1]) {
        (Section::Plain(a), Section::Plain(b)) => {
            assert_eq!(a.len(), 1);
            assert_eq!(span_text(&a[0]), "Hello World");
            assert_eq!(b.len(), 1);
            assert_eq!(span_text(&b[0]), "Friends");
        }
        _ => panic!("expected two plain lines"),
    }
}

/// No produced line is wider than the column, and no wrapped line starts
/// with a space span.
#[test]
fn wrapped_lines_fit_and_never_start_with_a_space() {
    let res = test_resources();
    let mut sec = sectioner(60);
    sec.parse_event(&res, text_event("Hello World Hello World Hello"));
    let sections = sec.get_vec();
    assert!(sections.len() >= 2);
    for section in &sections {
        match section {
            Section::Plain(spans) => {
                let total: u64 = spans.iter().map(|s| s.width(&res)).sum();
                assert!(total <= 60, "line of width {} exceeds the column", total);
                let first = span_text(&spans[0]);
                assert!(!first.starts_with(' '), "line starts with a space: {:?}", first);
            }
            _ => panic!("expected only plain lines"),
        }
    }
}

/// A word break becomes a single space, but not at the start of a line.
#[test]
fn word_break_is_a_space_only_inside_a_line() {
    let res = test_resources();
    let mut sec = sectioner(200);
    sec.parse_event(&res, SizedEvent::Break(Break::Word));
    sec.parse_event(&res, text_event("Hello"));
    sec.parse_event(&res, SizedEvent::Break(Break::Word));
    sec.parse_event(&res, text_event("World"));
    let sections = sec.get_vec();
    assert_eq!(sections.len(), 1);
    match &sections[0] {
        Section::Plain(spans) => {
            assert_eq!(spans.len(), 3);
            assert_eq!(span_text(&spans[0]), "Hello");
            assert_eq!(span_text(&spans[1]), " ");
            assert_eq!(span_text(&spans[2]), "World");
        }
        _ => panic!("expected one plain line"),
    }
}

/// A code block keeps its newlines: two newlines give exactly three lines,
/// each verbatim.
#[test]
fn code_block_keeps_lines_verbatim() {
    let res = test_resources();
    let mut sec = sectioner(100);
    sec.parse_event(&res, SizedEvent::StartBlock(BlockTag::CodeBlock));
    sec.parse_event(&res, text_event("let Hello;\nlet World;\n"));
    sec.parse_event(&res, SizedEvent::EndBlock(BlockTag::CodeBlock));
    let sections = sec.get_vec();
    assert_eq!(sections.len(), 1);
    match &sections[0] {
        Section::CodeBlock(lines) => {
            assert_eq!(lines.len(), 3);
            assert_eq!(span_text(&lines[0][0]), "let Hello;");
            assert_eq!(span_text(&lines[1][0]), "let World;");
            assert_eq!(span_text(&lines[2][0]), "");
        }
        _ => panic!("expected a code block"),
    }
}

/// Code lines are never re-wrapped by width, however narrow the column.
#[test]
fn code_lines_are_not_wrapped() {
    let res = test_resources();
    let mut sec = sectioner(10);
    sec.parse_event(&res, SizedEvent::StartBlock(BlockTag::CodeBlock));
    sec.parse_event(&res, text_event("Hello World Friends Hello"));
    sec.parse_event(&res, SizedEvent::EndBlock(BlockTag::CodeBlock));
    let sections = sec.get_vec();
    match &sections[0] {
        Section::CodeBlock(lines) => {
            assert_eq!(lines.len(), 1);
            assert_eq!(span_text(&lines[0][0]), "Hello World Friends Hello");
        }
        _ => panic!("expected a code block"),
    }
}

/// A paragraph break flushes the line and leaves the configured gap.
#[test]
fn paragraph_break_flushes_and_spaces() {
    let res = test_resources();
    let mut sec = sectioner(100);
    sec.parse_event(&res, text_event("Hello"));
    sec.parse_event(&res, SizedEvent::Break(Break::Paragraph));
    sec.parse_event(&res, text_event("World"));
    let sections = sec.get_vec();
    assert_eq!(sections.len(), 3);
    assert!(matches!(&sections[0], Section::Plain(_)));
    match &sections[1] {
        Section::VerticalSpace(h) => assert_eq!(*h, Config::default().section_spacing),
        _ => panic!("expected the paragraph gap"),
    }
    assert!(matches!(&sections[2], Section::Plain(_)));
}

/// A trailing paragraph gap is trimmed from the finished document.
#[test]
fn trailing_gap_is_trimmed() {
    let res = test_resources();
    let mut sec = sectioner(100);
    sec.parse_event(&res, text_event("Hello"));
    sec.parse_event(&res, SizedEvent::Break(Break::Paragraph));
    let sections = sec.get_vec();
    assert_eq!(sections.len(), 1);
    assert!(matches!(&sections[0], Section::Plain(_)));
}

/// A trailing page break is likewise trimmed.
#[test]
fn trailing_page_break_is_trimmed() {
    let res = test_resources();
    let mut sec = sectioner(100);
    sec.parse_event(&res, text_event("Hello"));
    sec.parse_event(&res, SizedEvent::Break(Break::Line));
    sec.parse_event(&res, SizedEvent::Break(Break::Page));
    let sections = sec.get_vec();
    assert_eq!(sections.len(), 1);
}

/// A thematic break at the very end is kept: it is visually significant.
#[test]
fn trailing_thematic_break_is_kept() {
    let res = test_resources();
    let mut sec = sectioner(100);
    sec.parse_event(&res, SizedEvent::Break(Break::HorizontalRule));
    let sections = sec.get_vec();
    assert_eq!(sections.len(), 1);
    assert!(matches!(&sections[0], Section::ThematicBreak));
}

/// A two-level list round-trips: one outer item holding exactly one inner
/// item.
#[test]
fn nested_list_round_trip() {
    let res = test_resources();
    let mut sec = sectioner(200);
    sec.parse_event(&res, SizedEvent::StartBlock(BlockTag::List));
    sec.parse_event(&res, SizedEvent::StartBlock(BlockTag::ListItem));
    sec.parse_event(&res, text_event("Hello"));
    sec.parse_event(&res, SizedEvent::StartBlock(BlockTag::List));
    sec.parse_event(&res, SizedEvent::StartBlock(BlockTag::ListItem));
    sec.parse_event(&res, text_event("World"));
    sec.parse_event(&res, SizedEvent::EndBlock(BlockTag::ListItem));
    sec.parse_event(&res, SizedEvent::EndBlock(BlockTag::List));
    sec.parse_event(&res, SizedEvent::EndBlock(BlockTag::ListItem));
    sec.parse_event(&res, SizedEvent::EndBlock(BlockTag::List));
    let sections = sec.get_vec();
    let outer_items: Vec<&Section> = sections
        .iter()
        .filter(|s| matches!(s, Section::ListItem(_)))
        .collect();
    assert_eq!(outer_items.len(), 1);
    match outer_items[0] {
        Section::ListItem(subs) => {
            let inner_items: Vec<&Section> = subs
                .iter()
                .filter(|s| matches!(s, Section::ListItem(_)))
                .collect();
            assert_eq!(inner_items.len(), 1);
            match inner_items[0] {
                Section::ListItem(inner) => {
                    assert!(inner.iter().any(|s| matches!(s, Section::Plain(_))));
                }
                _ => unreachable!(),
            }
        }
        _ => unreachable!(),
    }
}

/// An end marker with no matching start is reported to the caller and
/// leaves the builder unchanged.
#[test]
fn unmatched_end_marker_is_reported() {
    let res = test_resources();
    let mut sec = sectioner(100);
    let r = sec.parse_event(&res, SizedEvent::EndBlock(BlockTag::ListItem));
    assert_eq!(r, Some(SubsectionType::List));
    let r = sec.parse_event(&res, SizedEvent::EndBlock(BlockTag::BlockQuote));
    assert_eq!(r, Some(SubsectionType::Quote));
    let sections = sec.get_vec();
    assert_eq!(sections.len(), 0);
}

/// An image atom lands on the line with its measured size, and the next
/// text atom — its alt text — is suppressed.
#[test]
fn image_suppresses_its_alt_text() {
    let res = test_resources();
    let mut sec = sectioner(500);
    sec.parse_event(
        &res,
        SizedEvent::SizedAtom(SizedAtom {
            atom: Atom::Image { uri: "pic.png".to_string() },
            width: 144,
            height: 72,
        }),
    );
    sec.parse_event(&res, text_event("alt words"));
    sec.parse_event(&res, text_event("Hello"));
    let sections = sec.get_vec();
    assert_eq!(sections.len(), 1);
    match &sections[0] {
        Section::Plain(spans) => {
            assert_eq!(spans.len(), 2);
            match &spans[0] {
                Span::Image { width, height, path } => {
                    assert_eq!(*width, 144);
                    assert_eq!(*height, 72);
                    assert_eq!(path.as_str(), "pic.png");
                }
                _ => panic!("expected the image span first"),
            }
            assert_eq!(span_text(&spans[1]), "Hello");
        }
        _ => panic!("expected one plain line"),
    }
}

/// A block quote wraps its content and narrows the column by the quote
/// indentation.
#[test]
fn block_quote_wraps_its_content() {
    let res = test_resources();
    let mut sec = sectioner(200);
    sec.parse_event(&res, SizedEvent::StartBlock(BlockTag::BlockQuote));
    sec.parse_event(&res, text_event("Hello"));
    sec.parse_event(&res, SizedEvent::EndBlock(BlockTag::BlockQuote));
    let sections = sec.get_vec();
    assert_eq!(sections.len(), 1);
    match &sections[0] {
        Section::BlockQuote(subs) => {
            assert_eq!(subs.len(), 1);
            assert!(matches!(&subs[0], Section::Plain(_)));
        }
        _ => panic!("expected a block quote"),
    }
}

/// The end of a list container leaves a closing gap.
#[test]
fn list_end_leaves_a_gap() {
    let res = test_resources();
    let mut sec = sectioner(200);
    sec.parse_event(&res, SizedEvent::StartBlock(BlockTag::List));
    sec.parse_event(&res, SizedEvent::StartBlock(BlockTag::ListItem));
    sec.parse_event(&res, text_event("Hello"));
    sec.parse_event(&res, SizedEvent::EndBlock(BlockTag::ListItem));
    sec.parse_event(&res, SizedEvent::EndBlock(BlockTag::List));
    sec.parse_event(&res, text_event("World"));
    let sections = sec.get_vec();
    assert_eq!(sections.len(), 3);
    assert!(matches!(&sections[0], Section::ListItem(_)));
    assert!(matches!(&sections[1], Section::VerticalSpace(_)));
    assert!(matches!(&sections[2], Section::Plain(_)));
}

/// A single word wider than the column overflows rather than being
/// broken.
#[test]
fn an_overwide_word_is_not_hyphenated() {
    let res = test_resources();
    let mut sec = sectioner(20);
    sec.parse_event(&res, text_event("Hello"));
    let sections = sec.get_vec();
    // the wrap first flushes the (empty) buffer, then the word overflows
    // on a line of its own, unbroken
    assert_eq!(sections.len(), 2);
    match &sections[1] {
        Section::Plain(spans) => {
            assert_eq!(span_text(&spans[0]), "Hello");
        }
        _ => panic!("expected a plain line"),
    }
}

/// Unicode white space also separates words: a no-break space wraps like
/// an ordinary one.
#[test]
fn unicode_spaces_are_word_boundaries() {
    let res = test_resources();
    let mut sec = sectioner(100);
    sec.parse_event(&res, text_event("Hello\u{A0}World\u{2003}Friends"));
    let sections = sec.get_vec();
    assert_eq!(sections.len(), 2);
    match (&sections[0], &sections[1]) {
        (Section::Plain(a), Section::Plain(b)) => {
            // the words are rejoined with plain spaces
            assert_eq!(span_text(&a[0]), "Hello World");
            assert_eq!(span_text(&b[0]), "Friends");
        }
        _ => panic!("expected two plain lines"),
    }
}
