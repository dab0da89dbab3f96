use mdproof::event::{Atom, Break, Event};
use mdproof::pages::Pages;
use mdproof::resources::{CharAdvance, FontMetrics, Resources};
use mdproof::section::Section;
use mdproof::span::{PositionedSpan, Span};
use mdproof::style::{Class, Style};
use mdproof::{layout_document, Config};

fn test_font(advances: Vec<CharAdvance>, line_height: u64, default_advance: u64) -> FontMetrics {
    FontMetrics { units_per_em: 12, line_height, default_advance, advances }
}

/// Page 1000 x 800, vertical margin 50 top and bottom (700 usable), line
/// height 20, single spacing.
fn page_config() -> Config {
    let mut cfg = Config::default();
    cfg.page_size = (1000, 800);
    cfg.margin = (30, 50);
    cfg.line_spacing = 100;
    cfg.list_indentation = 10;
    cfg.list_point_offset = 5;
    cfg.quote_indentation = 20;
    cfg.code_indentation = 10;
    cfg.section_spacing = 5;
    cfg
}

fn test_resources(cfg: Config) -> Resources {
    let names: Vec<String> = vec![
        cfg.default_font.clone(),
        cfg.bold_font.clone(),
        cfg.italic_font.clone(),
        cfg.bold_italic_font.clone(),
        cfg.mono_font.clone(),
    ];
    let mut res = Resources::new(cfg, String::new());
    for name in names {
        res.add_font(name, test_font(Vec::new(), 20, 10));
    }
    res
}

fn line(text: &str) -> Section {
    Section::Plain(vec![Span::Text { text: text.to_string(), style: Style::new() }])
}

fn span_count(pages: &[mdproof::page::Page]) -> usize {
    pages.iter().map(|p| p.positioned_spans.len()).sum()
}

/// Exactly 35 lines of height 20 fit between the margins of an 800-high
/// page; the 36th forces a new page and lands at its top.
#[test]
fn thirty_five_lines_fill_a_page_and_one_more_breaks() {
    let cfg = page_config();
    let res = test_resources(page_config());

    let sections35: Vec<Section> = (0..35).map(|_| line("x")).collect();
    let mut pages = Pages::new(cfg.duplicate());
    pages.render_sections(&res, &sections35, 30);
    let out = pages.into_vec();
    assert_eq!(out.len(), 1);
    assert_eq!(out[0].positioned_spans.len(), 35);
    // the 35th line sits exactly on the bottom margin
    assert_eq!(out[0].positioned_spans[34].pos.1, 50);

    let sections36: Vec<Section> = (0..36).map(|_| line("x")).collect();
    let mut pages = Pages::new(cfg.duplicate());
    pages.render_sections(&res, &sections36, 30);
    let out = pages.into_vec();
    assert_eq!(out.len(), 2);
    assert_eq!(out[0].positioned_spans.len(), 35);
    assert_eq!(out[1].positioned_spans.len(), 1);
    // the 36th line starts at the top of its own page: 750 - 20
    assert_eq!(out[1].positioned_spans[0].pos.1, 730);
}

/// Every span of the input appears in exactly one page: none is dropped,
/// none is duplicated.
#[test]
fn pagination_places_every_span_exactly_once() {
    let cfg = page_config();
    let res = test_resources(page_config());
    let sections: Vec<Section> = vec![
        Section::Plain(vec![
            Span::Text { text: "ab".to_string(), style: Style::new() },
            Span::Text { text: "cd".to_string(), style: Style::new() },
        ]),
        Section::VerticalSpace(5),
        Section::ListItem(vec![line("in the item"), line("second line")]),
        Section::ThematicBreak,
        Section::PageBreak,
        Section::CodeBlock(vec![
            vec![Span::Text { text: "code".to_string(), style: Style::new() }],
            vec![Span::Text { text: "more".to_string(), style: Style::new() }],
        ]),
        line("tail"),
    ];
    let mut pages = Pages::new(cfg.duplicate());
    pages.render_sections(&res, &sections, 30);
    let out = pages.into_vec();
    // 2 + 0 + (marker + 2) + 1 rule + 0 + 2 + 1 = 9 placed spans
    assert_eq!(span_count(&out), 9);
    assert_eq!(out.len(), 2);
}

/// A page break always breaks, whatever room is left.
#[test]
fn page_break_forces_a_new_page() {
    let cfg = page_config();
    let res = test_resources(page_config());
    let sections: Vec<Section> = vec![line("a"), Section::PageBreak, line("b")];
    let mut pages = Pages::new(cfg.duplicate());
    pages.render_sections(&res, &sections, 30);
    let out = pages.into_vec();
    assert_eq!(out.len(), 2);
    assert_eq!(out[0].positioned_spans.len(), 1);
    assert_eq!(out[1].positioned_spans.len(), 1);
}

/// A thematic break is drawn as a rectangle spanning the rest of the
/// column, one unit high.
#[test]
fn thematic_break_becomes_a_rule_rectangle() {
    let cfg = page_config();
    let res = test_resources(page_config());
    let sections: Vec<Section> = vec![Section::ThematicBreak];
    let mut pages = Pages::new(cfg.duplicate());
    pages.render_sections(&res, &sections, 30);
    let out = pages.into_vec();
    assert_eq!(out.len(), 1);
    let ps: &PositionedSpan = &out[0].positioned_spans[0];
    match &ps.span {
        Span::Rect { width, height } => {
            // page width 1000 minus horizontal margin 30 minus start 30
            assert_eq!(*width, 940);
            assert_eq!(*height, 1);
        }
        _ => panic!("expected the rule rectangle"),
    }
    assert_eq!(ps.pos.0, 30);
}

/// A list item draws its marker glyph in monospace, offset left of the
/// item's indented text.
#[test]
fn list_item_draws_its_marker() {
    let cfg = page_config();
    let res = test_resources(page_config());
    let sections: Vec<Section> = vec![Section::ListItem(vec![line("body")])];
    let mut pages = Pages::new(cfg.duplicate());
    pages.render_sections(&res, &sections, 30);
    let out = pages.into_vec();
    let spans = &out[0].positioned_spans;
    assert_eq!(spans.len(), 2);
    match &spans[0].span {
        Span::Text { text, style } => {
            assert_eq!(text.as_str(), "o");
            assert!(style.contains(&Class::Code));
        }
        _ => panic!("expected the marker glyph"),
    }
    // marker at start + list indentation (10) - point offset (5)
    assert_eq!(spans[0].pos.0, 35);
    // the body is indented by the full list indentation
    assert_eq!(spans[1].pos.0, 40);
    // marker and first line share their baseline
    assert_eq!(spans[0].pos.1, spans[1].pos.1);
}

/// A nested block may start near the bottom of a page: only its first
/// line's height is reserved, the rest flows onto the next page.
#[test]
fn list_items_flow_across_pages() {
    let cfg = page_config();
    let res = test_resources(page_config());
    let mut sections: Vec<Section> = (0..34).map(|_| line("x")).collect();
    sections.push(Section::ListItem(vec![line("first"), line("second"), line("third")]));
    let mut pages = Pages::new(cfg.duplicate());
    pages.render_sections(&res, &sections, 30);
    let out = pages.into_vec();
    assert_eq!(out.len(), 2);
    // the marker and first item line still fit on the first page
    assert_eq!(out[0].positioned_spans.len(), 36);
    assert_eq!(out[1].positioned_spans.len(), 2);
}

/// Spans on one line advance left to right by each span's width.
#[test]
fn spans_advance_by_their_widths() {
    let cfg = page_config();
    let res = test_resources(page_config());
    let sections: Vec<Section> = vec![Section::Plain(vec![
        Span::Text { text: "ab".to_string(), style: Style::new() },
        Span::Rect { width: 7, height: 1 },
        Span::Text { text: "c".to_string(), style: Style::new() },
    ])];
    let mut pages = Pages::new(cfg.duplicate());
    pages.render_sections(&res, &sections, 30);
    let out = pages.into_vec();
    let spans = &out[0].positioned_spans;
    assert_eq!(spans[0].pos.0, 30);
    // "ab" is two glyphs of advance 10 at em == size
    assert_eq!(spans[1].pos.0, 50);
    assert_eq!(spans[2].pos.0, 57);
}

/// An empty document still produces one page.
#[test]
fn an_empty_document_yields_one_empty_page() {
    let res = test_resources(page_config());
    let pages = layout_document(&res, Vec::new());
    assert_eq!(pages.len(), 1);
    assert_eq!(pages[0].positioned_spans.len(), 0);
}

/// A document that ends in a paragraph produces no trailing empty page.
#[test]
fn paragraph_document_has_no_trailing_empty_page() {
    let res = test_resources(page_config());
    let events = vec![
        Event::Atom(Atom::Text { text: "tail words".to_string(), style: Style::new() }),
        Event::Break(Break::Paragraph),
    ];
    let pages = layout_document(&res, events);
    assert_eq!(pages.len(), 1);
    assert!(pages[0].positioned_spans.len() > 0);
}

/// The whole pipeline: markup events in, positioned pages out.
#[test]
fn layout_document_runs_the_whole_pipeline() {
    let res = test_resources(page_config());
    let events = vec![
        Event::Atom(Atom::Text { text: "one two".to_string(), style: Style::new() }),
        Event::Break(Break::Paragraph),
        Event::Break(Break::HorizontalRule),
        Event::Atom(Atom::Text { text: "three".to_string(), style: Style::new() }),
    ];
    let pages = layout_document(&res, events);
    assert_eq!(pages.len(), 1);
    // "one two", the rule, and "three"
    assert_eq!(pages[0].positioned_spans.len(), 3);
}
