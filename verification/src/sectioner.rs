//! The line builder: the state machine that consumes sized events, wraps
//! words into lines within the column width, and assembles the ordered
//! list of sections.
//!
//! Nested list items and block quotes open their own layout scope with a
//! narrower column. Scopes live on an explicit stack of frames: the fields
//! of the `Sectioner` itself are the innermost, active scope, and `stack`
//! holds the suspended enclosing scopes, outermost first.

use vstd::prelude::*;
use crate::resources::Resources;
use crate::section::{Section, SecV, lemma_secvs_len, lemma_secvs_push, secv, secvs};
use crate::span::{Span, SpanV, lemma_style_view_measures, sv, svs};
use crate::event::{Atom, BlockTag, Break};
use crate::sizer::SizedEvent;
use crate::style::{Class, Style};
use crate::util::{
    covers_with_cuts, is_ws, join_words, lemma_covers_snoc, lemma_join_sub_snoc, lemma_line_run, lemma_sat_chain,
    lemma_words_of_shape, lines_of, sat64, sat_add, spec_width_of_text, split_words, width_of_text,
    words_of,
};
use crate::Config;
use vstd::string::StringExecFns;

verus! {

/// What a completed subsection should be wrapped into.
#[derive(Clone, Copy, Debug, PartialEq, Eq, Structural)]
pub enum SubsectionType {
    List,
    Quote,
}

/// One suspended enclosing layout scope.
#[derive(Debug)]
pub struct Frame {
    pub x: u64,
    pub lines: Vec<Section>,
    pub current_line: Vec<Span>,
    pub current_code_block: Vec<Vec<Span>>,
    pub min_x: u64,
    pub is_code: bool,
    pub is_alt_text: bool,
}

/// The line builder. `x` is the horizontal cursor of the line in progress;
/// `min_x` and `max_x` bound the active column; `lines` holds the finished
/// sections of the active scope.
#[derive(Debug)]
pub struct Sectioner {
    pub x: u64,
    pub lines: Vec<Section>,
    pub current_line: Vec<Span>,
    pub current_code_block: Vec<Vec<Span>>,
    pub min_x: u64,
    pub max_x: u64,
    pub is_code: bool,
    pub is_alt_text: bool,
    pub cfg: Config,
    /// Suspended enclosing scopes, outermost first.
    pub stack: Vec<Frame>,
}

/// The saturating sum of the widths of a run of spans.
pub open spec fn spans_width(res: Resources, spans: Seq<Span>) -> int
    decreases spans.len(),
{
    if spans.len() == 0 {
        0
    } else {
        sat64(spans_width(res, spans.drop_last()) + spans.last().spec_width(res))
    }
}

pub proof fn lemma_spans_width_bounds(res: Resources, spans: Seq<Span>)
    ensures
        0 <= spans_width(res, spans) <= u64::MAX,
    decreases spans.len(),
{
    if spans.len() > 0 {
        lemma_spans_width_bounds(res, spans.drop_last());
    }
}

pub proof fn lemma_spans_width_push(res: Resources, spans: Seq<Span>, s: Span)
    ensures
        spans_width(res, spans.push(s)) == sat64(spans_width(res, spans) + s.spec_width(res)),
{
    assert(spans.push(s).drop_last() =~= spans);
    assert(spans.push(s).last() == s);
}

/// A text span styled like `style` measures as its text under `style`.
proof fn lemma_style_view_measures_for(s: Span, style: Style, res: Resources)
    ensures
        s matches Span::Text { text: t, style: st } ==> (st@ == style@ ==> s.spec_width(res)
            == spec_width_of_text(res, style, t@)),
{
    match s {
        Span::Text { text, style: st } => {
            if st@ == style@ {
                lemma_style_view_measures(st, style, text@, res);
            }
        }
        _ => {}
    }
}

/// The start of group `j`: the end of the group before it.
pub open spec fn greedy_start(cuts: Seq<int>, j: int) -> int {
    if j == 0 {
        0
    } else {
        cuts[j - 1]
    }
}

/// The first word of group `j` that entered through the wrap test: the
/// word a wrap begins a group with was never tested again.
pub open spec fn greedy_lo(cuts: Seq<int>, j: int) -> int {
    if j == 0 {
        0
    } else {
        cuts[j - 1] + 1
    }
}

/// The cursor a group builds on: group 0 continues the open line at the
/// entry cursor; every later group starts a fresh line at the left
/// margin.
pub open spec fn greedy_x(x0: int, min_x: u64, j: int) -> int {
    if j == 0 {
        x0
    } else {
        min_x as int
    }
}

/// The width of the line being built when word `kk` is considered: the
/// group's words from `start` through `kk`, joined by single spaces.
pub open spec fn line_cand_width(
    res: Resources,
    style: Style,
    words: Seq<Seq<char>>,
    start: int,
    kk: int,
) -> int {
    spec_width_of_text(res, style, join_words(words.subrange(start, kk + 1)))
}

/// Extending a candidate line never narrows it: with each further word
/// the joined text only grows, so a candidate that overflowed the column
/// keeps overflowing however the group is extended. In particular a word
/// wider than the column can never sit anywhere but first on its line.
pub proof fn lemma_line_cand_width_mono(
    res: Resources,
    style: Style,
    words: Seq<Seq<char>>,
    start: int,
    k1: int,
    k2: int,
)
    requires
        res.fonts_ready(),
        0 <= start <= k1 <= k2 < words.len(),
    ensures
        line_cand_width(res, style, words, start, k1) <= line_cand_width(
            res,
            style,
            words,
            start,
            k2,
        ),
    decreases k2 - k1,
{
    if k1 < k2 {
        lemma_line_cand_width_mono(res, style, words, start, k1, k2 - 1);
        lemma_join_sub_snoc(words, start, k2);
        let s1 = join_words(words.subrange(start, k2));
        let s2 = join_words(words.subrange(start, k2 + 1));
        if start == k2 {
            assert(words.subrange(start, k2).len() == 0);
            assert(s1 == Seq::<char>::empty());
            crate::util::lemma_width_prefix_mono(res, style, s1, s2);
            assert(s1 + s2 =~= s2);
        } else {
            assert(s2 == s1 + seq![' '] + words[k2]);
            crate::util::lemma_width_prefix_mono(res, style, s1, seq![' '] + words[k2]);
            assert(s1 + (seq![' '] + words[k2]) =~= s2);
        }
    }
}

/// The greedy wrap discipline over the chosen group ends: a line ends
/// exactly where the next word no longer fits. The word at each cut
/// overflowed the line being built there — so no line ends early — and
/// every word taken into a group still fit the column when it was taken —
/// so no line ends late.
pub open spec fn greedy_cuts(
    res: Resources,
    style: Style,
    words: Seq<Seq<char>>,
    cuts: Seq<int>,
    x0: int,
    min_x: u64,
    max_x: u64,
) -> bool {
    &&& forall|j: int| 0 <= j < cuts.len() - 1 ==> (#[trigger] cuts[j]) < words.len() && sat64(
        greedy_x(x0, min_x, j) + line_cand_width(res, style, words, greedy_start(cuts, j), cuts[j]),
    ) > max_x
    &&& forall|j: int, kk: int| 0 <= j < cuts.len() && greedy_lo(cuts, j) <= kk < cuts[j] ==> sat64(
        greedy_x(x0, min_x, j) + #[trigger] line_cand_width(
            res,
            style,
            words,
            greedy_start(cuts, j),
            kk,
        ),
    ) <= max_x
}

/// A span text made of whitespace alone.
pub open spec fn space_only(t: Seq<char>) -> bool {
    t.len() > 0 && forall|i: int| 0 <= i < t.len() ==> is_ws(t[i])
}

/// The hypotheses of the word-wrap law: the cursor agrees with the open
/// line and sits inside the column, the column's right edge is a real
/// length, and every word of the text fits the column on its own.
pub open spec fn wla_good(o: Sectioner, res: Resources, text: Seq<char>, style: Style) -> bool {
    &&& o.x as int == sat64(o.min_x + spans_width(res, o.current_line@))
    &&& o.x <= o.max_x
    &&& o.max_x < u64::MAX
    &&& forall|i: int| 0 <= i < words_of(text).len() ==> spec_width_of_text(
        res,
        style,
        #[trigger] words_of(text)[i],
    ) <= o.max_x - o.min_x
}

/// The word-wrap law. Under the hypotheses of `wla_good`: the spans of
/// every line this call finishes sum to at most the column width, and the
/// cursor again agrees with the open line and stays inside the column.
pub open spec fn wla_law(o: Sectioner, n: Sectioner, res: Resources, style: Style) -> bool {
    &&& n.x as int == sat64(n.min_x + spans_width(res, n.current_line@))
    &&& n.x <= n.max_x
    &&& forall|i: int| o.lines@.len() <= i < n.lines@.len() ==> ((#[trigger] n.lines@[i]) matches
        Section::Plain(v) && spans_width(res, v@) <= o.max_x - o.min_x)
}

/// The spans of a `Plain` section, and nothing for any other kind.
pub open spec fn plain_spans(s: Section) -> Seq<Span> {
    match s {
        Section::Plain(v) => v@,
        _ => Seq::empty(),
    }
}

/// The text of the last span of a line, when it ends in a text span.
pub open spec fn last_span_text(spans: Seq<Span>) -> Seq<char> {
    if spans.len() > 0 {
        match sv(spans.last()) {
            SpanV::Text { text, .. } => text,
            _ => Seq::empty(),
        }
    } else {
        Seq::empty()
    }
}

/// The buffer texts one word-wrap call wrote, in order: the closing span
/// of every line it finished, then the span it left on the open line.
pub open spec fn wla_texts(o: Sectioner, n: Sectioner) -> Seq<Seq<char>> {
    Seq::new(
        (n.lines@.len() - o.lines@.len()) as nat,
        |i: int| last_span_text(plain_spans(n.lines@[o.lines@.len() + i])),
    ).push(last_span_text(n.current_line@))
}

/// What `write_left_aligned` does. It only finishes whole `Plain` lines
/// beyond the sections already present and leaves every other part of the
/// builder alone. Every line it finishes gains exactly one closing text
/// span in the given style; lines begun at a forced wrap hold only that
/// span, which is never space-only; the first finished line continues the
/// line that was open, and afterwards one text span stays on the open
/// line. The texts of those spans partition the words of the input, in
/// order, each span being one group of consecutive words joined by single
/// spaces — so no word is dropped, duplicated or reordered — and the
/// partition obeys the greedy discipline of `greedy_cuts`: a line ends
/// exactly where the next word, with its separating space, would no
/// longer fit the column. On top of that, the word-wrap law bounds the
/// line widths whenever the hypotheses of `wla_good` hold.
pub open spec fn wla_rel(
    o: Sectioner,
    n: Sectioner,
    res: Resources,
    text: Seq<char>,
    style: Style,
) -> bool {
    &&& n.min_x == o.min_x
    &&& n.max_x == o.max_x
    &&& n.cfg == o.cfg
    &&& n.stack == o.stack
    &&& n.is_code == o.is_code
    &&& n.is_alt_text == o.is_alt_text
    &&& n.current_code_block == o.current_code_block
    &&& o.lines@.len() <= n.lines@.len()
    &&& n.lines@.subrange(0, o.lines@.len() as int) == o.lines@
    &&& forall|i: int| o.lines@.len() <= i < n.lines@.len() ==> ((#[trigger] n.lines@[i]) matches
        Section::Plain(v) && v@.len() > 0 && (sv(v@.last()) matches SpanV::Text {
            text: t,
            style: st,
        } && st == style@))
    &&& forall|i: int| o.lines@.len() < i < n.lines@.len() ==> ((#[trigger] n.lines@[i]) matches
        Section::Plain(v) && v@.len() == 1 && (sv(v@[0]) matches SpanV::Text {
            text: t,
            style: st,
        } && !space_only(t) && st == style@))
    &&& n.lines@.len() > o.lines@.len() ==> (n.lines@[o.lines@.len() as int] matches
        Section::Plain(v) && v@.drop_last() == o.current_line@)
    &&& n.current_line@.len() > 0
    &&& (sv(n.current_line@.last()) matches SpanV::Text { text: t, style: st } && st == style@)
    &&& n.lines@.len() == o.lines@.len() ==> n.current_line@.drop_last() == o.current_line@
    &&& n.lines@.len() > o.lines@.len() ==> n.current_line@.len() == 1
    &&& exists|cuts: Seq<int>|
        #![trigger covers_with_cuts(words_of(text), wla_texts(o, n), cuts, 0, words_of(text).len() as int)]
        covers_with_cuts(words_of(text), wla_texts(o, n), cuts, 0, words_of(text).len() as int)
            && greedy_cuts(res, style, words_of(text), cuts, o.x as int, o.min_x, o.max_x)
    &&& (wla_good(o, res, text, style) ==> wla_law(o, n, res, style))
}

/// What writing a text run in code mode does: the text is split on its
/// newline characters only — never re-wrapped by width. Each newline
/// completes one line of the code block verbatim; the first completed line
/// continues whatever was already open, and the text after the last
/// newline stays as the open line.
pub open spec fn code_rel(
    o: Sectioner,
    n: Sectioner,
    res: Resources,
    text: Seq<char>,
    style: Style,
) -> bool {
    let segs = lines_of(text);
    let base = o.current_code_block@.len() as int;
    &&& n.min_x == o.min_x
    &&& n.max_x == o.max_x
    &&& n.cfg == o.cfg
    &&& n.stack == o.stack
    &&& n.is_code == o.is_code
    &&& n.is_alt_text == o.is_alt_text
    &&& n.lines == o.lines
    &&& n.current_code_block@.len() == base + segs.len() - 1
    &&& n.current_code_block@.subrange(0, base) == o.current_code_block@
    &&& (segs.len() > 1 ==> svs(n.current_code_block@[base]@) == svs(o.current_line@).push(
        SpanV::Text { text: segs[0], style: style@ },
    ))
    &&& forall|j: int| base + 1 <= j < n.current_code_block@.len() ==> svs(
        (#[trigger] n.current_code_block@[j])@,
    ) == seq![SpanV::Text { text: segs[j - base], style: style@ }]
    &&& (segs.len() == 1 ==> svs(n.current_line@) == svs(o.current_line@).push(
        SpanV::Text { text: segs[0], style: style@ },
    ))
    &&& (segs.len() > 1 ==> svs(n.current_line@) == seq![
        SpanV::Text { text: segs[segs.len() - 1], style: style@ },
    ])
    &&& (o.x as int == sat64(o.min_x + spans_width(res, o.current_line@)) ==> n.x as int
        == sat64(n.min_x + spans_width(res, n.current_line@)))
}

/// The relation `new_line` establishes: an empty line changes nothing;
/// otherwise the line is flushed — into the code-block buffer in code mode,
/// as a `Plain` section otherwise — and the cursor returns to the left
/// margin of the active scope.
pub open spec fn flushed(o: Sectioner, n: Sectioner) -> bool {
    if o.current_line@.len() == 0 {
        n == o
    } else {
        &&& n.current_line@ == Seq::<Span>::empty()
        &&& n.x == o.min_x
        &&& n.min_x == o.min_x
        &&& n.max_x == o.max_x
        &&& n.cfg == o.cfg
        &&& n.stack == o.stack
        &&& n.is_code == o.is_code
        &&& n.is_alt_text == o.is_alt_text
        &&& if o.is_code {
            n.current_code_block@ == o.current_code_block@.push(o.current_line)
                && n.lines == o.lines
        } else {
            n.lines@ == o.lines@.push(Section::Plain(o.current_line))
                && n.current_code_block == o.current_code_block
        }
    }
}

/// Every finished line anywhere inside the section fits a column of
/// width `col`. Nested blocks were built under narrower columns, so their
/// lines fit the enclosing column a fortiori; code lines are never
/// wrapped and owe nothing.
pub open spec fn section_fits(res: Resources, s: Section, col: int) -> bool
    decreases s, 0int,
{
    match s {
        Section::Plain(v) => spans_width(res, v@) <= col,
        Section::ListItem(subs) => sections_fit(res, subs@, col),
        Section::BlockQuote(subs) => sections_fit(res, subs@, col),
        _ => true,
    }
}

pub open spec fn sections_fit(res: Resources, ss: Seq<Section>, col: int) -> bool
    decreases ss, 1int,
{
    if ss.len() == 0 {
        true
    } else {
        section_fits(res, ss[0], col) && sections_fit(res, ss.skip(1), col)
    }
}

/// A run of sections fits exactly when each of them does.
pub proof fn lemma_sections_fit_index(res: Resources, ss: Seq<Section>, col: int)
    ensures
        sections_fit(res, ss, col) <==> (forall|i: int| 0 <= i < ss.len() ==> section_fits(
            res,
            #[trigger] ss[i],
            col,
        )),
    decreases ss.len(),
{
    if ss.len() > 0 {
        lemma_sections_fit_index(res, ss.skip(1), col);
        assert(forall|i: int| 0 <= i < ss.skip(1).len() ==> ss.skip(1)[i] == ss[i + 1]);
        if sections_fit(res, ss, col) {
            assert forall|i: int| 0 <= i < ss.len() implies section_fits(
                res,
                #[trigger] ss[i],
                col,
            ) by {
                if i > 0 {
                    assert(ss.skip(1)[i - 1] == ss[i]);
                }
            }
        }
        if forall|i: int| 0 <= i < ss.len() ==> section_fits(res, #[trigger] ss[i], col) {
            assert forall|i: int| 0 <= i < ss.skip(1).len() implies section_fits(
                res,
                #[trigger] ss.skip(1)[i],
                col,
            ) by {
                assert(ss.skip(1)[i] == ss[i + 1]);
            }
            assert(sections_fit(res, ss, col));
        }
    }
}

/// Lines that fit a narrow column fit every wider one.
pub proof fn lemma_section_fits_mono(res: Resources, s: Section, col: int, col2: int)
    requires
        section_fits(res, s, col),
        col <= col2,
    ensures
        section_fits(res, s, col2),
    decreases s, 0int,
{
    match s {
        Section::ListItem(subs) => {
            lemma_sections_fit_mono(res, subs@, col, col2);
        }
        Section::BlockQuote(subs) => {
            lemma_sections_fit_mono(res, subs@, col, col2);
        }
        _ => {}
    }
}

pub proof fn lemma_sections_fit_mono(res: Resources, ss: Seq<Section>, col: int, col2: int)
    requires
        sections_fit(res, ss, col),
        col <= col2,
    ensures
        sections_fit(res, ss, col2),
    decreases ss, 1int,
{
    if ss.len() > 0 {
        lemma_section_fits_mono(res, ss[0], col, col2);
        lemma_sections_fit_mono(res, ss.skip(1), col, col2);
    }
}

/// A suspended scope whose saved work fits its own column under the
/// shared right edge.
pub open spec fn frame_fits(res: Resources, fr: Frame, max_x: u64) -> bool {
    &&& fr.min_x <= max_x
    &&& fr.x as int == sat64(fr.min_x + spans_width(res, fr.current_line@))
    &&& (!fr.is_code ==> fr.x <= max_x)
    &&& sections_fit(res, fr.lines@, max_x - fr.min_x)
}

/// Every line the builder has finished fits the column it was made for:
/// the stored sections fit the active column, the cursor agrees with the
/// open line and — outside code mode, whose lines are exempt from
/// wrapping — stays inside the column, and every suspended scope
/// satisfies the same at its own indent, indents deepening inward.
pub open spec fn builder_fits(res: Resources, s: Sectioner) -> bool {
    &&& s.max_x < u64::MAX
    &&& s.min_x <= s.max_x
    &&& sections_fit(res, s.lines@, s.max_x - s.min_x)
    &&& s.x as int == sat64(s.min_x + spans_width(res, s.current_line@))
    &&& (!s.is_code ==> s.x <= s.max_x)
    &&& forall|j: int| 0 <= j < s.stack@.len() ==> frame_fits(res, #[trigger] s.stack@[j], s.max_x)
    &&& forall|j: int| 0 <= j < s.stack@.len() ==> (#[trigger] s.stack@[j]).min_x <= (if j + 1
        < s.stack@.len() {
        s.stack@[j + 1].min_x
    } else {
        s.min_x
    })
}

/// Everything but the section list is unchanged.
pub open spec fn same_but_lines(o: Sectioner, n: Sectioner) -> bool {
    &&& n.x == o.x
    &&& n.current_line == o.current_line
    &&& n.current_code_block == o.current_code_block
    &&& n.min_x == o.min_x
    &&& n.max_x == o.max_x
    &&& n.is_code == o.is_code
    &&& n.is_alt_text == o.is_alt_text
    &&& n.cfg == o.cfg
    &&& n.stack == o.stack
}

/// A nested scope was opened: the active scope was suspended onto the
/// stack, and a fresh scope begins at a left margin indented by `indent`,
/// under the same right edge.
pub open spec fn pushed_frame(o: Sectioner, n: Sectioner, indent: u64) -> bool {
    &&& n.stack@ == o.stack@.push(
        Frame {
            x: o.x,
            lines: o.lines,
            current_line: o.current_line,
            current_code_block: o.current_code_block,
            min_x: o.min_x,
            is_code: o.is_code,
            is_alt_text: o.is_alt_text,
        },
    )
    &&& n.min_x as int == sat64(o.min_x + indent)
    &&& n.x == n.min_x
    &&& n.max_x == o.max_x
    &&& n.cfg == o.cfg
    &&& n.lines@.len() == 0
    &&& n.current_line@.len() == 0
    &&& n.current_code_block@.len() == 0
    &&& !n.is_code
    &&& !n.is_alt_text
}

/// The innermost scope was completed: its finished sections were wrapped
/// into one nested section — a list item or a block quote, as the end
/// marker says — and appended to the scope below, which becomes active
/// again.
pub open spec fn popped_frame(o: Sectioner, n: Sectioner, is_list: bool) -> bool {
    let fr = o.stack@.last();
    &&& o.stack@.len() > 0
    &&& n.stack@ == o.stack@.drop_last()
    &&& n.x == fr.x
    &&& n.min_x == fr.min_x
    &&& n.max_x == o.max_x
    &&& n.cfg == o.cfg
    &&& n.is_code == fr.is_code
    &&& n.is_alt_text == fr.is_alt_text
    &&& n.current_line == fr.current_line
    &&& n.current_code_block == fr.current_code_block
    &&& n.lines@.len() == fr.lines@.len() + 1
    &&& n.lines@.subrange(0, fr.lines@.len() as int) == fr.lines@
    &&& (is_list ==> (n.lines@.last() matches Section::ListItem(subs) && secvs(subs@)
        == finalize_v(o) && subs@ == finalized_lines(o)))
    &&& (!is_list ==> (n.lines@.last() matches Section::BlockQuote(subs) && secvs(subs@)
        == finalize_v(o) && subs@ == finalized_lines(o)))
}

/// The finished section list at the end of a scope, as values: the open
/// line flushed, one trailing blank dropped.
pub open spec fn finalized_lines(o: Sectioner) -> Seq<Section> {
    let with_line = if o.current_line@.len() == 0 {
        o.lines@
    } else {
        o.lines@.push(Section::Plain(o.current_line))
    };
    if with_line.len() > 0 && with_line.last().spec_is_empty() {
        with_line.drop_last()
    } else {
        with_line
    }
}

/// What one event does to the builder, case by case, and when the call
/// reports a completed subsection to its caller.
pub open spec fn parse_rel(
    o: Sectioner,
    n: Sectioner,
    res: Resources,
    event: SizedEvent,
    ret: Option<SubsectionType>,
) -> bool {
    match event {
        SizedEvent::Break(Break::HorizontalRule) => ret is None && same_but_lines(
            o,
            n,
        ) && n.lines@ == o.lines@.push(Section::ThematicBreak),
        SizedEvent::Break(Break::Page) => ret is None && same_but_lines(o, n)
            && n.lines@ == o.lines@.push(Section::PageBreak),
        SizedEvent::Break(Break::Line) => ret is None && flushed(o, n),
        SizedEvent::Break(Break::Paragraph) => ret is None && exists|mid: Sectioner|
            #![auto]
            flushed(o, mid) && same_but_lines(mid, n) && n.lines@ == mid.lines@.push(
                Section::VerticalSpace(o.cfg.section_spacing),
            ),
        SizedEvent::Break(Break::Word) => ret is None && if o.x > o.min_x {
            &&& n.lines == o.lines
            &&& n.current_code_block == o.current_code_block
            &&& n.min_x == o.min_x
            &&& n.max_x == o.max_x
            &&& n.is_code == o.is_code
            &&& n.is_alt_text == o.is_alt_text
            &&& n.cfg == o.cfg
            &&& n.stack == o.stack
            &&& n.current_line@.len() == o.current_line@.len() + 1
            &&& n.current_line@.subrange(0, o.current_line@.len() as int) == o.current_line@
            &&& sv(n.current_line@.last()) == (SpanV::Text {
                text: " "@,
                style: Set::<Class>::empty(),
            })
            &&& n.x as int == sat64(o.x + n.current_line@.last().spec_width(res))
        } else {
            n == o
        },
        SizedEvent::StartBlock(BlockTag::List) => ret is None && flushed(o, n),
        SizedEvent::EndBlock(BlockTag::List) => ret is None && same_but_lines(o, n) && n.lines@
            == o.lines@.push(Section::VerticalSpace(o.cfg.section_spacing)),
        SizedEvent::StartBlock(BlockTag::ListItem) => ret is None && pushed_frame(
            o,
            n,
            o.cfg.list_indentation,
        ),
        SizedEvent::EndBlock(BlockTag::ListItem) => if o.stack@.len() == 0 {
            ret == Some(SubsectionType::List) && n == o
        } else {
            ret is None && popped_frame(o, n, true)
        },
        SizedEvent::StartBlock(BlockTag::BlockQuote) => ret is None && exists|mid: Sectioner|
            #![auto]
            flushed(o, mid) && pushed_frame(mid, n, o.cfg.quote_indentation),
        SizedEvent::EndBlock(BlockTag::BlockQuote) => if o.stack@.len() == 0 {
            ret == Some(SubsectionType::Quote) && n == o
        } else {
            ret is None && popped_frame(o, n, false)
        },
        SizedEvent::StartBlock(BlockTag::CodeBlock) => {
            &&& ret is None
            &&& n.is_code == true
            &&& n.x == o.x
            &&& n.lines == o.lines
            &&& n.current_line == o.current_line
            &&& n.current_code_block == o.current_code_block
            &&& n.min_x == o.min_x
            &&& n.max_x == o.max_x
            &&& n.is_alt_text == o.is_alt_text
            &&& n.cfg == o.cfg
            &&& n.stack == o.stack
        },
        SizedEvent::EndBlock(BlockTag::CodeBlock) => ret is None && exists|mid: Sectioner|
            #![auto]
            flushed(o, mid) && wrapped_code(mid, n, o.cfg.section_spacing),
        SizedEvent::SizedAtom(sa) => ret is None && match sa.atom {
            Atom::Text { text, style } => if o.is_alt_text {
                &&& n.is_alt_text == false
                &&& n.x == o.x
                &&& n.lines == o.lines
                &&& n.current_line == o.current_line
                &&& n.current_code_block == o.current_code_block
                &&& n.min_x == o.min_x
                &&& n.max_x == o.max_x
                &&& n.is_code == o.is_code
                &&& n.cfg == o.cfg
                &&& n.stack == o.stack
            } else if o.is_code {
                code_rel(o, n, res, text@, style)
            } else {
                wla_rel(o, n, res, text@, style)
            },
            Atom::Image { uri } => {
                &&& n.lines == o.lines
                &&& n.current_code_block == o.current_code_block
                &&& n.min_x == o.min_x
                &&& n.max_x == o.max_x
                &&& n.is_code == o.is_code
                &&& n.is_alt_text == true
                &&& n.cfg == o.cfg
                &&& n.stack == o.stack
                &&& n.current_line@.len() == o.current_line@.len() + 1
                &&& n.current_line@.subrange(0, o.current_line@.len() as int) == o.current_line@
                &&& sv(n.current_line@.last()) == (SpanV::Image {
                    width: sa.width,
                    height: sa.height,
                    path: uri@,
                })
                &&& n.x as int == sat64(o.x + sa.width)
            },
        },
    }
}

/// The end of a code block: the accumulated lines were wrapped into one
/// `CodeBlock` section, followed by the configured gap, and code mode
/// ended.
pub open spec fn wrapped_code(mid: Sectioner, n: Sectioner, spacing: u64) -> bool {
    &&& n.lines@.len() == mid.lines@.len() + 2
    &&& n.lines@.subrange(0, mid.lines@.len() as int) == mid.lines@
    &&& (n.lines@[mid.lines@.len() as int] matches Section::CodeBlock(lines) && lines@
        == mid.current_code_block@)
    &&& n.lines@.last() == Section::VerticalSpace(spacing)
    &&& n.current_code_block@.len() == 0
    &&& !n.is_code
    &&& n.x == mid.x
    &&& n.current_line == mid.current_line
    &&& n.min_x == mid.min_x
    &&& n.max_x == mid.max_x
    &&& n.is_alt_text == mid.is_alt_text
    &&& n.cfg == mid.cfg
    &&& n.stack == mid.stack
}

/// A section that places no content.
pub open spec fn is_blank_v(s: SecV) -> bool {
    match s {
        SecV::PageBreak => true,
        SecV::VerticalSpace(_) => true,
        SecV::Plain(sp) => sp.len() == 0,
        _ => false,
    }
}

proof fn lemma_blank_matches(s: Section)
    ensures
        is_blank_v(secv(s)) == s.spec_is_empty(),
{
    match s {
        Section::Plain(spans) => {
            assert(secv(s) == SecV::Plain(svs(spans@)));
        }
        _ => {}
    }
}

/// The contents of the finished section list at the end of a scope: the
/// open line is flushed, and one trailing blank section — which would only
/// produce a dangling empty page — is dropped.
pub open spec fn finalize_v(o: Sectioner) -> Seq<SecV> {
    let with_line = if o.current_line@.len() == 0 {
        secvs(o.lines@)
    } else {
        secvs(o.lines@).push(SecV::Plain(svs(o.current_line@)))
    };
    if with_line.len() > 0 && is_blank_v(with_line.last()) {
        with_line.drop_last()
    } else {
        with_line
    }
}

/// A scope whose sections end in a vertical gap loses exactly that gap
/// when it is finished: the trailing gap would only produce a dangling
/// empty page.
pub proof fn lemma_finalize_trims_trailing_space(o: Sectioner)
    requires
        o.current_line@.len() == 0,
        o.lines@.len() > 0,
        o.lines@.last() matches Section::VerticalSpace(_),
    ensures
        finalize_v(o) == secvs(o.lines@).drop_last(),
{
    lemma_secvs_len(o.lines@);
    assert(secvs(o.lines@).last() == secv(o.lines@.last()));
}

impl Sectioner {
    /// A fresh builder for a column from `min_x` to `max_x`.
    pub fn new(min_x: u64, max_x: u64, cfg: Config) -> (r: Sectioner)
        ensures
            r.x == min_x,
            r.min_x == min_x,
            r.max_x == max_x,
            r.cfg == cfg,
            r.lines@.len() == 0,
            r.current_line@.len() == 0,
            r.current_code_block@.len() == 0,
            r.stack@.len() == 0,
            !r.is_code,
            !r.is_alt_text,
    {
        Sectioner {
            x: min_x,
            lines: Vec::new(),
            current_line: Vec::new(),
            current_code_block: Vec::new(),
            min_x,
            max_x,
            is_code: false,
            is_alt_text: false,
            cfg,
            stack: Vec::new(),
        }
    }

    /// Append a finished section to the active scope.
    pub fn push_section(&mut self, section: Section)
        ensures
            final(self).lines@ == old(self).lines@.push(section),
            final(self).x == old(self).x,
            final(self).current_line == old(self).current_line,
            final(self).current_code_block == old(self).current_code_block,
            final(self).min_x == old(self).min_x,
            final(self).max_x == old(self).max_x,
            final(self).is_code == old(self).is_code,
            final(self).is_alt_text == old(self).is_alt_text,
            final(self).cfg == old(self).cfg,
            final(self).stack == old(self).stack,
    {
        self.lines.push(section);
    }

    /// Append the configured vertical gap between sections.
    pub fn push_space(&mut self)
        ensures
            final(self).lines@ == old(self).lines@.push(
                Section::VerticalSpace(old(self).cfg.section_spacing),
            ),
            final(self).x == old(self).x,
            final(self).current_line == old(self).current_line,
            final(self).current_code_block == old(self).current_code_block,
            final(self).min_x == old(self).min_x,
            final(self).max_x == old(self).max_x,
            final(self).is_code == old(self).is_code,
            final(self).is_alt_text == old(self).is_alt_text,
            final(self).cfg == old(self).cfg,
            final(self).stack == old(self).stack,
    {
        let spacing = Section::space(self.cfg.section_spacing);
        self.push_section(spacing);
    }

    /// Append one span to the line in progress and advance the cursor by
    /// its width.
    pub fn push_span(&mut self, resources: &Resources, span: Span)
        requires
            resources.fonts_ready(),
        ensures
            final(self).current_line@ == old(self).current_line@.push(span),
            final(self).x as int == sat64(old(self).x + span.spec_width(*resources)),
            final(self).lines == old(self).lines,
            final(self).current_code_block == old(self).current_code_block,
            final(self).min_x == old(self).min_x,
            final(self).max_x == old(self).max_x,
            final(self).is_code == old(self).is_code,
            final(self).is_alt_text == old(self).is_alt_text,
            final(self).cfg == old(self).cfg,
            final(self).stack == old(self).stack,
    {
        let w = span.width(resources);
        self.x = sat_add(self.x, w);
        self.current_line.push(span);
    }

    /// Append a styled text run to the line in progress, as one span.
    pub fn write(&mut self, resources: &Resources, text: &str, style: &Style)
        requires
            resources.fonts_ready(),
        ensures
            final(self).current_line@.len() == old(self).current_line@.len() + 1,
            final(self).current_line@.subrange(0, old(self).current_line@.len() as int)
                == old(self).current_line@,
            (final(self).current_line@.last() matches Span::Text { text: t, style: st }
                && t@ == text@ && st@ == style@),
            final(self).x as int == sat64(
                old(self).x + spec_width_of_text(*resources, *style, text@),
            ),
            final(self).lines == old(self).lines,
            final(self).current_code_block == old(self).current_code_block,
            final(self).min_x == old(self).min_x,
            final(self).max_x == old(self).max_x,
            final(self).is_code == old(self).is_code,
            final(self).is_alt_text == old(self).is_alt_text,
            final(self).cfg == old(self).cfg,
            final(self).stack == old(self).stack,
    {
        let span = Span::text(text.to_owned(), style.duplicate());
        proof {
            match span {
                Span::Text { text: ref _t, style: ref st } => {
                    lemma_style_view_measures(*st, *style, text@, *resources);
                }
                _ => {}
            }
        }
        self.push_span(resources, span);
        proof {
            assert(self.current_line@.subrange(0, old(self).current_line@.len() as int)
                =~= old(self).current_line@);
        }
    }

    /// Word-wrap a styled text run greedily into the column: words are
    /// gathered into a buffer, and whenever the next word — together with
    /// the separating space — would push the line past the right edge of
    /// the column, the buffer is flushed as one span and a new line is
    /// started. A single word wider than the column is allowed to overflow
    /// rather than being broken; no word is ever dropped.
    #[verifier::rlimit(100)]
    pub fn write_left_aligned(&mut self, resources: &Resources, text: &str, style: &Style)
        requires
            resources.fonts_ready(),
            !old(self).is_code,
        ensures
            wla_rel(*old(self), *final(self), *resources, text@, *style),
    {
        let ghost good = wla_good(*old(self), *resources, text@, *style);
        let ghost ol = old(self).lines@.len() as int;
        let ghost wordsv = words_of(text@);
        let words = split_words(text);
        proof {
            lemma_words_of_shape(text@);
        }
        let mut buffer = String::new();
        let mut k: usize = 0;
        let ghost mut flushed: Seq<Seq<char>> = Seq::empty();
        let ghost mut cuts: Seq<int> = Seq::empty();
        let ghost mut sw: int = 0;
        proof {
            assert(wordsv.subrange(0, 0) =~= Seq::<Seq<char>>::empty());
        }
        while k < words.len()
            invariant
                resources.fonts_ready(),
                wordsv == words_of(text@),
                words@.map_values(|w: String| w@) == wordsv,
                good == wla_good(*old(self), *resources, text@, *style),
                ol == old(self).lines@.len(),
                self.min_x == old(self).min_x,
                self.max_x == old(self).max_x,
                self.cfg == old(self).cfg,
                self.stack == old(self).stack,
                self.is_code == old(self).is_code,
                !self.is_code,
                self.is_alt_text == old(self).is_alt_text,
                self.current_code_block == old(self).current_code_block,
                ol <= self.lines@.len(),
                self.lines@.subrange(0, ol) == old(self).lines@,
                self.lines@.len() > ol ==> self.current_line@.len() == 0,
                self.lines@.len() == ol ==> self.current_line == old(self).current_line
                    && self.x == old(self).x,
                buffer@.len() > 0 ==> !is_ws(buffer@[0]),
                // word bookkeeping: the buffer holds the joined open group
                0 <= sw <= k,
                k <= wordsv.len(),
                buffer@ == join_words(wordsv.subrange(sw, k as int)),
                (buffer@.len() == 0) == (sw == k as int),
                // the flushed groups cover the words before the open group
                covers_with_cuts(wordsv, flushed, cuts, 0, sw),
                flushed.len() == self.lines@.len() - ol,
                flushed.len() == cuts.len(),
                cuts.len() == 0 ==> sw == 0,
                cuts.len() > 0 ==> cuts.last() == sw,
                self.lines@.len() > ol ==> self.x == self.min_x,
                // greedy bookkeeping: each cut overflowed, each taken word fit
                forall|j: int| 0 <= j < cuts.len() ==> (#[trigger] cuts[j]) < wordsv.len()
                    && sat64(
                    greedy_x(old(self).x as int, self.min_x, j) + line_cand_width(
                        *resources,
                        *style,
                        wordsv,
                        greedy_start(cuts, j),
                        cuts[j],
                    ),
                ) > self.max_x,
                forall|j: int, kk: int| 0 <= j < cuts.len() && greedy_lo(cuts, j) <= kk
                    < cuts[j] ==> sat64(
                    greedy_x(old(self).x as int, self.min_x, j) + #[trigger] line_cand_width(
                        *resources,
                        *style,
                        wordsv,
                        greedy_start(cuts, j),
                        kk,
                    ),
                ) <= self.max_x,
                forall|kk: int| (if cuts.len() == 0 {
                    0int
                } else {
                    cuts.last() + 1
                }) <= kk < k ==> sat64(
                    greedy_x(old(self).x as int, self.min_x, cuts.len() as int)
                        + #[trigger] line_cand_width(*resources, *style, wordsv, sw, kk),
                ) <= self.max_x,
                forall|j: int| 0 <= j < flushed.len() ==> ((#[trigger] self.lines@[ol + j])
                    matches Section::Plain(v) && v@.len() > 0 && (sv(v@.last())
                    matches SpanV::Text { text: t, style: st } && t == flushed[j] && st
                    == style@)),
                forall|i: int| ol < i < self.lines@.len() ==> ((#[trigger] self.lines@[i])
                    matches Section::Plain(v) && v@.len() == 1 && (sv(v@[0])
                    matches SpanV::Text { text: t, style: st } && !space_only(t) && st
                    == style@)),
                self.lines@.len() > ol ==> (self.lines@[ol] matches Section::Plain(v)
                    && v@.drop_last() == old(self).current_line@),
                good ==> self.x as int + spec_width_of_text(*resources, *style, buffer@)
                    <= self.max_x as int,
                good ==> self.x as int == sat64(
                    self.min_x + spans_width(*resources, self.current_line@),
                ),
                good ==> forall|i: int| ol <= i < self.lines@.len() ==> ((
                #[trigger] self.lines@[i]) matches Section::Plain(v) && spans_width(
                    *resources,
                    v@,
                ) <= old(self).max_x - old(self).min_x),
            decreases words.len() - k,
        {
            proof {
                lemma_words_of_shape(text@);
                assert(words@.map_values(|w: String| w@)[k as int] == words@[k as int]@);
                assert(spec_width_of_text(*resources, *style, Seq::<char>::empty()) == 0);
            }
            let mut cand = buffer.clone();
            if !cand.as_str().is_empty() {
                cand.append(" ");
            }
            cand.append(words[k].as_str());
            proof {
                reveal_strlit(" ");
                assert(" "@ =~= seq![' ']);
                if buffer@.len() > 0 {
                    assert(cand@[0] == buffer@[0]);
                    lemma_join_sub_snoc(wordsv, sw, k as int);
                    assert(cand@ =~= join_words(wordsv.subrange(sw, k + 1)));
                } else {
                    assert(sw == k as int);
                    assert(cand@ =~= words@[k as int]@);
                    assert(wordsv.subrange(k as int, k + 1) =~= seq![wordsv[k as int]]);
                    assert(join_words(seq![wordsv[k as int]]) == wordsv[k as int]);
                }
            }
            let cand_width = width_of_text(resources, style, cand.as_str());
            proof {
                assert(cand@ == join_words(wordsv.subrange(sw, k + 1)));
                assert(cand_width as int == line_cand_width(
                    *resources,
                    *style,
                    wordsv,
                    sw,
                    k as int,
                ));
            }
            if sat_add(self.x, cand_width) > self.max_x {
                let ghost bt = buffer@;
                let ghost pre = *self;
                self.write(resources, buffer.as_str(), style);
                let ghost mid = *self;
                proof {
                    assert(mid.current_line@.drop_last() =~= pre.current_line@);
                    match mid.current_line@.last() {
                        Span::Text { text: ref t, style: ref st } => {
                            assert(sv(mid.current_line@.last()) == (SpanV::Text {
                                text: bt,
                                style: style@,
                            }));
                        }
                        _ => {
                            assert(false);
                        }
                    }
                    if good {
                        lemma_spans_width_push(
                            *resources,
                            pre.current_line@,
                            mid.current_line@.last(),
                        );
                        lemma_style_view_measures_for(
                            mid.current_line@.last(),
                            *style,
                            *resources,
                        );
                        lemma_spans_width_bounds(*resources, pre.current_line@);
                        assert(spans_width(*resources, mid.current_line@) <= pre.max_x
                            - pre.min_x);
                    }
                }
                self.new_line();
                proof {
                    assert(self.lines@.subrange(0, ol) =~= old(self).lines@);
                    assert(self.lines@.last() == Section::Plain(mid.current_line));
                    lemma_covers_snoc(wordsv, flushed, cuts, 0, sw, k as int, bt);
                    if pre.lines@.len() > ol {
                        assert(pre.current_line@.len() == 0);
                        assert(mid.current_line@ =~= seq![mid.current_line@.last()]);
                    }
                    if good {
                        assert(sat64(self.min_x + spans_width(*resources, self.current_line@))
                            == self.min_x as int);
                    }
                }
                let ghost prev_cuts = cuts;
                let ghost prev_sw = sw;
                proof {
                    flushed = flushed.push(bt);
                    cuts = cuts.push(k as int);
                    sw = k as int;
                }
                buffer = words[k].clone();
                proof {
                    assert(buffer@ == wordsv[k as int]);
                    assert(wordsv.subrange(k as int, k + 1) =~= seq![wordsv[k as int]]);
                    assert(join_words(seq![wordsv[k as int]]) == wordsv[k as int]);
                    assert(wordsv[k as int].len() > 0);
                    assert forall|j: int| 0 <= j < flushed.len() implies ((
                    #[trigger] self.lines@[ol + j]) matches Section::Plain(v) && v@.len() > 0
                        && (sv(v@.last()) matches SpanV::Text { text: t, style: st } && t
                        == flushed[j] && st == style@)) by {
                        if j < flushed.len() - 1 {
                            assert(self.lines@[ol + j] == pre.lines@[ol + j]);
                        }
                    }
                    // the wrap test failed exactly here: this cut overflowed
                    assert(sat64(pre.x + line_cand_width(*resources, *style, wordsv, prev_sw,
                        k as int)) > pre.max_x as int);
                    assert forall|j: int| 0 <= j < cuts.len() implies (#[trigger] cuts[j])
                        < wordsv.len() && sat64(
                        greedy_x(old(self).x as int, self.min_x, j) + line_cand_width(
                            *resources,
                            *style,
                            wordsv,
                            greedy_start(cuts, j),
                            cuts[j],
                        ),
                    ) > self.max_x by {
                        if j < prev_cuts.len() {
                            assert(cuts[j] == prev_cuts[j]);
                            if j > 0 {
                                assert(cuts[j - 1] == prev_cuts[j - 1]);
                            }
                        } else {
                            assert(cuts[j] == k as int);
                            if j > 0 {
                                assert(cuts[j - 1] == prev_cuts.last());
                            }
                        }
                    }
                    assert forall|j: int, kk: int| 0 <= j < cuts.len() && greedy_lo(cuts, j)
                        <= kk < cuts[j] implies sat64(
                        greedy_x(old(self).x as int, self.min_x, j) + #[trigger] line_cand_width(
                            *resources,
                            *style,
                            wordsv,
                            greedy_start(cuts, j),
                            kk,
                        ),
                    ) <= self.max_x by {
                        if j < prev_cuts.len() {
                            assert(cuts[j] == prev_cuts[j]);
                            if j > 0 {
                                assert(cuts[j - 1] == prev_cuts[j - 1]);
                            }
                        } else {
                            assert(cuts[j] == k as int);
                            if j > 0 {
                                assert(cuts[j - 1] == prev_cuts.last());
                            }
                        }
                    }
                }
            } else {
                proof {
                    if good {
                        assert(self.x as int + spec_width_of_text(*resources, *style, cand@)
                            <= self.max_x as int);
                    }
                    // the word fit: extend the in-group record by this word
                    assert(sat64(self.x + cand_width) <= self.max_x as int);
                    assert forall|kk: int| (if cuts.len() == 0 {
                        0int
                    } else {
                        cuts.last() + 1
                    }) <= kk < k + 1 implies sat64(
                        greedy_x(old(self).x as int, self.min_x, cuts.len() as int)
                            + #[trigger] line_cand_width(*resources, *style, wordsv, sw, kk),
                    ) <= self.max_x by {
                        if kk == k as int {
                            assert(self.x as int == greedy_x(
                                old(self).x as int,
                                self.min_x,
                                cuts.len() as int,
                            ));
                        }
                    }
                }
                buffer = cand;
            }
            k += 1;
        }
        let ghost pre = *self;
        self.write(resources, buffer.as_str(), style);
        proof {
            assert(self.lines@.subrange(0, ol) =~= old(self).lines@);
            assert(self.current_line@.drop_last() =~= pre.current_line@);
            match self.current_line@.last() {
                Span::Text { text: ref t, style: ref st } => {
                    assert(sv(self.current_line@.last()) == (SpanV::Text {
                        text: buffer@,
                        style: style@,
                    }));
                }
                _ => {
                    assert(false);
                }
            }
            assert(last_span_text(self.current_line@) == buffer@);
            lemma_covers_snoc(wordsv, flushed, cuts, 0, sw, wordsv.len() as int, buffer@);
            let ghost cutsf = cuts.push(wordsv.len() as int);
            assert(covers_with_cuts(wordsv, flushed.push(buffer@), cutsf, 0, wordsv.len() as int));
            assert(words@.len() == wordsv.len());
            assert(greedy_cuts(
                *resources,
                *style,
                wordsv,
                cutsf,
                old(self).x as int,
                old(self).min_x,
                old(self).max_x,
            )) by {
                assert forall|j: int| 0 <= j < cutsf.len() - 1 implies (#[trigger] cutsf[j])
                    < wordsv.len() && sat64(
                    greedy_x(old(self).x as int, old(self).min_x, j) + line_cand_width(
                        *resources,
                        *style,
                        wordsv,
                        greedy_start(cutsf, j),
                        cutsf[j],
                    ),
                ) > old(self).max_x by {
                    assert(cutsf[j] == cuts[j]);
                    if j > 0 {
                        assert(cutsf[j - 1] == cuts[j - 1]);
                    }
                }
                assert forall|j: int, kk: int| 0 <= j < cutsf.len() && greedy_lo(cutsf, j) <= kk
                    < cutsf[j] implies sat64(
                    greedy_x(old(self).x as int, old(self).min_x, j) + #[trigger] line_cand_width(
                        *resources,
                        *style,
                        wordsv,
                        greedy_start(cutsf, j),
                        kk,
                    ),
                ) <= old(self).max_x by {
                    if j < cuts.len() {
                        assert(cutsf[j] == cuts[j]);
                        if j > 0 {
                            assert(cutsf[j - 1] == cuts[j - 1]);
                        }
                    } else {
                        assert(cutsf[j] == wordsv.len() as int);
                        if j > 0 {
                            assert(cutsf[j - 1] == cuts.last());
                        }
                    }
                }
            }
            assert(wla_texts(*old(self), *self) =~= flushed.push(buffer@)) by {
                assert forall|j: int| 0 <= j < flushed.len() implies last_span_text(
                    plain_spans(self.lines@[ol + j]),
                ) == flushed[j] by {
                    assert((#[trigger] self.lines@[ol + j]) matches Section::Plain(v)
                        && v@.len() > 0 && (sv(v@.last()) matches SpanV::Text {
                        text: t,
                        style: st,
                    } && t == flushed[j] && st == style@));
                }
            }
            if good {
                lemma_spans_width_push(*resources, pre.current_line@, self.current_line@.last());
                lemma_style_view_measures_for(self.current_line@.last(), *style, *resources);
                lemma_spans_width_bounds(*resources, pre.current_line@);
            }
        }
    }

    /// Write a text run while in code mode: split on explicit newline
    /// characters only, each physical source line becoming one line of the
    /// code block, kept verbatim.
    fn write_code_text(&mut self, resources: &Resources, text: &str, style: &Style)
        requires
            resources.fonts_ready(),
            old(self).is_code,
        ensures
            code_rel(*old(self), *final(self), *resources, text@, *style),
    {
        let ghost segs = lines_of(text@);
        let ghost base = old(self).current_code_block@.len() as int;
        let n = text.unicode_len();
        let mut start: usize = 0;
        let mut i: usize = 0;
        proof {
            assert(text@.skip(0) =~= text@);
        }
        while i < n
            invariant
                resources.fonts_ready(),
                n == text@.len(),
                start <= i <= n,
                forall|kk: int| start <= kk < i ==> text@[kk] != '\n',
                segs == lines_of(text@),
                base == old(self).current_code_block@.len(),
                self.is_code,
                self.min_x == old(self).min_x,
                self.max_x == old(self).max_x,
                self.cfg == old(self).cfg,
                self.stack == old(self).stack,
                self.is_alt_text == old(self).is_alt_text,
                self.lines == old(self).lines,
                base <= self.current_code_block@.len(),
                self.current_code_block@.len() - base <= segs.len() - 1,
                lines_of(text@.skip(start as int)) == segs.skip(
                    self.current_code_block@.len() - base,
                ),
                self.current_code_block@.subrange(0, base) == old(self).current_code_block@,
                (self.current_code_block@.len() > base ==> svs(self.current_code_block@[base]@)
                    == svs(old(self).current_line@).push(
                    SpanV::Text { text: segs[0], style: style@ },
                )),
                forall|j: int| base + 1 <= j < self.current_code_block@.len() ==> svs(
                    (#[trigger] self.current_code_block@[j])@,
                ) == seq![SpanV::Text { text: segs[j - base], style: style@ }],
                self.current_code_block@.len() == base ==> self.current_line
                    == old(self).current_line,
                self.current_code_block@.len() > base ==> self.current_line@.len() == 0,
                old(self).x as int == sat64(
                    old(self).min_x + spans_width(*resources, old(self).current_line@),
                ) ==> self.x as int == sat64(
                    self.min_x + spans_width(*resources, self.current_line@),
                ),
            decreases n - i,
        {
            let c = text.get_char(i);
            if c == '\n' {
                let ghost a = self.current_code_block@.len() - base;
                proof {
                    let rest = text@.skip(start as int);
                    assert forall|kk: int| 0 <= kk < i - start implies rest[kk] != '\n' by {
                        assert(rest[kk] == text@[start + kk]);
                    }
                    assert(rest[i - start] == text@[i as int]);
                    lemma_line_run(rest, i - start);
                    assert(lines_of(rest) == seq![rest.take(i - start)] + lines_of(
                        rest.skip(i - start + 1),
                    ));
                    assert(rest.take(i - start) =~= text@.subrange(start as int, i as int));
                    assert(rest.skip(i - start + 1) =~= text@.skip(i + 1));
                    assert(segs.skip(a)[0] == segs[a]);
                    assert(segs[a] == text@.subrange(start as int, i as int));
                    assert(segs.skip(a).skip(1) =~= segs.skip(a + 1));
                    assert((seq![rest.take(i - start)] + lines_of(text@.skip(i + 1))).skip(1)
                        =~= lines_of(text@.skip(i + 1)));
                }
                let ghost pre = *self;
                self.write(resources, text.substring_char(start, i), style);
                proof {
                    assert(self.current_line@.drop_last() =~= pre.current_line@);
                    assert(svs(self.current_line@) =~= svs(pre.current_line@).push(
                        SpanV::Text {
                            text: text@.subrange(start as int, i as int),
                            style: style@,
                        },
                    ));
                    lemma_spans_width_push(
                        *resources,
                        pre.current_line@,
                        self.current_line@.last(),
                    );
                    lemma_style_view_measures_for(self.current_line@.last(), *style, *resources);
                }
                self.new_line();
                proof {
                    assert(self.current_code_block@.subrange(0, base)
                        =~= old(self).current_code_block@);
                    if a >= 1 {
                        assert(pre.current_line@.len() == 0);
                        assert(svs(pre.current_line@) =~= Seq::<SpanV>::empty());
                        assert(svs(self.current_code_block@.last()@) =~= seq![
                            SpanV::Text { text: segs[a], style: style@ },
                        ]);
                    }
                }
                start = i + 1;
            }
            i += 1;
        }
        proof {
            let rest = text@.skip(start as int);
            assert forall|kk: int| 0 <= kk < rest.len() implies rest[kk] != '\n' by {
                assert(rest[kk] == text@[start + kk]);
            }
            lemma_line_run(rest, rest.len() as int);
            assert(lines_of(rest) == seq![rest]);
            let a = self.current_code_block@.len() - base;
            assert(segs.skip(a).len() == 1);
            assert(segs.skip(a)[0] == segs[a]);
            assert(segs[a] == rest);
            assert(a == segs.len() - 1);
            assert(rest =~= text@.subrange(start as int, n as int));
        }
        let ghost pre = *self;
        self.write(resources, text.substring_char(start, n), style);
        proof {
            let ghost a = self.current_code_block@.len() - base;
            assert(self.current_line@.drop_last() =~= pre.current_line@);
            lemma_spans_width_push(*resources, pre.current_line@, self.current_line@.last());
            lemma_style_view_measures_for(self.current_line@.last(), *style, *resources);
            assert(svs(self.current_line@) =~= svs(pre.current_line@).push(
                SpanV::Text { text: text@.subrange(start as int, n as int), style: style@ },
            ));
            if self.current_code_block@.len() > base {
                assert(pre.current_line@.len() == 0);
                assert(svs(pre.current_line@) =~= Seq::<SpanV>::empty());
                assert(svs(self.current_line@) =~= seq![
                    SpanV::Text { text: segs[segs.len() - 1], style: style@ },
                ]);
            }
        }
    }

    /// Close the line in progress, if it holds anything: in code mode it
    /// becomes one line of the code block, otherwise one `Plain` section.
    /// The cursor returns to the left margin.
    pub fn new_line(&mut self)
        ensures
            flushed(*old(self), *final(self)),
    {
        if self.current_line.len() == 0 {
            return;
        }
        let mut line: Vec<Span> = Vec::new();
        core::mem::swap(&mut line, &mut self.current_line);
        if self.is_code {
            self.current_code_block.push(line);
        } else {
            self.lines.push(Section::Plain(line));
        }
        self.x = self.min_x;
    }

    /// Suspend the active scope and open a fresh one, indented by `indent`.
    fn push_frame(&mut self, indent: u64)
        ensures
            pushed_frame(*old(self), *final(self), indent),
    {
        let mut lines: Vec<Section> = Vec::new();
        core::mem::swap(&mut lines, &mut self.lines);
        let mut current_line: Vec<Span> = Vec::new();
        core::mem::swap(&mut current_line, &mut self.current_line);
        let mut current_code_block: Vec<Vec<Span>> = Vec::new();
        core::mem::swap(&mut current_code_block, &mut self.current_code_block);
        let frame = Frame {
            x: self.x,
            lines,
            current_line,
            current_code_block,
            min_x: self.min_x,
            is_code: self.is_code,
            is_alt_text: self.is_alt_text,
        };
        self.stack.push(frame);
        self.min_x = sat_add(self.min_x, indent);
        self.x = self.min_x;
        self.is_code = false;
        self.is_alt_text = false;
    }

    /// Close the active scope: finish its section list as `get_vec` would,
    /// wrap it as one nested section, and resume the scope below.
    fn pop_frame(&mut self, is_list: bool)
        requires
            old(self).stack@.len() > 0,
        ensures
            popped_frame(*old(self), *final(self), is_list),
    {
        let ghost o = *old(self);
        if self.current_line.len() != 0 {
            let mut line: Vec<Span> = Vec::new();
            core::mem::swap(&mut line, &mut self.current_line);
            proof {
                lemma_secvs_push(self.lines@, Section::Plain(line));
            }
            self.lines.push(Section::Plain(line));
        }
        proof {
            lemma_secvs_len(self.lines@);
        }
        if self.lines.len() > 0 {
            let last_is_empty = self.lines[self.lines.len() - 1].is_empty();
            proof {
                lemma_blank_matches(self.lines@.last());
                assert(secvs(self.lines@).last() == secv(self.lines@.last()));
            }
            if last_is_empty {
                let ghost before = self.lines@;
                self.lines.pop();
                proof {
                    lemma_secvs_len(before);
                    lemma_secvs_len(self.lines@);
                    assert forall|i: int| 0 <= i < self.lines@.len() implies secvs(
                        self.lines@,
                    )[i] == secvs(before).drop_last()[i] by {
                        assert(self.lines@[i] == before[i]);
                    }
                    assert(secvs(self.lines@) =~= secvs(before).drop_last());
                }
            }
        }
        proof {
            assert(secvs(self.lines@) == finalize_v(o));
        }
        let mut subs: Vec<Section> = Vec::new();
        core::mem::swap(&mut subs, &mut self.lines);
        let section = if is_list {
            Section::ListItem(subs)
        } else {
            Section::BlockQuote(subs)
        };
        let frame = match self.stack.pop() {
            Some(f) => f,
            None => vstd::pervasive::unreached(),
        };
        self.x = frame.x;
        self.min_x = frame.min_x;
        self.is_code = frame.is_code;
        self.is_alt_text = frame.is_alt_text;
        self.lines = frame.lines;
        self.current_line = frame.current_line;
        self.current_code_block = frame.current_code_block;
        self.lines.push(section);
        proof {
            assert(self.lines@.subrange(0, o.stack@.last().lines@.len() as int)
                =~= o.stack@.last().lines@);
        }
    }

    /// Feed one sized event into the builder. Events act on the innermost
    /// open scope. A start of a list item or block quote opens a nested
    /// scope; the matching end closes it and appends the wrapped section
    /// one level up. An end marker that matches no open scope is reported
    /// to the caller as `Some` of the subsection kind it would have closed,
    /// with the builder left untouched.
    pub fn parse_event(&mut self, resources: &Resources, event: SizedEvent) -> (r: Option<
        SubsectionType,
    >)
        requires
            resources.fonts_ready(),
        ensures
            parse_rel(*old(self), *final(self), *resources, event, r),
    {
        match event {
            SizedEvent::Break(Break::HorizontalRule) => {
                self.push_section(Section::ThematicBreak);
                None
            }
            SizedEvent::Break(Break::Page) => {
                self.push_section(Section::page_break());
                None
            }
            SizedEvent::Break(Break::Line) => {
                self.new_line();
                None
            }
            SizedEvent::Break(Break::Paragraph) => {
                self.new_line();
                let ghost mid = *self;
                self.push_space();
                proof {
                    assert(flushed(*old(self), mid) && same_but_lines(mid, *self) && self.lines@
                        == mid.lines@.push(Section::VerticalSpace(old(self).cfg.section_spacing)));
                }
                None
            }
            SizedEvent::Break(Break::Word) => {
                if self.x > self.min_x {
                    let style = Style::default();
                    let ghost pre = *self;
                    self.write(resources, " ", &style);
                    proof {
                        assert(self.current_line@.subrange(0, pre.current_line@.len() as int)
                            =~= pre.current_line@);
                        lemma_style_view_measures_for(
                            self.current_line@.last(),
                            style,
                            *resources,
                        );
                    }
                }
                None
            }
            SizedEvent::StartBlock(BlockTag::List) => {
                self.new_line();
                None
            }
            SizedEvent::EndBlock(BlockTag::List) => {
                self.push_space();
                None
            }
            SizedEvent::StartBlock(BlockTag::ListItem) => {
                let indent = self.cfg.list_indentation;
                self.push_frame(indent);
                None
            }
            SizedEvent::EndBlock(BlockTag::ListItem) => {
                if self.stack.len() == 0 {
                    return Some(SubsectionType::List);
                }
                self.pop_frame(true);
                None
            }
            SizedEvent::StartBlock(BlockTag::BlockQuote) => {
                self.new_line();
                let ghost mid = *self;
                let indent = self.cfg.quote_indentation;
                self.push_frame(indent);
                proof {
                    assert(flushed(*old(self), mid) && pushed_frame(
                        mid,
                        *self,
                        old(self).cfg.quote_indentation,
                    ));
                }
                None
            }
            SizedEvent::EndBlock(BlockTag::BlockQuote) => {
                if self.stack.len() == 0 {
                    return Some(SubsectionType::Quote);
                }
                self.pop_frame(false);
                None
            }
            SizedEvent::StartBlock(BlockTag::CodeBlock) => {
                self.is_code = true;
                None
            }
            SizedEvent::EndBlock(BlockTag::CodeBlock) => {
                self.new_line();
                let ghost mid = *self;
                let mut code_lines: Vec<Vec<Span>> = Vec::new();
                core::mem::swap(&mut code_lines, &mut self.current_code_block);
                let code_block = Section::CodeBlock(code_lines);
                self.push_section(code_block);
                self.push_space();
                self.is_code = false;
                proof {
                    assert(self.lines@.subrange(0, mid.lines@.len() as int) =~= mid.lines@);
                    assert(flushed(*old(self), mid) && wrapped_code(
                        mid,
                        *self,
                        old(self).cfg.section_spacing,
                    ));
                }
                None
            }
            SizedEvent::SizedAtom(sa) => {
                let crate::sizer::SizedAtom { atom, width, height } = sa;
                match atom {
                    Atom::Text { text, style } => {
                        if self.is_alt_text {
                            self.is_alt_text = false;
                        } else if self.is_code {
                            self.write_code_text(resources, text.as_str(), &style);
                        } else {
                            self.write_left_aligned(resources, text.as_str(), &style);
                        }
                    }
                    Atom::Image { uri } => {
                        let span = Span::image(width, height, uri);
                        let ghost pre = *self;
                        self.push_span(resources, span);
                        self.is_alt_text = true;
                        proof {
                            assert(self.current_line@.subrange(
                                0,
                                pre.current_line@.len() as int,
                            ) =~= pre.current_line@);
                        }
                    }
                }
                None
            }
        }
    }

    /// Finish the builder and hand over its section list: the open line is
    /// flushed, and a trailing blank section is dropped so the document
    /// does not end in a dangling empty page.
    pub fn get_vec(self) -> (r: Vec<Section>)
        ensures
            secvs(r@) == finalize_v(self),
            r@ == finalized_lines(self),
    {
        let ghost orig = self;
        let mut lines = self.lines;
        let current_line = self.current_line;
        let ghost with_line_v = if current_line@.len() == 0 {
            secvs(orig.lines@)
        } else {
            secvs(orig.lines@).push(SecV::Plain(svs(orig.current_line@)))
        };
        if current_line.len() != 0 {
            proof {
                lemma_secvs_push(lines@, Section::Plain(current_line));
            }
            lines.push(Section::Plain(current_line));
        }
        proof {
            assert(secvs(lines@) == with_line_v);
            lemma_secvs_len(lines@);
        }
        if lines.len() > 0 {
            let last_is_empty = lines[lines.len() - 1].is_empty();
            proof {
                lemma_blank_matches(lines@.last());
                assert(secvs(lines@).last() == secv(lines@.last()));
            }
            if last_is_empty {
                let ghost before = lines@;
                lines.pop();
                proof {
                    lemma_secvs_len(before);
                    lemma_secvs_len(lines@);
                    assert forall|i: int| 0 <= i < lines@.len() implies secvs(lines@)[i]
                        == secvs(before).drop_last()[i] by {
                        assert(lines@[i] == before[i]);
                    }
                    assert(secvs(lines@) =~= secvs(before).drop_last());
                }
            }
        }
        lines
    }
}


/// The open line of a well-formed builder fits the active column.
proof fn lemma_open_line_fits(res: Resources, s: Sectioner)
    requires
        s.x as int == sat64(s.min_x + spans_width(res, s.current_line@)),
        s.x <= s.max_x,
        s.max_x < u64::MAX,
    ensures
        spans_width(res, s.current_line@) <= s.max_x - s.min_x,
{
    lemma_spans_width_bounds(res, s.current_line@);
}

/// Appending one fitting section keeps a fitting list fitting.
proof fn lemma_sections_fit_snoc(res: Resources, ss: Seq<Section>, sec: Section, col: int)
    requires
        sections_fit(res, ss, col),
        section_fits(res, sec, col),
    ensures
        sections_fit(res, ss.push(sec), col),
{
    lemma_sections_fit_index(res, ss, col);
    lemma_sections_fit_index(res, ss.push(sec), col);
    assert forall|i: int| 0 <= i < ss.push(sec).len() implies section_fits(
        res,
        #[trigger] ss.push(sec)[i],
        col,
    ) by {
        if i < ss.len() {
            assert(ss.push(sec)[i] == ss[i]);
        } else {
            assert(ss.push(sec)[i] == sec);
        }
    }
}

/// Pushing one span onto the open line keeps the cursor in agreement.
proof fn lemma_pushed_span_consistent(
    res: Resources,
    min_x: u64,
    x: u64,
    x2: u64,
    cur: Seq<Span>,
    cur2: Seq<Span>,
    sp: Span,
)
    requires
        x as int == sat64(min_x + spans_width(res, cur)),
        x2 as int == sat64(x + sp.spec_width(res)),
        cur2 == cur.push(sp),
    ensures
        x2 as int == sat64(min_x + spans_width(res, cur2)),
{
    lemma_spans_width_push(res, cur, sp);
    lemma_spans_width_bounds(res, cur);
    let w = sp.spec_width(res);
    assert(w >= 0);
    lemma_sat_chain(min_x + spans_width(res, cur), w);
    lemma_sat_chain(spans_width(res, cur) + w, min_x as int);
    assert(sat64(min_x + sat64(spans_width(res, cur) + w)) == sat64(
        min_x + spans_width(res, cur) + w,
    ));
}

/// Flushing the open line keeps every finished line within its column.
proof fn lemma_flushed_keeps_fit(res: Resources, o: Sectioner, m: Sectioner)
    requires
        flushed(o, m),
        builder_fits(res, o),
    ensures
        builder_fits(res, m),
{
    if o.current_line@.len() == 0 {
    } else {
        assert(spans_width(res, m.current_line@) == 0);
        if o.is_code {
        } else {
            lemma_open_line_fits(res, o);
            lemma_sections_fit_snoc(
                res,
                o.lines@,
                Section::Plain(o.current_line),
                o.max_x - o.min_x,
            );
        }
    }
}

/// The inputs under which one event keeps every finished line within its
/// column: a body-text atom's words fit the active column on their own; a
/// word break or an image leaves the cursor inside the column; a nested
/// scope opens only while its indent still fits; and end markers of
/// nested scopes do not arrive in code mode.
pub open spec fn event_keeps_fit(
    res: Resources,
    o: Sectioner,
    ev: SizedEvent,
    n: Sectioner,
) -> bool {
    match ev {
        SizedEvent::SizedAtom(sa) => match sa.atom {
            Atom::Text { text, style } => (!o.is_alt_text && !o.is_code) ==> (forall|i: int|
                0 <= i < words_of(text@).len() ==> spec_width_of_text(
                    res,
                    style,
                    #[trigger] words_of(text@)[i],
                ) <= o.max_x - o.min_x),
            Atom::Image { .. } => n.x <= n.max_x,
        },
        SizedEvent::Break(Break::Word) => n.x <= n.max_x,
        SizedEvent::StartBlock(BlockTag::ListItem) => sat64(o.min_x + o.cfg.list_indentation)
            <= o.max_x,
        SizedEvent::StartBlock(BlockTag::BlockQuote) => sat64(o.min_x + o.cfg.quote_indentation)
            <= o.max_x,
        SizedEvent::EndBlock(BlockTag::ListItem) => !o.is_code,
        SizedEvent::EndBlock(BlockTag::BlockQuote) => !o.is_code,
        _ => true,
    }
}

/// Opening a nested scope keeps every finished line within its column.
proof fn lemma_pushed_frame_keeps_fit(res: Resources, o: Sectioner, n: Sectioner, indent: u64)
    requires
        pushed_frame(o, n, indent),
        builder_fits(res, o),
        sat64(o.min_x + indent) <= o.max_x,
    ensures
        builder_fits(res, n),
{
    assert(spans_width(res, n.current_line@) == 0);
    assert(frame_fits(res, n.stack@.last(), n.max_x));
    assert forall|j: int| 0 <= j < n.stack@.len() implies frame_fits(
        res,
        #[trigger] n.stack@[j],
        n.max_x,
    ) by {
        if j < o.stack@.len() {
            assert(n.stack@[j] == o.stack@[j]);
        }
    }
    assert forall|j: int| 0 <= j < n.stack@.len() implies (#[trigger] n.stack@[j]).min_x <= (
    if j + 1 < n.stack@.len() {
        n.stack@[j + 1].min_x
    } else {
        n.min_x
    }) by {
        if j < o.stack@.len() {
            assert(n.stack@[j] == o.stack@[j]);
            if j + 1 < o.stack@.len() {
                assert(n.stack@[j + 1] == o.stack@[j + 1]);
            }
        }
    }
}

/// Closing a nested scope keeps every finished line within its column.
proof fn lemma_popped_frame_keeps_fit(res: Resources, o: Sectioner, n: Sectioner, is_list: bool)
    requires
        popped_frame(o, n, is_list),
        builder_fits(res, o),
        !o.is_code,
    ensures
        builder_fits(res, n),
{
    let fr = o.stack@.last();
    let child_col = o.max_x - o.min_x;
    let parent_col = o.max_x - fr.min_x;
    assert(frame_fits(res, fr, o.max_x));
    assert(fr.min_x <= o.min_x) by {
        assert(o.stack@[o.stack@.len() - 1] == fr);
    }
    // the child's finished list fits its own column
    let subs = finalized_lines(o);
    assert(sections_fit(res, subs, child_col)) by {
        let with_line = if o.current_line@.len() == 0 {
            o.lines@
        } else {
            o.lines@.push(Section::Plain(o.current_line))
        };
        if o.current_line@.len() > 0 {
            lemma_open_line_fits(res, o);
            lemma_sections_fit_snoc(res, o.lines@, Section::Plain(o.current_line), child_col);
        }
        assert(sections_fit(res, with_line, child_col));
        if with_line.len() > 0 && with_line.last().spec_is_empty() {
            lemma_sections_fit_index(res, with_line, child_col);
            lemma_sections_fit_index(res, with_line.drop_last(), child_col);
            assert forall|i: int| 0 <= i < with_line.drop_last().len() implies section_fits(
                res,
                #[trigger] with_line.drop_last()[i],
                child_col,
            ) by {
                assert(with_line.drop_last()[i] == with_line[i]);
            }
        }
    }
    lemma_sections_fit_mono(res, subs, child_col, parent_col);
    // the wrapped section joins the resumed scope's list
    let wrapped = n.lines@.last();
    assert(section_fits(res, wrapped, parent_col));
    assert(n.lines@.drop_last() =~= fr.lines@);
    lemma_sections_fit_snoc(res, fr.lines@, wrapped, parent_col);
    assert(n.lines@ =~= fr.lines@.push(wrapped));
    assert(spans_width(res, n.current_line@) == spans_width(res, fr.current_line@));
    assert forall|j: int| 0 <= j < n.stack@.len() implies frame_fits(
        res,
        #[trigger] n.stack@[j],
        n.max_x,
    ) by {
        assert(o.stack@.drop_last()[j] == o.stack@[j]);
        assert(n.stack@[j] == o.stack@[j]);
        assert(frame_fits(res, o.stack@[j], o.max_x));
    }
    assert forall|j: int| 0 <= j < n.stack@.len() implies (#[trigger] n.stack@[j]).min_x <= (
    if j + 1 < n.stack@.len() {
        n.stack@[j + 1].min_x
    } else {
        n.min_x
    }) by {
        assert(o.stack@.drop_last()[j] == o.stack@[j]);
        assert(n.stack@[j] == o.stack@[j]);
        assert(o.stack@[j].min_x <= (if j + 1 < o.stack@.len() {
            o.stack@[j + 1].min_x
        } else {
            o.min_x
        }));
        if j + 1 < n.stack@.len() {
            assert(o.stack@.drop_last()[j + 1] == o.stack@[j + 1]);
            assert(n.stack@[j + 1] == o.stack@[j + 1]);
        } else {
            assert(o.stack@[o.stack@.len() - 1] == fr);
        }
    }
}

/// The width-bound law over one event, builder-wide: any event of the
/// shape `event_keeps_fit` admits preserves `builder_fits`, so every
/// line ever finished, at any nesting depth, fits the column it was made
/// for.
pub proof fn lemma_parse_keeps_fit(
    res: Resources,
    o: Sectioner,
    n: Sectioner,
    ev: SizedEvent,
    ret: Option<SubsectionType>,
)
    requires
        parse_rel(o, n, res, ev, ret),
        builder_fits(res, o),
        event_keeps_fit(res, o, ev, n),
    ensures
        builder_fits(res, n),
{
    match ev {
        SizedEvent::Break(Break::HorizontalRule) => {
            lemma_sections_fit_snoc(res, o.lines@, Section::ThematicBreak, o.max_x - o.min_x);
        }
        SizedEvent::Break(Break::Page) => {
            lemma_sections_fit_snoc(res, o.lines@, Section::PageBreak, o.max_x - o.min_x);
        }
        SizedEvent::Break(Break::Line) => {
            lemma_flushed_keeps_fit(res, o, n);
        }
        SizedEvent::Break(Break::Paragraph) => {
            let mid = choose|mid: Sectioner|
                #![auto]
                flushed(o, mid) && same_but_lines(mid, n) && n.lines@ == mid.lines@.push(
                    Section::VerticalSpace(o.cfg.section_spacing),
                );
            lemma_flushed_keeps_fit(res, o, mid);
            lemma_sections_fit_snoc(
                res,
                mid.lines@,
                Section::VerticalSpace(o.cfg.section_spacing),
                mid.max_x - mid.min_x,
            );
        }
        SizedEvent::Break(Break::Word) => {
            if o.x > o.min_x {
                assert(n.current_line@ =~= o.current_line@.push(n.current_line@.last()));
                lemma_pushed_span_consistent(
                    res,
                    n.min_x,
                    o.x,
                    n.x,
                    o.current_line@,
                    n.current_line@,
                    n.current_line@.last(),
                );
            }
        }
        SizedEvent::StartBlock(BlockTag::List) => {
            lemma_flushed_keeps_fit(res, o, n);
        }
        SizedEvent::EndBlock(BlockTag::List) => {
            lemma_sections_fit_snoc(
                res,
                o.lines@,
                Section::VerticalSpace(o.cfg.section_spacing),
                o.max_x - o.min_x,
            );
        }
        SizedEvent::StartBlock(BlockTag::ListItem) => {
            lemma_pushed_frame_keeps_fit(res, o, n, o.cfg.list_indentation);
        }
        SizedEvent::EndBlock(BlockTag::ListItem) => {
            if o.stack@.len() == 0 {
            } else {
                lemma_popped_frame_keeps_fit(res, o, n, true);
            }
        }
        SizedEvent::StartBlock(BlockTag::BlockQuote) => {
            let mid = choose|mid: Sectioner|
                #![auto]
                flushed(o, mid) && pushed_frame(mid, n, o.cfg.quote_indentation);
            lemma_flushed_keeps_fit(res, o, mid);
            lemma_pushed_frame_keeps_fit(res, mid, n, o.cfg.quote_indentation);
        }
        SizedEvent::EndBlock(BlockTag::BlockQuote) => {
            if o.stack@.len() == 0 {
            } else {
                lemma_popped_frame_keeps_fit(res, o, n, false);
            }
        }
        SizedEvent::StartBlock(BlockTag::CodeBlock) => {
        }
        SizedEvent::EndBlock(BlockTag::CodeBlock) => {
            let mid = choose|mid: Sectioner|
                #![auto]
                flushed(o, mid) && wrapped_code(mid, n, o.cfg.section_spacing);
            lemma_flushed_keeps_fit(res, o, mid);
            assert(n.lines@.drop_last() =~= mid.lines@.push(
                n.lines@[mid.lines@.len() as int],
            ));
            lemma_sections_fit_snoc(
                res,
                mid.lines@,
                n.lines@[mid.lines@.len() as int],
                mid.max_x - mid.min_x,
            );
            lemma_sections_fit_snoc(
                res,
                n.lines@.drop_last(),
                n.lines@.last(),
                mid.max_x - mid.min_x,
            );
            assert(n.lines@ =~= n.lines@.drop_last().push(n.lines@.last()));
            assert(spans_width(res, n.current_line@) == spans_width(res, mid.current_line@));
        }
        SizedEvent::SizedAtom(sa) => {
            match sa.atom {
                Atom::Text { text, style } => {
                    if o.is_alt_text {
                    } else if o.is_code {
                    } else {
                        assert(wla_good(o, res, text@, style));
                        lemma_sections_fit_index(res, o.lines@, o.max_x - o.min_x);
                        lemma_sections_fit_index(res, n.lines@, n.max_x - n.min_x);
                        assert forall|i: int| 0 <= i < n.lines@.len() implies section_fits(
                            res,
                            #[trigger] n.lines@[i],
                            n.max_x - n.min_x,
                        ) by {
                            if i < o.lines@.len() {
                                assert(n.lines@.subrange(0, o.lines@.len() as int)[i]
                                    == n.lines@[i]);
                                assert(n.lines@[i] == o.lines@[i]);
                            }
                        }
                    }
                }
                Atom::Image { .. } => {
                    assert(n.current_line@ =~= o.current_line@.push(n.current_line@.last()));
                    lemma_pushed_span_consistent(
                        res,
                        n.min_x,
                        o.x,
                        n.x,
                        o.current_line@,
                        n.current_line@,
                        n.current_line@.last(),
                    );
                }
            }
        }
    }
}


/// P1 for a finished scope: a well-formed builder, outside code mode,
/// finishes into a section list in which every `Plain` line — at any
/// nesting depth — fits the column it was made for; nested columns are
/// narrower, so everything fits the scope's own column stated here.
pub proof fn lemma_finalized_fits(res: Resources, s: Sectioner)
    requires
        builder_fits(res, s),
        !s.is_code,
    ensures
        sections_fit(res, finalized_lines(s), s.max_x - s.min_x),
{
    let col = s.max_x - s.min_x;
    let with_line = if s.current_line@.len() == 0 {
        s.lines@
    } else {
        s.lines@.push(Section::Plain(s.current_line))
    };
    if s.current_line@.len() > 0 {
        lemma_open_line_fits(res, s);
        lemma_sections_fit_snoc(res, s.lines@, Section::Plain(s.current_line), col);
    }
    assert(sections_fit(res, with_line, col));
    if with_line.len() > 0 && with_line.last().spec_is_empty() {
        lemma_sections_fit_index(res, with_line, col);
        lemma_sections_fit_index(res, with_line.drop_last(), col);
        assert forall|i: int| 0 <= i < with_line.drop_last().len() implies section_fits(
            res,
            #[trigger] with_line.drop_last()[i],
            col,
        ) by {
            assert(with_line.drop_last()[i] == with_line[i]);
        }
    }
}

} // verus!
