//! The paginator: it walks the section list, accumulates vertical offset
//! downwards from the top margin, starts a new page whenever a section's
//! first line would cross the bottom margin, and places every drawable
//! span at an absolute position.
//!
//! Its central theorem is exhaustiveness: the pages, flattened in order,
//! hold exactly the drawable contents of the input sections — nothing is
//! dropped and nothing is placed twice.

use vstd::prelude::*;
use crate::page::{Page, page_svs, placed};
use crate::resources::Resources;
use crate::section::{Section, line_height, spec_line_height};
use crate::span::{PositionedSpan, Span, SpanV, sv, svs};
use crate::style::{Class, Style};
use crate::util::{mul_div, muldiv, sat64, sat_add, sat_sub, sub0};
use crate::Config;

verus! {

/// The contents a run of code-block lines paints, in order.
pub open spec fn code_spans(lines: Seq<Vec<Span>>) -> Seq<SpanV>
    decreases lines.len(),
{
    if lines.len() == 0 {
        Seq::empty()
    } else {
        svs(lines[0]@) + code_spans(lines.skip(1))
    }
}

/// The drawable contents one section paints when laid out with its left
/// edge at `start_x`: its own spans, plus the marker glyph of a list item
/// or block quote, plus the rule rectangle of a thematic break.
pub open spec fn rendered_one(res: Resources, cfg: Config, s: Section, start_x: u64) -> Seq<SpanV>
    decreases s,
{
    match s {
        Section::Plain(spans) => svs(spans@),
        Section::VerticalSpace(_) => Seq::empty(),
        Section::ThematicBreak => seq![
            SpanV::Rect {
                width: sub0(sub0(cfg.page_size.0 - cfg.margin.0) - start_x) as u64,
                height: 1u64,
            },
        ],
        Section::PageBreak => Seq::empty(),
        Section::ListItem(subs) => seq![
            SpanV::Text { text: "o"@, style: Set::<Class>::empty().insert(Class::Code) },
        ] + rendered_spans(
            res,
            cfg,
            subs@,
            sat64(start_x + cfg.list_indentation) as u64,
        ),
        Section::BlockQuote(subs) => seq![
            SpanV::Text { text: "|"@, style: Set::<Class>::empty().insert(Class::Code) },
        ] + rendered_spans(
            res,
            cfg,
            subs@,
            sat64(start_x + cfg.quote_indentation) as u64,
        ),
        Section::CodeBlock(lines) => code_spans(lines@),
    }
}

/// The drawable contents a run of sections paints, in order.
pub open spec fn rendered_spans(
    res: Resources,
    cfg: Config,
    sections: Seq<Section>,
    start_x: u64,
) -> Seq<SpanV>
    decreases sections,
{
    if sections.len() == 0 {
        Seq::empty()
    } else {
        rendered_one(res, cfg, sections[0], start_x) + rendered_spans(
            res,
            cfg,
            sections.skip(1),
            start_x,
        )
    }
}

pub proof fn lemma_rendered_append(
    res: Resources,
    cfg: Config,
    a: Seq<Section>,
    b: Seq<Section>,
    start_x: u64,
)
    ensures
        rendered_spans(res, cfg, a + b, start_x) == rendered_spans(res, cfg, a, start_x)
            + rendered_spans(res, cfg, b, start_x),
    decreases a.len(),
{
    if a.len() == 0 {
        assert(a + b =~= b);
        assert(rendered_spans(res, cfg, a, start_x) + rendered_spans(res, cfg, b, start_x)
            =~= rendered_spans(res, cfg, b, start_x));
    } else {
        assert((a + b)[0] == a[0]);
        assert((a + b).skip(1) =~= a.skip(1) + b);
        lemma_rendered_append(res, cfg, a.skip(1), b, start_x);
        assert(rendered_spans(res, cfg, a + b, start_x) =~= rendered_spans(res, cfg, a, start_x)
            + rendered_spans(res, cfg, b, start_x));
    }
}

/// The numeric geometry two configurations share; the drawable contents
/// read nothing else of a configuration.
pub open spec fn same_geometry(a: Config, b: Config) -> bool {
    &&& a.page_size == b.page_size
    &&& a.margin == b.margin
    &&& a.list_indentation == b.list_indentation
    &&& a.list_point_offset == b.list_point_offset
    &&& a.quote_indentation == b.quote_indentation
    &&& a.code_indentation == b.code_indentation
    &&& a.line_spacing == b.line_spacing
}

/// The drawable contents depend only on the configuration's geometry,
/// not on its names or titles.
pub proof fn lemma_rendered_one_geometry(
    res: Resources,
    a: Config,
    b: Config,
    s: Section,
    start_x: u64,
)
    requires
        same_geometry(a, b),
    ensures
        rendered_one(res, a, s, start_x) == rendered_one(res, b, s, start_x),
    decreases s, 0int,
{
    match s {
        Section::ListItem(subs) => {
            lemma_rendered_spans_geometry(
                res,
                a,
                b,
                subs@,
                sat64(start_x + a.list_indentation) as u64,
            );
            assert(rendered_one(res, a, s, start_x) =~= rendered_one(res, b, s, start_x));
        }
        Section::BlockQuote(subs) => {
            lemma_rendered_spans_geometry(
                res,
                a,
                b,
                subs@,
                sat64(start_x + a.quote_indentation) as u64,
            );
            assert(rendered_one(res, a, s, start_x) =~= rendered_one(res, b, s, start_x));
        }
        _ => {}
    }
}

pub proof fn lemma_rendered_spans_geometry(
    res: Resources,
    a: Config,
    b: Config,
    sections: Seq<Section>,
    start_x: u64,
)
    requires
        same_geometry(a, b),
    ensures
        rendered_spans(res, a, sections, start_x) == rendered_spans(res, b, sections, start_x),
    decreases sections, 1int,
{
    if sections.len() > 0 {
        lemma_rendered_one_geometry(res, a, b, sections[0], start_x);
        lemma_rendered_spans_geometry(res, a, b, sections.skip(1), start_x);
        assert(rendered_spans(res, a, sections, start_x) =~= rendered_spans(
            res,
            b,
            sections,
            start_x,
        ));
    }
}

/// The contents of a run of pages, flattened in order.
pub open spec fn flat_pages(pages: Seq<Page>) -> Seq<SpanV>
    decreases pages.len(),
{
    if pages.len() == 0 {
        Seq::empty()
    } else {
        flat_pages(pages.drop_last()) + page_svs(pages.last())
    }
}

pub proof fn lemma_flat_pages_push(pages: Seq<Page>, p: Page)
    ensures
        flat_pages(pages.push(p)) == flat_pages(pages) + page_svs(p),
{
    assert(pages.push(p).drop_last() =~= pages);
    assert(pages.push(p).last() == p);
}

/// Everything the paginator has placed so far: the finished pages, then
/// the page in progress.
pub open spec fn flat(p: Pages) -> Seq<SpanV> {
    flat_pages(p.pages@) + page_svs(p.current_page)
}

/// The top of the printable column: the page height minus the vertical
/// margin.
pub open spec fn top_y(cfg: Config) -> int {
    sub0(cfg.page_size.1 - cfg.margin.1)
}

/// The vertical room a section reserves before it is placed: its minimum
/// step scaled by the line-spacing factor (hundredths).
pub open spec fn step_of(res: Resources, cfg: Config, s: Section) -> int {
    muldiv(s.spec_min_step(res), cfg.line_spacing as int, 100)
}

/// Whether a section must begin a new page first: stepping down by
/// `delta` from the cursor would cross the bottom margin.
pub open spec fn breaks_before(o: Pages, delta: int) -> bool {
    (o.current_y as int) < sat64(o.cfg.margin.1 + delta)
}

/// The spans already on the page a section is placed onto: the open page,
/// or nothing if a page break comes first.
pub open spec fn base_after_break(o: Pages, delta: int) -> Seq<PositionedSpan> {
    if breaks_before(o, delta) {
        Seq::empty()
    } else {
        o.current_page.positioned_spans@
    }
}

/// The finished pages after the optional break.
pub open spec fn pages_after_break(o: Pages, n: Pages, delta: int) -> bool {
    if breaks_before(o, delta) {
        n.pages@ == o.pages@.push(o.current_page)
    } else {
        n.pages == o.pages
    }
}

/// The baseline a section is placed at: the cursor — reset to the top of
/// the column if a break came first — lowered by the step.
pub open spec fn y_after(o: Pages, delta: int) -> int {
    sub0(
        (if breaks_before(o, delta) {
            top_y(o.cfg)
        } else {
            o.current_y as int
        }) - delta,
    )
}

/// One line of spans rendered as a section: the optional page break, the
/// vertical step down, then the spans left to right at the new baseline,
/// where the cursor stays.
pub open spec fn plain_step(
    res: Resources,
    spans: Seq<Span>,
    sx: u64,
    delta: int,
    o: Pages,
    n: Pages,
) -> bool {
    &&& n.cfg == o.cfg
    &&& pages_after_break(o, n, delta)
    &&& placed(
        res,
        base_after_break(o, delta),
        n.current_page.positioned_spans@,
        spans,
        sx,
        y_after(o, delta),
    )
    &&& n.current_y as int == y_after(o, delta)
}

/// The state after the marker glyph of a nested block was placed: one
/// monospace glyph at the marker position on the first-line baseline,
/// with the vertical step undone so that the nested contents apply their
/// own per-line steps.
pub open spec fn marker_mid(o: Pages, mid: Pages, delta: int, glyph: Seq<char>, mx: int) -> bool {
    &&& mid.cfg == o.cfg
    &&& pages_after_break(o, mid, delta)
    &&& mid.current_page.positioned_spans@.len() == base_after_break(o, delta).len() + 1
    &&& mid.current_page.positioned_spans@.subrange(0, base_after_break(o, delta).len() as int)
        == base_after_break(o, delta)
    &&& sv(mid.current_page.positioned_spans@.last().span) == (SpanV::Text {
        text: glyph,
        style: Set::<Class>::empty().insert(Class::Code),
    })
    &&& mid.current_page.positioned_spans@.last().pos.0 as int == mx
    &&& mid.current_page.positioned_spans@.last().pos.1 as int == y_after(o, delta)
    &&& mid.current_y as int == sat64(y_after(o, delta) + delta)
}

/// The state after a code block's shared step was undone: nothing placed
/// yet, the cursor back where the per-line steps start.
pub open spec fn code_mid(o: Pages, mid: Pages, delta: int) -> bool {
    &&& mid.cfg == o.cfg
    &&& pages_after_break(o, mid, delta)
    &&& mid.current_page.positioned_spans@ == base_after_break(o, delta)
    &&& mid.current_y as int == sat64(y_after(o, delta) + delta)
}

/// What the paginator does with one section: the page-break test against
/// the section's minimum step, the vertical step, and the placement the
/// section kind asks for — spans on the baseline, a rule rectangle, a
/// forced break, or a marker glyph followed by the nested contents at the
/// deeper indent.
pub open spec fn render_one_rel(
    res: Resources,
    s: Section,
    start_x: u64,
    o: Pages,
    n: Pages,
) -> bool
    decreases s, 0int,
{
    let delta = step_of(res, o.cfg, s);
    let base = base_after_break(o, delta);
    let y1 = y_after(o, delta);
    match s {
        Section::Plain(spans) => plain_step(res, spans@, start_x, delta, o, n),
        Section::VerticalSpace(_) => {
            &&& n.cfg == o.cfg
            &&& pages_after_break(o, n, delta)
            &&& n.current_page.positioned_spans@ == base
            &&& n.current_y as int == y1
        },
        Section::ThematicBreak => {
            &&& n.cfg == o.cfg
            &&& pages_after_break(o, n, delta)
            &&& n.current_page.positioned_spans@.len() == base.len() + 1
            &&& n.current_page.positioned_spans@.subrange(0, base.len() as int) == base
            &&& sv(n.current_page.positioned_spans@.last().span) == (SpanV::Rect {
                width: sub0(sub0(o.cfg.page_size.0 - o.cfg.margin.0) - start_x) as u64,
                height: 1u64,
            })
            &&& n.current_page.positioned_spans@.last().pos.0 == start_x
            &&& n.current_page.positioned_spans@.last().pos.1 as int == y1
            &&& n.current_y as int == y1
        },
        Section::PageBreak => {
            &&& n.cfg == o.cfg
            &&& (if breaks_before(o, delta) {
                &&& n.pages@.len() == o.pages@.len() + 2
                &&& n.pages@.subrange(0, o.pages@.len() as int) == o.pages@
                &&& n.pages@[o.pages@.len() as int] == o.current_page
                &&& n.pages@.last().positioned_spans@.len() == 0
            } else {
                n.pages@ == o.pages@.push(o.current_page)
            })
            &&& n.current_page.positioned_spans@.len() == 0
            &&& n.current_y as int == top_y(o.cfg)
        },
        Section::ListItem(subs) => exists|mid: Pages, states: Seq<Pages>|
            #![trigger marker_mid(o, mid, delta, "o"@, sub0(sat64(start_x + o.cfg.list_indentation) - o.cfg.list_point_offset)), states.len()]
            marker_mid(
                o,
                mid,
                delta,
                "o"@,
                sub0(sat64(start_x + o.cfg.list_indentation) - o.cfg.list_point_offset),
            ) && render_chain(
                res,
                subs@,
                sat64(start_x + o.cfg.list_indentation) as u64,
                states,
                mid,
                n,
            ),
        Section::BlockQuote(subs) => exists|mid: Pages, states: Seq<Pages>|
            #![trigger marker_mid(o, mid, delta, "|"@, start_x as int), states.len()]
            marker_mid(o, mid, delta, "|"@, start_x as int) && render_chain(
                res,
                subs@,
                sat64(start_x + o.cfg.quote_indentation) as u64,
                states,
                mid,
                n,
            ),
        Section::CodeBlock(lines) => exists|mid: Pages, states: Seq<Pages>|
            #![trigger code_mid(o, mid, delta), states.len()]
            code_mid(o, mid, delta) && code_chain_states(
                res,
                lines@,
                sat64(start_x + o.cfg.code_indentation) as u64,
                states,
                mid,
                n,
            ),
    }
}

/// Sections rendered one after another, with the state after each one
/// given explicitly: `states[i]` is the paginator after the i-th section.
pub open spec fn render_chain(
    res: Resources,
    sections: Seq<Section>,
    start_x: u64,
    states: Seq<Pages>,
    o: Pages,
    n: Pages,
) -> bool
    decreases sections, 0int,
{
    if sections.len() == 0 {
        n == o && states.len() == 0
    } else {
        &&& states.len() == sections.len()
        &&& render_one_rel(res, sections[0], start_x, o, states[0])
        &&& render_chain(res, sections.skip(1), start_x, states.skip(1), states[0], n)
    }
}

/// Sections rendered one after another.
pub open spec fn render_rel(
    res: Resources,
    sections: Seq<Section>,
    start_x: u64,
    o: Pages,
    n: Pages,
) -> bool
    decreases sections, 1int,
{
    exists|states: Seq<Pages>|
        #![trigger render_chain(res, sections, start_x, states, o, n)]
        render_chain(res, sections, start_x, states, o, n)
}

/// Code-block lines rendered one after another, each as one line of spans
/// with its own height-based step; `states[i]` is the paginator after the
/// i-th line.
pub open spec fn code_chain_states(
    res: Resources,
    lines: Seq<Vec<Span>>,
    cx: u64,
    states: Seq<Pages>,
    o: Pages,
    n: Pages,
) -> bool
    decreases lines, 0int,
{
    if lines.len() == 0 {
        n == o && states.len() == 0
    } else {
        &&& states.len() == lines.len()
        &&& plain_step(
            res,
            lines[0]@,
            cx,
            muldiv(spec_line_height(res, lines[0]@), o.cfg.line_spacing as int, 100),
            o,
            states[0],
        )
        &&& code_chain_states(res, lines.skip(1), cx, states.skip(1), states[0], n)
    }
}

/// Code-block lines rendered one after another.
pub open spec fn code_chain(
    res: Resources,
    lines: Seq<Vec<Span>>,
    cx: u64,
    o: Pages,
    n: Pages,
) -> bool
    decreases lines, 1int,
{
    exists|states: Seq<Pages>|
        #![trigger code_chain_states(res, lines, cx, states, o, n)]
        code_chain_states(res, lines, cx, states, o, n)
}

/// A chain may be extended by one more rendered section at its end.
proof fn lemma_render_chain_snoc(
    res: Resources,
    sections: Seq<Section>,
    s: Section,
    start_x: u64,
    states: Seq<Pages>,
    o: Pages,
    m: Pages,
    n: Pages,
)
    requires
        render_chain(res, sections, start_x, states, o, m),
        render_one_rel(res, s, start_x, m, n),
    ensures
        render_chain(res, sections.push(s), start_x, states.push(n), o, n),
    decreases sections.len(),
{
    if sections.len() == 0 {
        assert(m == o);
        assert(sections.push(s)[0] == s);
        assert(states.push(n)[0] == n);
        assert(sections.push(s).skip(1) =~= Seq::<Section>::empty());
        assert(states.push(n).skip(1) =~= Seq::<Pages>::empty());
        assert(render_chain(
            res,
            sections.push(s).skip(1),
            start_x,
            states.push(n).skip(1),
            states.push(n)[0],
            n,
        ));
    } else {
        lemma_render_chain_snoc(res, sections.skip(1), s, start_x, states.skip(1), states[0], m, n);
        assert(sections.push(s)[0] == sections[0]);
        assert(states.push(n)[0] == states[0]);
        assert(sections.push(s).skip(1) =~= sections.skip(1).push(s));
        assert(states.push(n).skip(1) =~= states.skip(1).push(n));
        assert(render_chain(
            res,
            sections.push(s).skip(1),
            start_x,
            states.push(n).skip(1),
            states.push(n)[0],
            n,
        ));
    }
}

/// A line chain may be extended by one more rendered line at its end.
proof fn lemma_code_chain_snoc(
    res: Resources,
    lines: Seq<Vec<Span>>,
    line: Vec<Span>,
    cx: u64,
    states: Seq<Pages>,
    o: Pages,
    m: Pages,
    n: Pages,
)
    requires
        code_chain_states(res, lines, cx, states, o, m),
        plain_step(
            res,
            line@,
            cx,
            muldiv(spec_line_height(res, line@), m.cfg.line_spacing as int, 100),
            m,
            n,
        ),
    ensures
        code_chain_states(res, lines.push(line), cx, states.push(n), o, n),
    decreases lines.len(),
{
    if lines.len() == 0 {
        assert(m == o);
        assert(lines.push(line)[0] == line);
        assert(states.push(n)[0] == n);
        assert(lines.push(line).skip(1) =~= Seq::<Vec<Span>>::empty());
        assert(states.push(n).skip(1) =~= Seq::<Pages>::empty());
        assert(code_chain_states(
            res,
            lines.push(line).skip(1),
            cx,
            states.push(n).skip(1),
            states.push(n)[0],
            n,
        ));
    } else {
        lemma_code_chain_snoc(res, lines.skip(1), line, cx, states.skip(1), states[0], m, n);
        assert(lines.push(line)[0] == lines[0]);
        assert(states.push(n)[0] == states[0]);
        assert(lines.push(line).skip(1) =~= lines.skip(1).push(line));
        assert(states.push(n).skip(1) =~= states.skip(1).push(n));
        assert(code_chain_states(
            res,
            lines.push(line).skip(1),
            cx,
            states.push(n).skip(1),
            states.push(n)[0],
            n,
        ));
    }
}

/// The paginator. `current_y` is the vertical cursor on the page in
/// progress; it starts at the page height minus the top margin and
/// decreases as content is placed, the origin being the bottom of the
/// page.
#[derive(Debug)]
pub struct Pages {
    pub pages: Vec<Page>,
    pub current_page: Page,
    pub current_y: u64,
    pub cfg: Config,
}

impl Pages {
    pub fn new(cfg: Config) -> (r: Pages)
        ensures
            r.pages@.len() == 0,
            r.current_page.positioned_spans@.len() == 0,
            r.current_y as int == sub0(cfg.page_size.1 - cfg.margin.1),
            r.cfg == cfg,
    {
        let current_y = sat_sub(cfg.page_size.1, cfg.margin.1);
        Pages { pages: Vec::new(), current_page: Page::new(), current_y, cfg }
    }

    /// Finish the page in progress and start an empty one at the top of
    /// the column.
    fn new_page(&mut self)
        ensures
            final(self).pages@ == old(self).pages@.push(old(self).current_page),
            final(self).current_page.positioned_spans@.len() == 0,
            final(self).current_y as int == sub0(
                old(self).cfg.page_size.1 - old(self).cfg.margin.1,
            ),
            final(self).cfg == old(self).cfg,
            flat(*final(self)) == flat(*old(self)),
    {
        let mut page = Page::new();
        core::mem::swap(&mut page, &mut self.current_page);
        self.pages.push(page);
        self.current_y = sat_sub(self.cfg.page_size.1, self.cfg.margin.1);
        proof {
            lemma_flat_pages_push(old(self).pages@, old(self).current_page);
            assert(page_svs(self.current_page) =~= Seq::<SpanV>::empty());
            assert(flat(*self) =~= flat(*old(self)));
        }
    }

    /// Lay out the lines of a code block at the code indent: each line is
    /// one span run with its own height-based step and page-break test.
    #[verifier::rlimit(100)]
    fn render_code_lines(&mut self, resources: &Resources, lines: &Vec<Vec<Span>>, code_x: u64)
        requires
            resources.fonts_ready(),
        ensures
            code_chain(*resources, lines@, code_x, *old(self), *final(self)),
            flat(*final(self)) == flat(*old(self)) + code_spans(lines@),
            final(self).cfg == old(self).cfg,
            final(self).pages@.len() >= old(self).pages@.len(),
    {
        let ghost mid0 = *old(self);
        let min_y = self.cfg.margin.1;
        let mut j: usize = 0;
        let ghost mut states: Seq<Pages> = Seq::empty();
        proof {
            assert(lines@.take(0) =~= Seq::<Vec<Span>>::empty());
            assert(flat(mid0) + code_spans(lines@.take(0)) =~= flat(mid0));
        }
        while j < lines.len()
            invariant
                j <= lines.len(),
                resources.fonts_ready(),
                self.cfg == mid0.cfg,
                min_y == mid0.cfg.margin.1,
                self.pages@.len() >= mid0.pages@.len(),
                flat(*self) == flat(mid0) + code_spans(lines@.take(j as int)),
                code_chain_states(*resources, lines@.take(j as int), code_x, states, mid0, *self),
            decreases lines.len() - j,
        {
            let ghost pre_line = *self;
            let line = &lines[j];
            let lh = line_height(resources, line);
            let ld = mul_div(lh, self.cfg.line_spacing, 100);
            proof {
                assert(ld as int == muldiv(
                    spec_line_height(*resources, lines@[j as int]@),
                    pre_line.cfg.line_spacing as int,
                    100,
                ));
            }
            if self.current_y < sat_add(min_y, ld) {
                self.new_page();
            }
            proof {
                assert(self.current_page.positioned_spans@ =~= base_after_break(
                    pre_line,
                    ld as int,
                ));
            }
            self.current_y = sat_sub(self.current_y, ld);
            let ghost pre = *self;
            let y = self.current_y;
            self.current_page.render_spans(resources, line, code_x, y);
            proof {
                assert(plain_step(
                    *resources,
                    lines@[j as int]@,
                    code_x,
                    ld as int,
                    pre_line,
                    *self,
                ));
                assert(page_svs(self.current_page) =~= page_svs(pre.current_page) + svs(line@));
                assert(flat(*self) =~= flat(pre_line) + svs(line@));
                assert(lines@.take(j + 1) =~= lines@.take(j as int).push(lines@[j as int]));
                lemma_code_spans_snoc(lines@.take(j as int), lines@[j as int]);
                lemma_code_chain_snoc(
                    *resources,
                    lines@.take(j as int),
                    lines@[j as int],
                    code_x,
                    states,
                    mid0,
                    pre_line,
                    *self,
                );
                states = states.push(*self);
            }
            j += 1;
        }
        proof {
            assert(lines@.take(lines@.len() as int) =~= lines@);
            assert(code_chain_states(*resources, lines@, code_x, states, mid0, *self));
            assert(code_chain(*resources, lines@, code_x, mid0, *self));
        }
    }

    /// Lay out one section: test whether its minimum step still fits above
    /// the bottom margin (breaking the page if not), step the cursor down,
    /// and place what the section kind asks for. `render_one_rel` states
    /// the whole step, positions included; the flattened contents grow by
    /// exactly the section's drawable contents.
    #[verifier::rlimit(100)]
    fn render_one(&mut self, resources: &Resources, section: &Section, start_x: u64)
        requires
            resources.fonts_ready(),
        ensures
            render_one_rel(*resources, *section, start_x, *old(self), *final(self)),
            flat(*final(self)) == flat(*old(self)) + rendered_one(
                *resources,
                old(self).cfg,
                *section,
                start_x,
            ),
            final(self).cfg == old(self).cfg,
            final(self).pages@.len() >= old(self).pages@.len(),
            (section matches Section::Plain(v) && v@.len() > 0) ==> page_svs(
                final(self).current_page,
            ).len() > 0,
            *section is ThematicBreak ==> page_svs(final(self).current_page).len() > 0,
        decreases *section,
    {
        let ghost o = *old(self);
        let min_y = self.cfg.margin.1;
        let height = section.min_step(resources);
        let delta = mul_div(height, self.cfg.line_spacing, 100);
        proof {
            assert(delta as int == step_of(*resources, o.cfg, *section));
        }
        if self.current_y < sat_add(min_y, delta) {
            self.new_page();
        }
        proof {
            assert(self.current_page.positioned_spans@ =~= base_after_break(o, delta as int));
        }
        self.current_y = sat_sub(self.current_y, delta);
        proof {
            assert(self.current_y as int == y_after(o, delta as int));
        }
        match section {
            Section::Plain(spans) => {
                let ghost pre = *self;
                let y = self.current_y;
                self.current_page.render_spans(resources, spans, start_x, y);
                proof {
                    assert(plain_step(
                        *resources,
                        spans@,
                        start_x,
                        delta as int,
                        o,
                        *self,
                    ));
                    assert(page_svs(self.current_page) =~= page_svs(pre.current_page) + svs(
                        spans@,
                    ));
                    assert(flat(*self) =~= flat(o) + svs(spans@));
                }
            }
            Section::VerticalSpace(_) => {}
            Section::ThematicBreak => {
                let w = sat_sub(sat_sub(self.cfg.page_size.0, self.cfg.margin.0), start_x);
                let r = Span::rect(w, 1);
                let mut one: Vec<Span> = Vec::new();
                one.push(r);
                let ghost pre = *self;
                let y = self.current_y;
                self.current_page.render_spans(resources, &one, start_x, y);
                proof {
                    assert(one@.take(0) =~= Seq::<Span>::empty());
                    assert(self.current_page.positioned_spans@.last()
                        == self.current_page.positioned_spans@[pre.current_page.positioned_spans@.len() as int]);
                    assert(page_svs(self.current_page) =~= page_svs(pre.current_page).push(
                        sv(one@[0]),
                    ));
                    assert(flat(*self) =~= flat(o).push(sv(one@[0])));
                }
            }
            Section::PageBreak => {
                let ghost pre = *self;
                self.new_page();
                proof {
                    if breaks_before(o, delta as int) {
                        assert(self.pages@.subrange(0, o.pages@.len() as int) =~= o.pages@);
                        assert(self.pages@[o.pages@.len() as int] == o.current_page);
                    }
                    assert(flat(*self) =~= flat(o));
                }
            }
            Section::ListItem(subs) => {
                let list_x = sat_add(start_x, self.cfg.list_indentation);
                let list_point_x = sat_sub(list_x, self.cfg.list_point_offset);
                let mut marker_style = Style::new();
                marker_style.insert(Class::Code);
                let marker = Span::text("o".to_owned(), marker_style);
                let mut one: Vec<Span> = Vec::new();
                one.push(marker);
                let ghost pre = *self;
                let y = self.current_y;
                self.current_page.render_spans(resources, &one, list_point_x, y);
                self.current_y = sat_add(self.current_y, delta);
                let ghost mid = *self;
                proof {
                    assert(one@.take(0) =~= Seq::<Span>::empty());
                    assert(mid.current_page.positioned_spans@.last()
                        == mid.current_page.positioned_spans@[pre.current_page.positioned_spans@.len() as int]);
                    assert(marker_mid(
                        o,
                        mid,
                        delta as int,
                        "o"@,
                        sub0(sat64(start_x + o.cfg.list_indentation) - o.cfg.list_point_offset),
                    ));
                    assert(page_svs(mid.current_page) =~= page_svs(pre.current_page).push(
                        sv(one@[0]),
                    ));
                    assert(flat(mid) =~= flat(o).push(sv(one@[0])));
                }
                self.render_sections(resources, subs, list_x);
                proof {
                    let cstates = choose|states: Seq<Pages>|
                        #![trigger render_chain(*resources, subs@, sat64(start_x + o.cfg.list_indentation) as u64, states, mid, *self)]
                        render_chain(
                            *resources,
                            subs@,
                            sat64(start_x + o.cfg.list_indentation) as u64,
                            states,
                            mid,
                            *self,
                        );
                    assert(cstates.len() >= 0);
                    assert(marker_mid(
                        o,
                        mid,
                        delta as int,
                        "o"@,
                        sub0(sat64(start_x + o.cfg.list_indentation) - o.cfg.list_point_offset),
                    ) && render_chain(
                        *resources,
                        subs@,
                        sat64(start_x + o.cfg.list_indentation) as u64,
                        cstates,
                        mid,
                        *self,
                    ));
                }
            }
            Section::BlockQuote(subs) => {
                let quote_x = sat_add(start_x, self.cfg.quote_indentation);
                let mut marker_style = Style::new();
                marker_style.insert(Class::Code);
                let marker = Span::text("|".to_owned(), marker_style);
                let mut one: Vec<Span> = Vec::new();
                one.push(marker);
                let ghost pre = *self;
                let y = self.current_y;
                self.current_page.render_spans(resources, &one, start_x, y);
                self.current_y = sat_add(self.current_y, delta);
                let ghost mid = *self;
                proof {
                    assert(one@.take(0) =~= Seq::<Span>::empty());
                    assert(mid.current_page.positioned_spans@.last()
                        == mid.current_page.positioned_spans@[pre.current_page.positioned_spans@.len() as int]);
                    assert(marker_mid(o, mid, delta as int, "|"@, start_x as int));
                    assert(page_svs(mid.current_page) =~= page_svs(pre.current_page).push(
                        sv(one@[0]),
                    ));
                    assert(flat(mid) =~= flat(o).push(sv(one@[0])));
                }
                self.render_sections(resources, subs, quote_x);
                proof {
                    let cstates = choose|states: Seq<Pages>|
                        #![trigger render_chain(*resources, subs@, sat64(start_x + o.cfg.quote_indentation) as u64, states, mid, *self)]
                        render_chain(
                            *resources,
                            subs@,
                            sat64(start_x + o.cfg.quote_indentation) as u64,
                            states,
                            mid,
                            *self,
                        );
                    assert(cstates.len() >= 0);
                    assert(marker_mid(o, mid, delta as int, "|"@, start_x as int) && render_chain(
                        *resources,
                        subs@,
                        sat64(start_x + o.cfg.quote_indentation) as u64,
                        cstates,
                        mid,
                        *self,
                    ));
                }
            }
            Section::CodeBlock(lines) => {
                self.current_y = sat_add(self.current_y, delta);
                let code_x = sat_add(start_x, self.cfg.code_indentation);
                let ghost mid0 = *self;
                proof {
                    assert(code_mid(o, mid0, delta as int));
                }
                self.render_code_lines(resources, lines, code_x);
                proof {
                    let cstates = choose|states: Seq<Pages>|
                        #![trigger code_chain_states(*resources, lines@, sat64(start_x + o.cfg.code_indentation) as u64, states, mid0, *self)]
                        code_chain_states(
                            *resources,
                            lines@,
                            sat64(start_x + o.cfg.code_indentation) as u64,
                            states,
                            mid0,
                            *self,
                        );
                    assert(cstates.len() >= 0);
                    assert(code_mid(o, mid0, delta as int) && code_chain_states(
                        *resources,
                        lines@,
                        sat64(start_x + o.cfg.code_indentation) as u64,
                        cstates,
                        mid0,
                        *self,
                    ));
                }
            }
        }
    }

    /// Lay out a run of sections from `start_x`, breaking pages as needed.
    ///
    /// `render_rel` chains `render_one_rel` over the sections: it fixes
    /// when each page breaks, where every span is anchored, and how the
    /// cursor moves. On top of it, exhaustiveness: afterwards the
    /// flattened pages hold exactly what they held before followed by the
    /// drawable contents of `sections` in order — no span dropped, none
    /// duplicated. A nested section reserves only its first line's height
    /// before starting, so a list item or quote may begin near the bottom
    /// of a page and flow on.
    pub fn render_sections(&mut self, resources: &Resources, sections: &Vec<Section>, start_x: u64)
        requires
            resources.fonts_ready(),
        ensures
            render_rel(*resources, sections@, start_x, *old(self), *final(self)),
            flat(*final(self)) == flat(*old(self)) + rendered_spans(
                *resources,
                old(self).cfg,
                sections@,
                start_x,
            ),
            final(self).cfg == old(self).cfg,
            final(self).pages@.len() >= old(self).pages@.len(),
            sections@.len() > 0 && (sections@.last() matches Section::Plain(v) && v@.len() > 0)
                ==> page_svs(final(self).current_page).len() > 0,
            sections@.len() > 0 && sections@.last() is ThematicBreak ==> page_svs(
                final(self).current_page,
            ).len() > 0,
        decreases sections@,
    {
        let mut idx: usize = 0;
        let ghost mut states: Seq<Pages> = Seq::empty();
        proof {
            assert(sections@.take(0) =~= Seq::<Section>::empty());
            assert(flat(*self) + rendered_spans(*resources, self.cfg, sections@.take(0), start_x)
                =~= flat(*self));
        }
        while idx < sections.len()
            invariant
                idx <= sections.len(),
                resources.fonts_ready(),
                self.cfg == old(self).cfg,
                self.pages@.len() >= old(self).pages@.len(),
                flat(*self) == flat(*old(self)) + rendered_spans(
                    *resources,
                    old(self).cfg,
                    sections@.take(idx as int),
                    start_x,
                ),
                render_chain(
                    *resources,
                    sections@.take(idx as int),
                    start_x,
                    states,
                    *old(self),
                    *self,
                ),
                idx > 0 && (sections@[idx - 1] matches Section::Plain(v) && v@.len() > 0)
                    ==> page_svs(self.current_page).len() > 0,
                idx > 0 && sections@[idx - 1] is ThematicBreak ==> page_svs(
                    self.current_page,
                ).len() > 0,
            decreases sections@, sections.len() - idx,
        {
            proof {
                assert(decreases_to!(sections@ => sections@[idx as int]));
                assert(sections@.take(idx as int).push(sections@[idx as int]) =~= sections@.take(
                    idx + 1,
                ));
                lemma_rendered_append(
                    *resources,
                    old(self).cfg,
                    sections@.take(idx as int),
                    seq![sections@[idx as int]],
                    start_x,
                );
                let single = seq![sections@[idx as int]];
                assert(single.len() == 1);
                assert(single[0] == sections@[idx as int]);
                assert(single.skip(1) =~= Seq::<Section>::empty());
                assert(rendered_spans(*resources, old(self).cfg, single.skip(1), start_x)
                    == Seq::<SpanV>::empty());
                assert(rendered_spans(*resources, old(self).cfg, single, start_x)
                    == rendered_one(*resources, old(self).cfg, single[0], start_x)
                    + rendered_spans(*resources, old(self).cfg, single.skip(1), start_x));
                assert(rendered_spans(*resources, old(self).cfg, single, start_x)
                    =~= rendered_one(*resources, old(self).cfg, sections@[idx as int], start_x));
                assert(sections@.take(idx as int) + seq![sections@[idx as int]] =~= sections@.take(
                    idx + 1,
                ));
            }
            let ghost pre_iter = *self;
            let section = &sections[idx];
            self.render_one(resources, section, start_x);
            proof {
                lemma_render_chain_snoc(
                    *resources,
                    sections@.take(idx as int),
                    sections@[idx as int],
                    start_x,
                    states,
                    *old(self),
                    pre_iter,
                    *self,
                );
                states = states.push(*self);
            }
            idx += 1;
        }
        proof {
            assert(sections@.take(sections@.len() as int) =~= sections@);
            assert(render_chain(*resources, sections@, start_x, states, *old(self), *self));
            assert(render_rel(*resources, sections@, start_x, *old(self), *self));
        }
    }

    /// Finish pagination: the page in progress is appended even when it is
    /// empty, so at least one page always exists.
    pub fn into_vec(self) -> (r: Vec<Page>)
        ensures
            r@ == self.pages@.push(self.current_page),
            r@.len() == self.pages@.len() + 1,
            flat_pages(r@) == flat(self),
    {
        let mut pages = self.pages;
        pages.push(self.current_page);
        proof {
            lemma_flat_pages_push(self.pages@, self.current_page);
        }
        pages
    }
}

proof fn lemma_code_spans_snoc(lines: Seq<Vec<Span>>, line: Vec<Span>)
    ensures
        code_spans(lines.push(line)) == code_spans(lines) + svs(line@),
    decreases lines.len(),
{
    if lines.len() == 0 {
        assert(lines.push(line).len() == 1);
        assert(lines.push(line)[0] == line);
        assert(lines.push(line).skip(1) =~= Seq::<Vec<Span>>::empty());
        assert(code_spans(lines.push(line).skip(1)) == Seq::<SpanV>::empty());
        assert(code_spans(lines) == Seq::<SpanV>::empty());
        assert(code_spans(lines.push(line)) == svs(lines.push(line)[0]@) + code_spans(
            lines.push(line).skip(1),
        ));
        assert(code_spans(lines.push(line)) =~= code_spans(lines) + svs(line@));
    } else {
        assert(lines.push(line)[0] == lines[0]);
        assert(lines.push(line).skip(1) =~= lines.skip(1).push(line));
        lemma_code_spans_snoc(lines.skip(1), line);
        assert(code_spans(lines.push(line)) =~= code_spans(lines) + svs(line@));
    }
}

} // verus!
