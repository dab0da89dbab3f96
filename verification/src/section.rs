//! One vertically stacked unit of layout: a finished line, a gap, a rule, a
//! forced page break, or a nested block.

use vstd::prelude::*;
use crate::resources::Resources;
use crate::span::{Span, SpanV, sv, svs};
use crate::util::{sat64, sat_add};

verus! {

/// One layout unit, built bottom-up by the sectioner and consumed top-down
/// by the paginator. A `Plain` section is one visual line. Nested blocks
/// (`ListItem`, `BlockQuote`) hold their own ordered sub-layout. A
/// `CodeBlock` holds pre-split monospace lines that are never re-wrapped.
#[derive(Debug)]
pub enum Section {
    Plain(Vec<Span>),
    VerticalSpace(u64),
    ThematicBreak,
    PageBreak,
    ListItem(Vec<Section>),
    BlockQuote(Vec<Section>),
    CodeBlock(Vec<Vec<Span>>),
}

/// The mathematical content of a `Section`; contracts compare sections
/// through this projection.
pub enum SecV {
    Plain(Seq<SpanV>),
    VerticalSpace(u64),
    ThematicBreak,
    PageBreak,
    ListItem(Seq<SecV>),
    BlockQuote(Seq<SecV>),
    CodeBlock(Seq<Seq<SpanV>>),
}

/// The contents of the lines of a code block.
pub open spec fn rows(lines: Seq<Vec<Span>>) -> Seq<Seq<SpanV>> {
    lines.map_values(|line: Vec<Span>| svs(line@))
}

/// The content of a section.
pub open spec fn secv(s: Section) -> SecV
    decreases s,
{
    match s {
        Section::Plain(spans) => SecV::Plain(svs(spans@)),
        Section::VerticalSpace(h) => SecV::VerticalSpace(h),
        Section::ThematicBreak => SecV::ThematicBreak,
        Section::PageBreak => SecV::PageBreak,
        Section::ListItem(subs) => SecV::ListItem(secvs(subs@)),
        Section::BlockQuote(subs) => SecV::BlockQuote(secvs(subs@)),
        Section::CodeBlock(lines) => SecV::CodeBlock(rows(lines@)),
    }
}

/// The contents of a sequence of sections, in order.
pub open spec fn secvs(ss: Seq<Section>) -> Seq<SecV>
    decreases ss,
{
    if ss.len() == 0 {
        Seq::empty()
    } else {
        seq![secv(ss[0])] + secvs(ss.skip(1))
    }
}

pub proof fn lemma_secvs_len(ss: Seq<Section>)
    ensures
        secvs(ss).len() == ss.len(),
        forall|i: int| 0 <= i < ss.len() ==> secvs(ss)[i] == secv(ss[i]),
    decreases ss,
{
    if ss.len() > 0 {
        lemma_secvs_len(ss.skip(1));
        assert(forall|i: int| 0 <= i < ss.skip(1).len() ==> ss.skip(1)[i] == ss[i + 1]);
    }
}

pub proof fn lemma_secvs_push(ss: Seq<Section>, s: Section)
    ensures
        secvs(ss.push(s)) == secvs(ss).push(secv(s)),
    decreases ss,
{
    lemma_secvs_len(ss);
    lemma_secvs_len(ss.push(s));
    assert forall|i: int| 0 <= i < ss.len() + 1 implies secvs(ss.push(s))[i] == secvs(ss).push(
        secv(s),
    )[i] by {
        if i < ss.len() {
            assert(ss.push(s)[i] == ss[i]);
        } else {
            assert(ss.push(s)[i] == s);
        }
    }
    assert(secvs(ss.push(s)) =~= secvs(ss).push(secv(s)));
}

/// The tallest span of a line, in document units.
pub open spec fn spec_line_height(res: Resources, spans: Seq<Span>) -> int
    decreases spans.len(),
{
    if spans.len() == 0 {
        0
    } else {
        let rest = spec_line_height(res, spans.drop_last());
        let last = spans.last().spec_height(res);
        if last > rest {
            last
        } else {
            rest
        }
    }
}

/// The saturating sum of the heights of a run of sections.
pub open spec fn spec_sections_height(res: Resources, ss: Seq<Section>) -> int
    decreases ss,
{
    if ss.len() == 0 {
        0
    } else {
        sat64(spec_sections_height(res, ss.drop_last()) + ss.last().spec_height(res))
    }
}

/// The saturating sum of the line heights of a code block.
pub open spec fn spec_code_height(res: Resources, lines: Seq<Vec<Span>>) -> int
    decreases lines.len(),
{
    if lines.len() == 0 {
        0
    } else {
        sat64(spec_code_height(res, lines.drop_last()) + spec_line_height(
            res,
            lines.last()@,
        ))
    }
}

impl Section {
    /// The full vertical room of the section: the tallest span of a line, a
    /// gap's own height, nothing for rules and page breaks, and the summed
    /// height of everything inside a nested block.
    pub open spec fn spec_height(self, res: Resources) -> int
        decreases self,
    {
        match self {
            Section::Plain(spans) => spec_line_height(res, spans@),
            Section::VerticalSpace(h) => h as int,
            Section::ThematicBreak => 0,
            Section::PageBreak => 0,
            Section::ListItem(subs) => spec_sections_height(res, subs@),
            Section::BlockQuote(subs) => spec_sections_height(res, subs@),
            Section::CodeBlock(lines) => spec_code_height(res, lines@),
        }
    }

    /// The vertical room that must be free before the section may start on
    /// the current page: its full height for flat sections, but only the
    /// first child's height for nested blocks, whose remaining lines may
    /// flow onto following pages.
    pub open spec fn spec_min_step(self, res: Resources) -> int {
        match self {
            Section::ListItem(subs) => if subs@.len() == 0 {
                0
            } else {
                subs@[0].spec_height(res)
            },
            Section::BlockQuote(subs) => if subs@.len() == 0 {
                0
            } else {
                subs@[0].spec_height(res)
            },
            Section::CodeBlock(lines) => if lines@.len() == 0 {
                0
            } else {
                spec_line_height(res, lines@[0]@)
            },
            _ => self.spec_height(res),
        }
    }

    /// Blank sections place no content: a trailing one is trimmed so that
    /// it cannot produce a dangling page. A thematic break is visually
    /// significant and is never blank.
    pub open spec fn spec_is_empty(self) -> bool {
        match self {
            Section::PageBreak => true,
            Section::VerticalSpace(_) => true,
            Section::ThematicBreak => false,
            Section::Plain(spans) => spans@.len() == 0,
            Section::ListItem(_) => false,
            Section::BlockQuote(_) => false,
            Section::CodeBlock(_) => false,
        }
    }

    pub fn plain(spans: Vec<Span>) -> (r: Section)
        ensures
            secv(r) == SecV::Plain(svs(spans@)),
    {
        Section::Plain(spans)
    }

    pub fn space(height: u64) -> (r: Section)
        ensures
            secv(r) == SecV::VerticalSpace(height),
    {
        Section::VerticalSpace(height)
    }

    pub fn list_item(sections: Vec<Section>) -> (r: Section)
        ensures
            secv(r) == SecV::ListItem(secvs(sections@)),
    {
        Section::ListItem(sections)
    }

    pub fn block_quote(sections: Vec<Section>) -> (r: Section)
        ensures
            secv(r) == SecV::BlockQuote(secvs(sections@)),
    {
        Section::BlockQuote(sections)
    }

    pub fn code_block(lines: Vec<Vec<Span>>) -> (r: Section)
        ensures
            secv(r) == SecV::CodeBlock(rows(lines@)),
    {
        Section::CodeBlock(lines)
    }

    pub fn page_break() -> (r: Section)
        ensures
            secv(r) == SecV::PageBreak,
    {
        Section::PageBreak
    }

    /// The full vertical room of the section.
    pub fn height(&self, resources: &Resources) -> (h: u64)
        requires
            resources.fonts_ready(),
        ensures
            h as int == self.spec_height(*resources),
        decreases *self,
    {
        match self {
            Section::Plain(spans) => line_height(resources, spans),
            Section::VerticalSpace(h) => *h,
            Section::ThematicBreak => 0,
            Section::PageBreak => 0,
            Section::ListItem(subs) => sections_height(resources, subs),
            Section::BlockQuote(subs) => sections_height(resources, subs),
            Section::CodeBlock(lines) => {
                let mut acc: u64 = 0;
                let mut i: usize = 0;
                proof {
                    assert(lines@.take(0) =~= Seq::<Vec<Span>>::empty());
                }
                while i < lines.len()
                    invariant
                        i <= lines.len(),
                        resources.fonts_ready(),
                        acc as int == spec_code_height(*resources, lines@.take(i as int)),
                    decreases lines.len() - i,
                {
                    let lh = line_height(resources, &lines[i]);
                    acc = sat_add(acc, lh);
                    proof {
                        assert(lines@.take(i + 1).drop_last() =~= lines@.take(i as int));
                        assert(lines@.take(i + 1).last() == lines@[i as int]);
                    }
                    i += 1;
                }
                proof {
                    assert(lines@.take(lines@.len() as int) =~= lines@);
                }
                acc
            }
        }
    }

    /// The vertical room that must be free before the section may start on
    /// the current page.
    pub fn min_step(&self, resources: &Resources) -> (h: u64)
        requires
            resources.fonts_ready(),
        ensures
            h as int == self.spec_min_step(*resources),
    {
        match self {
            Section::ListItem(subs) => if subs.len() == 0 {
                0
            } else {
                subs[0].height(resources)
            },
            Section::BlockQuote(subs) => if subs.len() == 0 {
                0
            } else {
                subs[0].height(resources)
            },
            Section::CodeBlock(lines) => if lines.len() == 0 {
                0
            } else {
                line_height(resources, &lines[0])
            },
            _ => self.height(resources),
        }
    }

    /// Whether the section places no content.
    pub fn is_empty(&self) -> (r: bool)
        ensures
            r == self.spec_is_empty(),
    {
        match self {
            Section::PageBreak => true,
            Section::VerticalSpace(_) => true,
            Section::ThematicBreak => false,
            Section::Plain(spans) => spans.len() == 0,
            Section::ListItem(_) => false,
            Section::BlockQuote(_) => false,
            Section::CodeBlock(_) => false,
        }
    }
}

/// The tallest span of a line.
pub fn line_height(resources: &Resources, spans: &Vec<Span>) -> (h: u64)
    requires
        resources.fonts_ready(),
    ensures
        h as int == spec_line_height(*resources, spans@),
{
    let mut best: u64 = 0;
    let mut i: usize = 0;
    proof {
        assert(spans@.take(0) =~= Seq::<Span>::empty());
    }
    while i < spans.len()
        invariant
            i <= spans.len(),
            resources.fonts_ready(),
            best as int == spec_line_height(*resources, spans@.take(i as int)),
        decreases spans.len() - i,
    {
        let h = spans[i].height(resources);
        if h > best {
            best = h;
        }
        proof {
            assert(spans@.take(i + 1).drop_last() =~= spans@.take(i as int));
            assert(spans@.take(i + 1).last() == spans@[i as int]);
        }
        i += 1;
    }
    proof {
        assert(spans@.take(spans@.len() as int) =~= spans@);
    }
    best
}

/// The saturating summed height of a run of sections.
pub fn sections_height(resources: &Resources, sections: &Vec<Section>) -> (h: u64)
    requires
        resources.fonts_ready(),
    ensures
        h as int == spec_sections_height(*resources, sections@),
    decreases sections@,
{
    let mut acc: u64 = 0;
    let mut i: usize = 0;
    proof {
        assert(sections@.take(0) =~= Seq::<Section>::empty());
    }
    while i < sections.len()
        invariant
            i <= sections.len(),
            resources.fonts_ready(),
            acc as int == spec_sections_height(*resources, sections@.take(i as int)),
        decreases sections.len() - i,
    {
        proof {
            assert(decreases_to!(sections@ => sections@[i as int]));
        }
        let h = sections[i].height(resources);
        acc = sat_add(acc, h);
        proof {
            assert(sections@.take(i + 1).drop_last() =~= sections@.take(i as int));
            assert(sections@.take(i + 1).last() == sections@[i as int]);
        }
        i += 1;
    }
    proof {
        assert(sections@.take(sections@.len() as int) =~= sections@);
    }
    acc
}

} // verus!
