//! One finished page: an ordered list of spans anchored at absolute
//! positions.

use vstd::prelude::*;
use crate::resources::Resources;
use crate::sectioner::{lemma_spans_width_push, spans_width};
use crate::span::{PositionedSpan, Span, SpanV, sv};
use crate::util::{lemma_sat_chain, sat64, sat_add};

verus! {

/// The contents of a page, in placement order.
pub open spec fn page_svs(p: Page) -> Seq<SpanV> {
    p.positioned_spans@.map_values(|ps: PositionedSpan| sv(ps.span))
}

/// A run of spans laid left to right at one baseline, appended after
/// `base`: the i-th span lands at `sx` advanced by the summed widths of
/// the spans before it, all at height `sy`, contents unchanged.
pub open spec fn placed(
    res: Resources,
    base: Seq<PositionedSpan>,
    out: Seq<PositionedSpan>,
    spans: Seq<Span>,
    sx: u64,
    sy: int,
) -> bool {
    &&& out.len() == base.len() + spans.len()
    &&& out.subrange(0, base.len() as int) == base
    &&& forall|i: int| 0 <= i < spans.len() ==> {
        let p = out[base.len() + i];
        &&& sv(p.span) == sv(#[trigger] spans[i])
        &&& p.pos.1 as int == sy
        &&& p.pos.0 as int == sat64(sx + spans_width(res, spans.take(i)))
    }
}

/// One page being assembled by the paginator.
#[derive(Debug)]
pub struct Page {
    pub positioned_spans: Vec<PositionedSpan>,
}

impl Page {
    pub fn new() -> (r: Page)
        ensures
            r.positioned_spans@.len() == 0,
    {
        Page { positioned_spans: Vec::new() }
    }

    /// Place a run of spans left to right: the first at `start_x`, each
    /// following one advanced by the width of the span before it, all at
    /// height `start_y`.
    pub fn render_spans(
        &mut self,
        resources: &Resources,
        spans: &Vec<Span>,
        start_x: u64,
        start_y: u64,
    )
        requires
            resources.fonts_ready(),
        ensures
            placed(
                *resources,
                old(self).positioned_spans@,
                final(self).positioned_spans@,
                spans@,
                start_x,
                start_y as int,
            ),
    {
        let ghost base = old(self).positioned_spans@.len() as int;
        let mut x = start_x;
        let y = start_y;
        let mut i: usize = 0;
        proof {
            assert(spans@.take(0) =~= Seq::<Span>::empty());
        }
        while i < spans.len()
            invariant
                i <= spans.len(),
                resources.fonts_ready(),
                base == old(self).positioned_spans@.len(),
                self.positioned_spans@.len() == base + i,
                self.positioned_spans@.subrange(0, base) == old(self).positioned_spans@,
                x as int == sat64(start_x + spans_width(*resources, spans@.take(i as int))),
                forall|j: int| 0 <= j < i ==> {
                    let p = self.positioned_spans@[base + j];
                    &&& sv(p.span) == sv(#[trigger] spans@[j])
                    &&& p.pos.1 == y
                    &&& p.pos.0 as int == sat64(
                        start_x + spans_width(*resources, spans@.take(j)),
                    )
                },
            decreases spans.len() - i,
        {
            let span = spans[i].duplicate();
            let w = spans[i].width(resources);
            self.positioned_spans.push(PositionedSpan::new(span, x, y));
            x = sat_add(x, w);
            proof {
                assert(spans@.take(i + 1).drop_last() =~= spans@.take(i as int));
                assert(spans@.take(i + 1).last() == spans@[i as int]);
                lemma_sat_chain(
                    start_x + spans_width(*resources, spans@.take(i as int)),
                    spans@[i as int].spec_width(*resources),
                );
                assert(self.positioned_spans@.subrange(0, base)
                    =~= old(self).positioned_spans@);
            }
            i += 1;
        }
    }

    /// Empty the page for reuse.
    pub fn clear(&mut self)
        ensures
            final(self).positioned_spans@.len() == 0,
    {
        self.positioned_spans.clear();
    }

    /// Hand over the placed spans.
    pub fn into_vec(self) -> (r: Vec<PositionedSpan>)
        ensures
            r == self.positioned_spans,
    {
        self.positioned_spans
    }
}

} // verus!
