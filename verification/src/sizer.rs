//! The atom measurer: a single-pass transform that annotates each content
//! atom with its measured width and height, so that later stages never
//! measure an image again.

use vstd::prelude::*;
use crate::event::{Atom, BlockTag, Break, Event};
use crate::resources::Resources;
use crate::util::{font_height, mul_div, muldiv, spec_font_height, spec_width_of_text, width_of_text};

verus! {

/// Images are converted from pixels to document units at this density.
pub const IMAGE_DPI: u64 = 300;

/// Fallback width for an image whose file is not in the cache.
pub const WIDTH_IMAGE_NOT_FOUND: u64 = 50;

/// Fallback height for an image whose file is not in the cache.
pub const HEIGHT_IMAGE_NOT_FOUND: u64 = 50;

/// The size of an image axis in document units: 72 units per inch at the
/// assumed density.
pub open spec fn px_to_units(px: u64) -> int {
    muldiv(px as int, 72, IMAGE_DPI as int)
}

/// An atom annotated with its measured size in document units.
#[derive(Debug)]
pub struct SizedAtom {
    pub atom: Atom,
    pub width: u64,
    pub height: u64,
}

/// A structural event whose content, if any, has been measured.
#[derive(Debug)]
pub enum SizedEvent {
    SizedAtom(SizedAtom),
    Break(Break),
    StartBlock(BlockTag),
    EndBlock(BlockTag),
}

/// What measuring one event yields: text is measured under its style, an
/// image gets its cached pixel dimensions converted to document units —
/// or the fixed fallback size when its file is missing — and structural
/// events pass through unchanged.
pub open spec fn sized_rel(res: Resources, event: Event, r: SizedEvent) -> bool {
    &&& (event matches Event::StartBlock(t) ==> r == SizedEvent::StartBlock(t))
    &&& (event matches Event::EndBlock(t) ==> r == SizedEvent::EndBlock(t))
    &&& (event matches Event::Break(b) ==> r == SizedEvent::Break(b))
    &&& (event matches Event::Atom(Atom::Text { text, style }) ==> (r matches
        SizedEvent::SizedAtom(sa) && (sa.atom matches Atom::Text { text: t2, style: s2 } && t2@
        == text@ && s2@ == style@) && sa.width as int == spec_width_of_text(res, style, text@)
        && sa.height as int == spec_font_height(res, style)))
    &&& (event matches Event::Atom(Atom::Image { uri }) ==> (r matches SizedEvent::SizedAtom(sa)
        && (sa.atom matches Atom::Image { uri: u2 } && u2@ == uri@) && (match res.spec_get_image(
        uri@,
    ) {
        Some(dims) => sa.width as int == px_to_units(dims.0) && sa.height as int == px_to_units(
            dims.1,
        ),
        None => sa.width == WIDTH_IMAGE_NOT_FOUND && sa.height == HEIGHT_IMAGE_NOT_FOUND,
    })))
}

/// The measuring stage. It holds no state of its own: each event is
/// annotated independently, in one pass, against the resource cache.
#[derive(Debug)]
pub struct Sizer {}

impl Sizer {
    pub fn new() -> (r: Sizer) {
        Sizer {}
    }

    /// Annotate one event. Text is measured under its style; an image is
    /// measured from its cached pixel dimensions, or given the fixed
    /// fallback size when its file is missing (a recoverable condition:
    /// layout continues). Structural events pass through unchanged.
    pub fn size_event(&self, resources: &Resources, event: Event) -> (r: SizedEvent)
        requires
            resources.fonts_ready(),
        ensures
            sized_rel(*resources, event, r),
    {
        match event {
            Event::StartBlock(t) => SizedEvent::StartBlock(t),
            Event::EndBlock(t) => SizedEvent::EndBlock(t),
            Event::Break(b) => SizedEvent::Break(b),
            Event::Atom(Atom::Text { text, style }) => {
                let width = width_of_text(resources, &style, text.as_str());
                let height = font_height(resources, &style);
                SizedEvent::SizedAtom(SizedAtom { atom: Atom::Text { text, style }, width, height })
            }
            Event::Atom(Atom::Image { uri }) => {
                match resources.get_image(uri.as_str()) {
                    Some(dims) => {
                        let width = mul_div(dims.0, 72, IMAGE_DPI);
                        let height = mul_div(dims.1, 72, IMAGE_DPI);
                        SizedEvent::SizedAtom(
                            SizedAtom { atom: Atom::Image { uri }, width, height },
                        )
                    }
                    None => SizedEvent::SizedAtom(
                        SizedAtom {
                            atom: Atom::Image { uri },
                            width: WIDTH_IMAGE_NOT_FOUND,
                            height: HEIGHT_IMAGE_NOT_FOUND,
                        },
                    ),
                }
            }
        }
    }
}

} // verus!
