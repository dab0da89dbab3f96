//! The resource cache the engine measures against: font metrics and image
//! dimensions as plain integer values.
//!
//! Font files and image files live outside the engine; the caller parses
//! them and registers, per font, the glyph advances in glyph-space units,
//! and, per image, the pixel dimensions. Lookups are read-only during a
//! layout run.

use vstd::prelude::*;
use crate::util::str_eq;
use crate::Config;

verus! {

/// The advance width of one character, in glyph-space units.
#[derive(Clone, Copy, Debug, PartialEq, Eq, Structural)]
pub struct CharAdvance {
    pub ch: char,
    pub advance: u64,
}

/// The metrics of one typeface, in glyph-space units: widths scale with the
/// font size divided by `units_per_em`.
#[derive(Debug)]
pub struct FontMetrics {
    /// Glyph-space units per em; at font size `s`, a glyph-space length `w`
    /// renders as `w * s / units_per_em` document units. Never zero.
    pub units_per_em: u64,
    /// Ascent minus descent plus line gap, in glyph-space units.
    pub line_height: u64,
    /// The advance of characters missing from `advances`.
    pub default_advance: u64,
    /// Per-character advances; the first entry for a character wins.
    pub advances: Vec<CharAdvance>,
}

/// The advance of `c` in an advance table, or the fallback.
pub open spec fn advance_in(entries: Seq<CharAdvance>, dflt: u64, c: char) -> u64
    decreases entries.len(),
{
    if entries.len() == 0 {
        dflt
    } else if entries[0].ch == c {
        entries[0].advance
    } else {
        advance_in(entries.skip(1), dflt, c)
    }
}

impl FontMetrics {
    /// A usable font never divides by zero.
    pub open spec fn wf(&self) -> bool {
        self.units_per_em >= 1
    }

    pub open spec fn spec_advance(&self, c: char) -> u64 {
        advance_in(self.advances@, self.default_advance, c)
    }

    /// The advance width of one character, in glyph-space units.
    pub fn advance(&self, c: char) -> (r: u64)
        ensures
            r == self.spec_advance(c),
    {
        let mut i: usize = 0;
        proof {
            assert(self.advances@.skip(0) =~= self.advances@);
        }
        while i < self.advances.len()
            invariant
                i <= self.advances.len(),
                advance_in(self.advances@.skip(i as int), self.default_advance, c)
                    == self.spec_advance(c),
            decreases self.advances.len() - i,
        {
            proof {
                assert(self.advances@.skip(i as int)[0] == self.advances@[i as int]);
                assert(self.advances@.skip(i as int).skip(1) =~= self.advances@.skip(i + 1));
            }
            if self.advances[i].ch == c {
                return self.advances[i].advance;
            }
            i += 1;
        }
        proof {
            assert(self.advances@.skip(i as int).len() == 0);
        }
        self.default_advance
    }
}

/// One registered font.
#[derive(Debug)]
pub struct FontEntry {
    pub name: String,
    pub metrics: FontMetrics,
}

/// One registered image, by path, with its native pixel dimensions.
#[derive(Debug)]
pub struct ImageEntry {
    pub path: String,
    pub width_px: u64,
    pub height_px: u64,
}

/// The first font of the given name, if any.
pub open spec fn find_font_in(entries: Seq<FontEntry>, name: Seq<char>) -> Option<FontMetrics>
    decreases entries.len(),
{
    if entries.len() == 0 {
        None
    } else if entries[0].name@ == name {
        Some(entries[0].metrics)
    } else {
        find_font_in(entries.skip(1), name)
    }
}

/// The first image of the given path, if any.
pub open spec fn find_image_in(entries: Seq<ImageEntry>, path: Seq<char>) -> Option<(u64, u64)>
    decreases entries.len(),
{
    if entries.len() == 0 {
        None
    } else if entries[0].path@ == path {
        Some((entries[0].width_px, entries[0].height_px))
    } else {
        find_image_in(entries.skip(1), path)
    }
}

/// The read-only cache of font metrics and image dimensions, together with
/// the configuration of the layout run.
#[derive(Debug)]
pub struct Resources {
    pub cfg: Config,
    /// Where the caller resolved resource paths from; kept for reference.
    pub root_path: String,
    pub fonts: Vec<FontEntry>,
    pub images: Vec<ImageEntry>,
}

impl Resources {
    pub open spec fn spec_get_font(&self, name: Seq<char>) -> Option<FontMetrics> {
        find_font_in(self.fonts@, name)
    }

    pub open spec fn spec_get_image(&self, path: Seq<char>) -> Option<(u64, u64)> {
        find_image_in(self.images@, path)
    }

    /// The five typefaces named by the configuration are registered and
    /// usable; every style can then be measured.
    pub open spec fn fonts_ready(&self) -> bool {
        &&& self.spec_get_font(self.cfg.default_font@) matches Some(f) && f.wf()
        &&& self.spec_get_font(self.cfg.bold_font@) matches Some(f) && f.wf()
        &&& self.spec_get_font(self.cfg.italic_font@) matches Some(f) && f.wf()
        &&& self.spec_get_font(self.cfg.bold_italic_font@) matches Some(f) && f.wf()
        &&& self.spec_get_font(self.cfg.mono_font@) matches Some(f) && f.wf()
    }

    /// An empty cache for a configuration.
    pub fn new(cfg: Config, root_path: String) -> (r: Resources)
        ensures
            r.cfg == cfg,
            r.root_path@ == root_path@,
            r.fonts@.len() == 0,
            r.images@.len() == 0,
    {
        Resources { cfg, root_path, fonts: Vec::new(), images: Vec::new() }
    }

    pub fn get_config(&self) -> (r: &Config)
        ensures
            *r == self.cfg,
    {
        &self.cfg
    }

    /// Register a font under a name; later registrations of the same name
    /// win over earlier ones.
    pub fn add_font(&mut self, name: String, metrics: FontMetrics)
        ensures
            final(self).spec_get_font(name@) == Some(metrics),
            forall|q: Seq<char>| q != name@
                ==> final(self).spec_get_font(q) == old(self).spec_get_font(q),
            final(self).cfg == old(self).cfg,
            final(self).root_path == old(self).root_path,
            final(self).images == old(self).images,
    {
        let ghost orig = self.fonts@;
        self.fonts.insert(0, FontEntry { name, metrics });
        proof {
            assert(self.fonts@[0].metrics == metrics);
            assert(self.fonts@.skip(1) =~= orig);
        }
    }

    /// The metrics of the font of that name, if it is registered.
    pub fn get_font(&self, name: &str) -> (r: Option<&FontMetrics>)
        ensures
            match r {
                Some(f) => self.spec_get_font(name@) == Some(*f),
                None => self.spec_get_font(name@) is None,
            },
    {
        let mut i: usize = 0;
        proof {
            assert(self.fonts@.skip(0) =~= self.fonts@);
        }
        while i < self.fonts.len()
            invariant
                i <= self.fonts.len(),
                find_font_in(self.fonts@.skip(i as int), name@) == self.spec_get_font(name@),
            decreases self.fonts.len() - i,
        {
            proof {
                assert(self.fonts@.skip(i as int)[0] == self.fonts@[i as int]);
                assert(self.fonts@.skip(i as int).skip(1) =~= self.fonts@.skip(i + 1));
            }
            if str_eq(self.fonts[i].name.as_str(), name) {
                return Some(&self.fonts[i].metrics);
            }
            i += 1;
        }
        proof {
            assert(self.fonts@.skip(i as int).len() == 0);
        }
        None
    }

    /// Register an image's pixel dimensions under a path; later
    /// registrations of the same path win over earlier ones.
    pub fn add_image(&mut self, path: String, width_px: u64, height_px: u64)
        ensures
            final(self).spec_get_image(path@) == Some((width_px, height_px)),
            forall|q: Seq<char>| q != path@
                ==> final(self).spec_get_image(q) == old(self).spec_get_image(q),
            final(self).cfg == old(self).cfg,
            final(self).root_path == old(self).root_path,
            final(self).fonts == old(self).fonts,
    {
        let ghost orig = self.images@;
        self.images.insert(0, ImageEntry { path, width_px, height_px });
        proof {
            assert(self.images@[0].width_px == width_px);
            assert(self.images@.skip(1) =~= orig);
        }
    }

    /// The native pixel dimensions of the image at that path, if known.
    pub fn get_image(&self, path: &str) -> (r: Option<(u64, u64)>)
        ensures
            r == self.spec_get_image(path@),
    {
        let mut i: usize = 0;
        proof {
            assert(self.images@.skip(0) =~= self.images@);
        }
        while i < self.images.len()
            invariant
                i <= self.images.len(),
                find_image_in(self.images@.skip(i as int), path@) == self.spec_get_image(path@),
            decreases self.images.len() - i,
        {
            proof {
                assert(self.images@.skip(i as int)[0] == self.images@[i as int]);
                assert(self.images@.skip(i as int).skip(1) =~= self.images@.skip(i + 1));
            }
            if str_eq(self.images[i].path.as_str(), path) {
                return Some((self.images[i].width_px, self.images[i].height_px));
            }
            i += 1;
        }
        proof {
            assert(self.images@.skip(i as int).len() == 0);
        }
        None
    }
}

/// Whether a queue already holds a path.
pub open spec fn has_str(q: Seq<String>, s: Seq<char>) -> bool {
    exists|i: int| 0 <= i < q.len() && (#[trigger] q[i])@ == s
}

/// Gathers the paths of the fonts and images a document needs, without
/// duplicates, so that the caller can load each once and fill a
/// `Resources` cache before layout begins. The loading itself — file
/// reading and parsing — belongs to the caller.
#[derive(Debug)]
pub struct SimpleLoader {
    pub root_path: String,
    pub queued_fonts: Vec<String>,
    pub queued_images: Vec<String>,
}

fn queue_push(queue: &mut Vec<String>, path: String)
    ensures
        has_str(final(queue)@, path@),
        has_str(old(queue)@, path@) ==> final(queue)@ == old(queue)@,
        !has_str(old(queue)@, path@) ==> final(queue)@ == old(queue)@.push(path),
{
    let mut i: usize = 0;
    while i < queue.len()
        invariant
            i <= queue.len(),
            queue == old(queue),
            forall|j: int| 0 <= j < i ==> (#[trigger] queue@[j])@ != path@,
        decreases queue.len() - i,
    {
        if str_eq(queue[i].as_str(), path.as_str()) {
            return;
        }
        i += 1;
    }
    proof {
        if has_str(queue@, path@) {
            let j = choose|j: int| 0 <= j < queue@.len() && (#[trigger] queue@[j])@ == path@;
            assert(false);
        }
    }
    queue.push(path);
    proof {
        assert((queue@[queue@.len() - 1])@ == path@);
    }
}

impl SimpleLoader {
    /// A loader with empty queues, resolving paths under a root.
    pub fn new(root_path: String) -> (r: SimpleLoader)
        ensures
            r.root_path@ == root_path@,
            r.queued_fonts@.len() == 0,
            r.queued_images@.len() == 0,
    {
        SimpleLoader { root_path, queued_fonts: Vec::new(), queued_images: Vec::new() }
    }

    /// Remember a font path; queueing the same path twice changes nothing.
    pub fn queue_font(&mut self, path: String)
        ensures
            has_str(final(self).queued_fonts@, path@),
            has_str(old(self).queued_fonts@, path@) ==> final(self).queued_fonts@
                == old(self).queued_fonts@,
            !has_str(old(self).queued_fonts@, path@) ==> final(self).queued_fonts@
                == old(self).queued_fonts@.push(path),
            final(self).queued_images == old(self).queued_images,
            final(self).root_path == old(self).root_path,
    {
        queue_push(&mut self.queued_fonts, path);
    }

    /// Remember an image path; queueing the same path twice changes
    /// nothing.
    pub fn queue_image(&mut self, path: String)
        ensures
            has_str(final(self).queued_images@, path@),
            has_str(old(self).queued_images@, path@) ==> final(self).queued_images@
                == old(self).queued_images@,
            !has_str(old(self).queued_images@, path@) ==> final(self).queued_images@
                == old(self).queued_images@.push(path),
            final(self).queued_fonts == old(self).queued_fonts,
            final(self).root_path == old(self).root_path,
    {
        queue_push(&mut self.queued_images, path);
    }
}

} // verus!
