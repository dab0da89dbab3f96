//! A document-layout engine: it turns a stream of inline and block markup
//! events into paginated drawing instructions, that is pages of positioned
//! text runs, images and rectangles.
//!
//! All lengths are integers in one consistent document unit; the metrics a
//! layout run needs (glyph advances, image pixel sizes) are handed in as
//! plain values, so the whole engine is verified. Tokenizing markup into
//! events, loading font and image files and drawing the final pages belong
//! to the caller.

use vstd::prelude::*;

pub mod event;
pub mod page;
pub mod pages;
pub mod resources;
pub mod section;
pub mod sectioner;
pub mod sizer;
pub mod span;
pub mod style;
pub mod util;

verus! {

/// The configuration of one layout run; constant while the run lasts.
#[derive(Debug)]
pub struct Config {
    /// Where the caller loads images and fonts from.
    pub resources_directory: String,
    pub title: String,
    pub first_layer_name: String,
    /// Page width and height in document units (points: an A4 sheet is
    /// 595 by 842).
    pub page_size: (u64, u64),
    /// Horizontal and vertical margin in document units.
    pub margin: (u64, u64),
    pub default_font: String,
    pub bold_font: String,
    pub italic_font: String,
    pub bold_italic_font: String,
    pub mono_font: String,
    pub default_font_size: u64,
    pub h1_font_size: u64,
    pub h2_font_size: u64,
    pub h3_font_size: u64,
    pub h4_font_size: u64,
    /// Leading as hundredths of the line height: 100 is single spacing.
    pub line_spacing: u64,
    pub list_indentation: u64,
    pub list_point_offset: u64,
    pub quote_indentation: u64,
    /// The horizontal offset of code blocks.
    pub code_indentation: u64,
    /// The vertical space between two sections (paragraphs, lists, etc.).
    pub section_spacing: u64,
}

impl Default for Config {
    fn default() -> (r: Config)
        ensures
            r.page_size == (595u64, 842u64),
            r.margin == (57u64, 57u64),
            r.default_font@ == "mdproof-default-regular"@,
            r.bold_font@ == "mdproof-default-bold"@,
            r.italic_font@ == "mdproof-default-italic"@,
            r.bold_italic_font@ == "mdproof-default-bold-italic"@,
            r.mono_font@ == "mdproof-default-mono"@,
            r.default_font_size == 12u64,
            r.h1_font_size == 32u64,
            r.h2_font_size == 28u64,
            r.h3_font_size == 20u64,
            r.h4_font_size == 16u64,
            r.line_spacing == 100u64,
            r.list_indentation == 28u64,
            r.list_point_offset == 14u64,
            r.quote_indentation == 57u64,
            r.code_indentation == 28u64,
            r.section_spacing == 14u64,
    {
        Config {
            resources_directory: String::new(),
            title: "mdproof".to_owned(),
            first_layer_name: "Layer 1".to_owned(),
            page_size: (595, 842),
            margin: (57, 57),
            default_font: "mdproof-default-regular".to_owned(),
            bold_font: "mdproof-default-bold".to_owned(),
            italic_font: "mdproof-default-italic".to_owned(),
            bold_italic_font: "mdproof-default-bold-italic".to_owned(),
            mono_font: "mdproof-default-mono".to_owned(),
            default_font_size: 12,
            h1_font_size: 32,
            h2_font_size: 28,
            h3_font_size: 20,
            h4_font_size: 16,
            line_spacing: 100,
            list_indentation: 28,
            list_point_offset: 14,
            quote_indentation: 57,
            code_indentation: 28,
            section_spacing: 14,
        }
    }
}

impl Config {
    /// A copy for another stage of the same run: every length, size and
    /// spacing is identical, and the names and titles read the same.
    pub fn duplicate(&self) -> (r: Config)
        ensures
            r.resources_directory@ == self.resources_directory@,
            r.title@ == self.title@,
            r.first_layer_name@ == self.first_layer_name@,
            r.page_size == self.page_size,
            r.margin == self.margin,
            r.default_font@ == self.default_font@,
            r.bold_font@ == self.bold_font@,
            r.italic_font@ == self.italic_font@,
            r.bold_italic_font@ == self.bold_italic_font@,
            r.mono_font@ == self.mono_font@,
            r.default_font_size == self.default_font_size,
            r.h1_font_size == self.h1_font_size,
            r.h2_font_size == self.h2_font_size,
            r.h3_font_size == self.h3_font_size,
            r.h4_font_size == self.h4_font_size,
            r.line_spacing == self.line_spacing,
            r.list_indentation == self.list_indentation,
            r.list_point_offset == self.list_point_offset,
            r.quote_indentation == self.quote_indentation,
            r.code_indentation == self.code_indentation,
            r.section_spacing == self.section_spacing,
    {
        Config {
            resources_directory: self.resources_directory.clone(),
            title: self.title.clone(),
            first_layer_name: self.first_layer_name.clone(),
            page_size: self.page_size,
            margin: self.margin,
            default_font: self.default_font.clone(),
            bold_font: self.bold_font.clone(),
            italic_font: self.italic_font.clone(),
            bold_italic_font: self.bold_italic_font.clone(),
            mono_font: self.mono_font.clone(),
            default_font_size: self.default_font_size,
            h1_font_size: self.h1_font_size,
            h2_font_size: self.h2_font_size,
            h3_font_size: self.h3_font_size,
            h4_font_size: self.h4_font_size,
            line_spacing: self.line_spacing,
            list_indentation: self.list_indentation,
            list_point_offset: self.list_point_offset,
            quote_indentation: self.quote_indentation,
            code_indentation: self.code_indentation,
            section_spacing: self.section_spacing,
        }
    }
}

/// The builder a layout run starts from: the cursor at the left edge of
/// a column as wide as the page between its horizontal margins, nothing
/// built yet, and the run's numeric configuration.
pub open spec fn initial_sectioner(
    s: sectioner::Sectioner,
    res: resources::Resources,
) -> bool {
    &&& s.x == 0
    &&& s.min_x == 0
    &&& s.max_x as int == util::sub0(
        res.cfg.page_size.0 - util::sat64(res.cfg.margin.0 + res.cfg.margin.0),
    )
    &&& s.lines@.len() == 0
    &&& s.current_line@.len() == 0
    &&& s.current_code_block@.len() == 0
    &&& s.stack@.len() == 0
    &&& !s.is_code
    &&& !s.is_alt_text
    &&& s.cfg.section_spacing == res.cfg.section_spacing
    &&& s.cfg.list_indentation == res.cfg.list_indentation
    &&& s.cfg.quote_indentation == res.cfg.quote_indentation
}

/// Events driven through the measurer and the builder one by one, with
/// every intermediate value given explicitly: the i-th event was sized to
/// `sized[i]`, fed to the builder in state `states[i - 1]` (or `o` at the
/// start), answered with `rets[i]`, and left the builder in `states[i]`.
pub open spec fn run_chain(
    res: resources::Resources,
    events: Seq<event::Event>,
    sized: Seq<sizer::SizedEvent>,
    rets: Seq<Option<sectioner::SubsectionType>>,
    states: Seq<sectioner::Sectioner>,
    o: sectioner::Sectioner,
    n: sectioner::Sectioner,
) -> bool
    decreases events.len(),
{
    if events.len() == 0 {
        n == o && sized.len() == 0 && rets.len() == 0 && states.len() == 0
    } else {
        &&& sized.len() == events.len()
        &&& rets.len() == events.len()
        &&& states.len() == events.len()
        &&& sizer::sized_rel(res, events[0], sized[0])
        &&& sectioner::parse_rel(o, states[0], res, sized[0], rets[0])
        &&& run_chain(
            res,
            events.skip(1),
            sized.skip(1),
            rets.skip(1),
            states.skip(1),
            states[0],
            n,
        )
    }
}

/// Events driven through the measurer and the builder one by one.
pub open spec fn run_rel(
    res: resources::Resources,
    events: Seq<event::Event>,
    o: sectioner::Sectioner,
    n: sectioner::Sectioner,
) -> bool {
    exists|
        sized: Seq<sizer::SizedEvent>,
        rets: Seq<Option<sectioner::SubsectionType>>,
        states: Seq<sectioner::Sectioner>,
    |
        #![trigger run_chain(res, events, sized, rets, states, o, n)]
        run_chain(res, events, sized, rets, states, o, n)
}

/// A run may be extended by one more processed event at its end.
proof fn lemma_run_chain_snoc(
    res: resources::Resources,
    events: Seq<event::Event>,
    e: event::Event,
    sized: Seq<sizer::SizedEvent>,
    se: sizer::SizedEvent,
    rets: Seq<Option<sectioner::SubsectionType>>,
    r: Option<sectioner::SubsectionType>,
    states: Seq<sectioner::Sectioner>,
    o: sectioner::Sectioner,
    m: sectioner::Sectioner,
    n: sectioner::Sectioner,
)
    requires
        run_chain(res, events, sized, rets, states, o, m),
        sizer::sized_rel(res, e, se),
        sectioner::parse_rel(m, n, res, se, r),
    ensures
        run_chain(
            res,
            events.push(e),
            sized.push(se),
            rets.push(r),
            states.push(n),
            o,
            n,
        ),
    decreases events.len(),
{
    if events.len() == 0 {
        assert(m == o);
        assert(events.push(e)[0] == e);
        assert(sized.push(se)[0] == se);
        assert(rets.push(r)[0] == r);
        assert(states.push(n)[0] == n);
        assert(events.push(e).skip(1) =~= Seq::<event::Event>::empty());
        assert(sized.push(se).skip(1) =~= Seq::<sizer::SizedEvent>::empty());
        assert(rets.push(r).skip(1) =~= Seq::<Option<sectioner::SubsectionType>>::empty());
        assert(states.push(n).skip(1) =~= Seq::<sectioner::Sectioner>::empty());
        assert(run_chain(
            res,
            events.push(e).skip(1),
            sized.push(se).skip(1),
            rets.push(r).skip(1),
            states.push(n).skip(1),
            states.push(n)[0],
            n,
        ));
    } else {
        lemma_run_chain_snoc(
            res,
            events.skip(1),
            e,
            sized.skip(1),
            se,
            rets.skip(1),
            r,
            states.skip(1),
            states[0],
            m,
            n,
        );
        assert(events.push(e)[0] == events[0]);
        assert(sized.push(se)[0] == sized[0]);
        assert(rets.push(r)[0] == rets[0]);
        assert(states.push(n)[0] == states[0]);
        assert(events.push(e).skip(1) =~= events.skip(1).push(e));
        assert(sized.push(se).skip(1) =~= sized.skip(1).push(se));
        assert(rets.push(r).skip(1) =~= rets.skip(1).push(r));
        assert(states.push(n).skip(1) =~= states.skip(1).push(n));
        assert(run_chain(
            res,
            events.push(e).skip(1),
            sized.push(se).skip(1),
            rets.push(r).skip(1),
            states.push(n).skip(1),
            states.push(n)[0],
            n,
        ));
    }
}


/// The word-wrap bound over a whole run: a builder that starts well
/// formed, fed only events of the shape `event_keeps_fit` allows, stays
/// well formed — every line it ever finishes, at any nesting depth, fits
/// the column it was made for.
pub proof fn lemma_run_keeps_fit(
    res: resources::Resources,
    events: Seq<event::Event>,
    sized: Seq<sizer::SizedEvent>,
    rets: Seq<Option<sectioner::SubsectionType>>,
    states: Seq<sectioner::Sectioner>,
    o: sectioner::Sectioner,
    n: sectioner::Sectioner,
)
    requires
        run_chain(res, events, sized, rets, states, o, n),
        sectioner::builder_fits(res, o),
        forall|i: int| 0 <= i < events.len() ==> sectioner::event_keeps_fit(
            res,
            if i == 0 {
                o
            } else {
                states[i - 1]
            },
            #[trigger] sized[i],
            states[i],
        ),
    ensures
        sectioner::builder_fits(res, n),
    decreases events.len(),
{
    if events.len() > 0 {
        assert(sectioner::event_keeps_fit(res, o, sized[0], states[0]));
        sectioner::lemma_parse_keeps_fit(res, o, states[0], sized[0], rets[0]);
        assert forall|i: int| 0 <= i < events.skip(1).len() implies sectioner::event_keeps_fit(
            res,
            if i == 0 {
                states[0]
            } else {
                states.skip(1)[i - 1]
            },
            #[trigger] sized.skip(1)[i],
            states.skip(1)[i],
        ) by {
            assert(sized.skip(1)[i] == sized[i + 1]);
            assert(states.skip(1)[i] == states[i + 1]);
            if i > 0 {
                assert(states.skip(1)[i - 1] == states[i]);
            }
            assert(sectioner::event_keeps_fit(
                res,
                if i + 1 == 0 {
                    o
                } else {
                    states[i]
                },
                sized[i + 1],
                states[i + 1],
            ));
        }
        lemma_run_keeps_fit(
            res,
            events.skip(1),
            sized.skip(1),
            rets.skip(1),
            states.skip(1),
            states[0],
            n,
        );
    }
}

/// Lay out a whole tokenized document: measure each event, build the
/// section list within the column between the horizontal margins, and
/// paginate it. At least one page always comes back, even for an empty
/// document. The result is tied to the input: some run of the builder
/// over the events, from the initial state, yields a final state whose
/// finished sections are what the pages hold, flattened in order.
pub fn layout_document(resources: &resources::Resources, events: Vec<event::Event>) -> (pages:
    Vec<page::Page>)
    requires
        resources.fonts_ready(),
    ensures
        pages@.len() >= 1,
        exists|
            init: sectioner::Sectioner,
            last: sectioner::Sectioner,
            sections: Seq<section::Section>,
        |
            #![trigger initial_sectioner(init, *resources), sectioner::finalize_v(last),
                pages::rendered_spans(*resources, resources.cfg, sections, resources.cfg.margin.0)]
            initial_sectioner(init, *resources) && run_rel(*resources, events@, init, last)
                && section::secvs(sections) == sectioner::finalize_v(last) && pages::flat_pages(
                pages@,
            ) == pages::rendered_spans(
                *resources,
                resources.cfg,
                sections,
                resources.cfg.margin.0,
            ),
{
    let ghost evs = events@;
    let sizer = sizer::Sizer::new();
    let cfg_for_sectioner = resources.get_config().duplicate();
    let max_width = util::sat_sub(
        resources.get_config().page_size.0,
        util::sat_add(resources.get_config().margin.0, resources.get_config().margin.0),
    );
    let mut lines = sectioner::Sectioner::new(0, max_width, cfg_for_sectioner);
    let ghost init = lines;
    proof {
        assert(initial_sectioner(init, *resources));
    }
    let mut events = events;
    let ghost mut i: int = 0;
    let ghost mut sizedseq: Seq<sizer::SizedEvent> = Seq::empty();
    let ghost mut retseq: Seq<Option<sectioner::SubsectionType>> = Seq::empty();
    let ghost mut states: Seq<sectioner::Sectioner> = Seq::empty();
    proof {
        assert(evs.take(0) =~= Seq::<event::Event>::empty());
        assert(evs.skip(0) =~= evs);
    }
    while events.len() > 0
        invariant
            resources.fonts_ready(),
            0 <= i <= evs.len(),
            events@ == evs.skip(i),
            run_chain(*resources, evs.take(i), sizedseq, retseq, states, init, lines),
        decreases events.len(),
    {
        let ghost pre = lines;
        let ev = events.remove(0);
        proof {
            assert(evs.skip(i)[0] == evs[i]);
            assert(events@ =~= evs.skip(i + 1));
        }
        let sized_ev = sizer.size_event(resources, ev);
        let ghost gse = sized_ev;
        let r = lines.parse_event(resources, sized_ev);
        proof {
            lemma_run_chain_snoc(
                *resources,
                evs.take(i),
                evs[i],
                sizedseq,
                gse,
                retseq,
                r,
                states,
                init,
                pre,
                lines,
            );
            assert(evs.take(i).push(evs[i]) =~= evs.take(i + 1));
            sizedseq = sizedseq.push(gse);
            retseq = retseq.push(r);
            states = states.push(lines);
            i = i + 1;
        }
    }
    proof {
        assert(evs.take(evs.len() as int) =~= evs);
    }
    let ghost last = lines;
    let sections = lines.get_vec();
    let cfg_for_pages = resources.get_config().duplicate();
    let ghost gcfg = cfg_for_pages;
    let mut pages = pages::Pages::new(cfg_for_pages);
    let ghost fresh = pages;
    let start_x = resources.get_config().margin.0;
    pages.render_sections(resources, &sections, start_x);
    proof {
        assert(pages::flat(fresh) =~= Seq::<span::SpanV>::empty());
        assert(pages::flat(pages) =~= pages::rendered_spans(
            *resources,
            gcfg,
            sections@,
            start_x,
        ));
        pages::lemma_rendered_spans_geometry(*resources, gcfg, resources.cfg, sections@, start_x);
    }
    let out = pages.into_vec();
    proof {
        assert(run_chain(*resources, evs, sizedseq, retseq, states, init, last));
        assert(run_rel(*resources, evs, init, last));
        assert(initial_sectioner(init, *resources) && run_rel(*resources, evs, init, last)
            && section::secvs(sections@) == sectioner::finalize_v(last) && pages::flat_pages(
            out@,
        ) == pages::rendered_spans(
            *resources,
            resources.cfg,
            sections@,
            resources.cfg.margin.0,
        ));
    }
    out
}

} // verus!
