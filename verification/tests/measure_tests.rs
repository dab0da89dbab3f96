use mdproof::event::{Atom, Event};
use mdproof::resources::{CharAdvance, FontMetrics, Resources};
use mdproof::sizer::{SizedEvent, Sizer};
use mdproof::style::{Class, Style};
use mdproof::util::{font_from_style, font_height, scale_from_style, width_of_text};
use mdproof::Config;

fn test_font(advances: Vec<CharAdvance>, line_height: u64, default_advance: u64) -> FontMetrics {
    FontMetrics { units_per_em: 12, line_height, default_advance, advances }
}

fn standard_advances() -> Vec<CharAdvance> {
    let pairs: [(char, u64); 12] = [
        ('H', 8),
        ('e', 8),
        ('l', 8),
        ('o', 8),
        ('W', 8),
        ('r', 8),
        ('d', 8),
        ('F', 8),
        ('i', 6),
        ('n', 6),
        ('s', 6),
        (' ', 10),
    ];
    pairs.iter().map(|&(ch, advance)| CharAdvance { ch, advance }).collect()
}

/// A cache whose five faces share the standard advances, except the
/// monospace face, which is wider, so face selection is observable.
fn test_resources() -> Resources {
    let cfg = Config::default();
    let mut res = Resources::new(cfg, String::new());
    res.add_font(
        "mdproof-default-regular".to_string(),
        test_font(standard_advances(), 20, 9),
    );
    res.add_font(
        "mdproof-default-bold".to_string(),
        test_font(standard_advances(), 20, 9),
    );
    res.add_font(
        "mdproof-default-italic".to_string(),
        test_font(standard_advances(), 20, 9),
    );
    res.add_font(
        "mdproof-default-bold-italic".to_string(),
        test_font(standard_advances(), 20, 9),
    );
    res.add_font("mdproof-default-mono".to_string(), test_font(Vec::new(), 24, 12));
    res
}

#[test]
fn width_is_the_sum_of_advances_scaled() {
    let res = test_resources();
    let style = Style::new();
    // em == font size, so widths equal raw advance sums
    assert_eq!(width_of_text(&res, &style, "Hello"), 40);
    assert_eq!(width_of_text(&res, &style, "World"), 40);
    assert_eq!(width_of_text(&res, &style, "Friends"), 50);
    assert_eq!(width_of_text(&res, &style, "Hello World"), 90);
    assert_eq!(width_of_text(&res, &style, ""), 0);
}

#[test]
fn width_scales_with_heading_size() {
    let res = test_resources();
    let mut style = Style::new();
    style.insert(Class::Heading(1));
    // h1 size is 32 against an em of 12: 40 * 32 / 12 = 106 (rounded down)
    assert_eq!(width_of_text(&res, &style, "Hello"), 106);
}

#[test]
fn missing_characters_use_the_fallback_advance() {
    let res = test_resources();
    let style = Style::new();
    // 'z' is not in the table: default advance 9
    assert_eq!(width_of_text(&res, &style, "z"), 9);
}

#[test]
fn code_style_selects_the_monospace_face() {
    let res = test_resources();
    let mut style = Style::new();
    style.insert(Class::Code);
    // the mono face has no table: every char advances 12
    assert_eq!(width_of_text(&res, &style, "Hello"), 60);
    assert_eq!(font_height(&res, &style), 24);
    let f = font_from_style(&res, &style);
    assert_eq!(f.default_advance, 12);
}

#[test]
fn code_beats_strong_and_emphasis() {
    let res = test_resources();
    let mut style = Style::new();
    style.insert(Class::Strong);
    style.insert(Class::Emphasis);
    style.insert(Class::Code);
    let f = font_from_style(&res, &style);
    assert_eq!(f.default_advance, 12);
}

#[test]
fn heading_level_one_beats_lower_levels() {
    let cfg = Config::default();
    let mut style = Style::new();
    style.insert(Class::Heading(4));
    style.insert(Class::Heading(1));
    assert_eq!(scale_from_style(&cfg, &style), cfg.h1_font_size);
}

#[test]
fn body_size_when_no_heading_is_active() {
    let cfg = Config::default();
    let style = Style::new();
    assert_eq!(scale_from_style(&cfg, &style), cfg.default_font_size);
}

#[test]
fn line_height_scales_like_widths() {
    let res = test_resources();
    let style = Style::new();
    assert_eq!(font_height(&res, &style), 20);
    let mut h1 = Style::new();
    h1.insert(Class::Heading(1));
    // 20 * 32 / 12 = 53 (rounded down)
    assert_eq!(font_height(&res, &h1), 53);
}

#[test]
fn sizer_measures_text_atoms() {
    let res = test_resources();
    let sizer = Sizer::new();
    let ev = Event::Atom(Atom::Text { text: "Hello".to_string(), style: Style::new() });
    match sizer.size_event(&res, ev) {
        SizedEvent::SizedAtom(sa) => {
            assert_eq!(sa.width, 40);
            assert_eq!(sa.height, 20);
        }
        _ => panic!("a text atom must come back sized"),
    }
}

#[test]
fn sizer_converts_image_pixels_to_units() {
    let mut res = test_resources();
    // 600 x 300 pixels at 300 dots per inch: 144 x 72 units
    res.add_image("img.png".to_string(), 600, 300);
    let sizer = Sizer::new();
    let ev = Event::Atom(Atom::Image { uri: "img.png".to_string() });
    match sizer.size_event(&res, ev) {
        SizedEvent::SizedAtom(sa) => {
            assert_eq!(sa.width, 144);
            assert_eq!(sa.height, 72);
        }
        _ => panic!("an image atom must come back sized"),
    }
}

#[test]
fn sizer_falls_back_when_an_image_is_missing() {
    let res = test_resources();
    let sizer = Sizer::new();
    let ev = Event::Atom(Atom::Image { uri: "absent.png".to_string() });
    match sizer.size_event(&res, ev) {
        SizedEvent::SizedAtom(sa) => {
            assert_eq!(sa.width, 50);
            assert_eq!(sa.height, 50);
        }
        _ => panic!("a missing image still comes back sized"),
    }
}

#[test]
fn later_font_registration_wins() {
    let mut res = test_resources();
    res.add_font("mdproof-default-regular".to_string(), test_font(Vec::new(), 30, 7));
    let style = Style::new();
    assert_eq!(width_of_text(&res, &style, "H"), 7);
    assert_eq!(font_height(&res, &style), 30);
}

#[test]
fn image_lookup_is_by_path() {
    let mut res = test_resources();
    res.add_image("a.png".to_string(), 10, 20);
    res.add_image("b.png".to_string(), 30, 40);
    assert_eq!(res.get_image("a.png"), Some((10, 20)));
    assert_eq!(res.get_image("b.png"), Some((30, 40)));
    assert_eq!(res.get_image("c.png"), None);
    res.add_image("a.png".to_string(), 11, 21);
    assert_eq!(res.get_image("a.png"), Some((11, 21)));
}
