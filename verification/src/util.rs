//! Saturating length arithmetic and the text-splitting functions the layout
//! engine is built on.
//!
//! Lengths are `u64` document units. Sums that cannot fit saturate at
//! `u64::MAX`; the saturation is part of every contract, so nothing is lost
//! silently.

use vstd::prelude::*;
use crate::resources::{FontMetrics, Resources};
use crate::style::{Class, Style};
use crate::Config;

verus! {

/// A sum clamped into the `u64` range from above.
pub open spec fn sat64(x: int) -> int {
    if x > u64::MAX as int {
        u64::MAX as int
    } else {
        x
    }
}

/// A difference clamped from below at zero.
pub open spec fn sub0(x: int) -> int {
    if x < 0 {
        0
    } else {
        x
    }
}

/// Saturation is sticky: clamping early or late gives the same sum.
pub proof fn lemma_sat_chain(a: int, b: int)
    requires
        b >= 0,
    ensures
        sat64(sat64(a) + b) == sat64(a + b),
{
}

/// Saturating addition of two lengths.
pub fn sat_add(a: u64, b: u64) -> (r: u64)
    ensures
        r as int == sat64(a as int + b as int),
{
    if a > u64::MAX - b {
        u64::MAX
    } else {
        a + b
    }
}

/// Subtraction of lengths, clamped at zero.
pub fn sat_sub(a: u64, b: u64) -> (r: u64)
    ensures
        r as int == sub0(a as int - b as int),
{
    if a < b {
        0
    } else {
        a - b
    }
}

/// `a * b / d` over the integers, clamped into the `u64` range.
pub open spec fn muldiv(a: int, b: int, d: int) -> int
    recommends
        d > 0,
{
    sat64(sub0((a * b) / d))
}

/// Multiply then divide, exact over the integers, saturating at `u64::MAX`.
pub fn mul_div(a: u64, b: u64, d: u64) -> (r: u64)
    requires
        d > 0,
    ensures
        r as int == muldiv(a as int, b as int, d as int),
{
    proof {
        assert((a as int) * (b as int) <= (u64::MAX as int) * (u64::MAX as int))
            by (nonlinear_arith)
            requires
                a as int <= u64::MAX as int,
                b as int <= u64::MAX as int,
                a as int >= 0,
                b as int >= 0,
        ;
        assert((a as int) * (b as int) >= 0) by (nonlinear_arith)
            requires
                a as int >= 0,
                b as int >= 0,
        ;
    }
    let p: u128 = a as u128 * b as u128;
    let q: u128 = p / (d as u128);
    proof {
        assert(q as int == (p as int) / (d as int));
        assert(q as int >= 0);
    }
    if q > u64::MAX as u128 {
        u64::MAX
    } else {
        q as u64
    }
}

/// Whitespace for the purpose of word wrapping: the Unicode white-space
/// characters.
pub open spec fn is_ws(c: char) -> bool {
    ||| c == ' '
    ||| c == '\t'
    ||| c == '\n'
    ||| c == '\u{B}'
    ||| c == '\u{C}'
    ||| c == '\r'
    ||| c == '\u{85}'
    ||| c == '\u{A0}'
    ||| c == '\u{1680}'
    ||| ('\u{2000}' <= c && c <= '\u{200A}')
    ||| c == '\u{2028}'
    ||| c == '\u{2029}'
    ||| c == '\u{202F}'
    ||| c == '\u{205F}'
    ||| c == '\u{3000}'
}

/// Executable test for `is_ws`.
pub fn char_is_ws(c: char) -> (r: bool)
    ensures
        r == is_ws(c),
{
    c == ' ' || c == '\t' || c == '\n' || c == '\u{B}' || c == '\u{C}' || c == '\r'
        || c == '\u{85}' || c == '\u{A0}' || c == '\u{1680}' || ('\u{2000}' <= c && c
        <= '\u{200A}') || c == '\u{2028}' || c == '\u{2029}' || c == '\u{202F}' || c
        == '\u{205F}' || c == '\u{3000}'
}

/// Length of the leading run of non-whitespace characters.
pub open spec fn word_len(s: Seq<char>) -> int
    decreases s.len(),
{
    if s.len() == 0 || is_ws(s[0]) {
        0
    } else {
        1 + word_len(s.skip(1))
    }
}

pub proof fn lemma_word_len_bounds(s: Seq<char>)
    ensures
        0 <= word_len(s) <= s.len(),
        s.len() > 0 && !is_ws(s[0]) ==> word_len(s) >= 1,
    decreases s.len(),
{
    if s.len() == 0 || is_ws(s[0]) {
    } else {
        lemma_word_len_bounds(s.skip(1));
    }
}

/// The words of a text: its maximal runs of non-whitespace characters, in
/// order. This is the boundary the line builder wraps at.
pub open spec fn words_of(s: Seq<char>) -> Seq<Seq<char>>
    decreases s.len(),
    via words_of_dec
{
    if s.len() == 0 {
        Seq::empty()
    } else if is_ws(s[0]) {
        words_of(s.skip(1))
    } else {
        seq![s.take(word_len(s))] + words_of(s.skip(word_len(s)))
    }
}

#[via_fn]
proof fn words_of_dec(s: Seq<char>) {
    lemma_word_len_bounds(s);
}

/// A word run of known length: all of the first `m` characters are
/// non-whitespace and the run stops at `m`.
pub proof fn lemma_word_run(s: Seq<char>, m: int)
    requires
        0 < m <= s.len(),
        forall|k: int| 0 <= k < m ==> !is_ws(s[k]),
        m == s.len() || is_ws(s[m]),
    ensures
        word_len(s) == m,
    decreases m,
{
    assert(!is_ws(s[0]));
    assert(word_len(s) == 1 + word_len(s.skip(1)));
    if m == 1 {
        if s.len() == 1 {
            assert(s.skip(1).len() == 0);
            assert(word_len(s.skip(1)) == 0);
        } else {
            assert(s.skip(1)[0] == s[1]);
            assert(is_ws(s.skip(1)[0]));
            assert(word_len(s.skip(1)) == 0);
        }
    } else {
        assert forall|k: int| 0 <= k < m - 1 implies !is_ws(#[trigger] s.skip(1)[k]) by {
            assert(s.skip(1)[k] == s[k + 1]);
        }
        if m - 1 < s.skip(1).len() {
            assert(s.skip(1)[m - 1] == s[m]);
            assert(is_ws(s.skip(1)[m - 1]));
        }
        lemma_word_run(s.skip(1), m - 1);
    }
}

/// Length of the leading run of characters before a newline.
pub open spec fn line_len(s: Seq<char>) -> int
    decreases s.len(),
{
    if s.len() == 0 || s[0] == '\n' {
        0
    } else {
        1 + line_len(s.skip(1))
    }
}

pub proof fn lemma_line_len_bounds(s: Seq<char>)
    ensures
        0 <= line_len(s) <= s.len(),
        forall|k: int| 0 <= k < line_len(s) ==> s[k] != '\n',
        line_len(s) < s.len() ==> s[line_len(s)] == '\n',
    decreases s.len(),
{
    if s.len() == 0 || s[0] == '\n' {
    } else {
        lemma_line_len_bounds(s.skip(1));
        assert forall|k: int| 0 <= k < line_len(s) implies s[k] != '\n' by {
            if k > 0 {
                assert(s.skip(1)[k - 1] == s[k]);
            }
        }
        if line_len(s) < s.len() {
            assert(s.skip(1)[line_len(s) - 1] == s[line_len(s)]);
        }
    }
}

/// The physical lines of a text: the substrings between newline characters.
/// A text with `n` newlines has exactly `n + 1` lines, and joining the lines
/// with newlines gives the text back unchanged.
pub open spec fn lines_of(s: Seq<char>) -> Seq<Seq<char>>
    decreases s.len(),
    via lines_of_dec
{
    if line_len(s) == s.len() {
        seq![s]
    } else {
        seq![s.take(line_len(s))] + lines_of(s.skip(line_len(s) + 1))
    }
}

#[via_fn]
proof fn lines_of_dec(s: Seq<char>) {
    lemma_line_len_bounds(s);
}

/// Words joined back together with single spaces between them.
pub open spec fn join_words(ws: Seq<Seq<char>>) -> Seq<char>
    decreases ws.len(),
{
    if ws.len() == 0 {
        Seq::empty()
    } else if ws.len() == 1 {
        ws[0]
    } else {
        ws[0] + seq![' '] + join_words(ws.skip(1))
    }
}

pub proof fn lemma_join_words_snoc(ws: Seq<Seq<char>>, w: Seq<char>)
    ensures
        join_words(ws.push(w)) == if ws.len() == 0 {
            w
        } else {
            join_words(ws) + seq![' '] + w
        },
    decreases ws.len(),
{
    if ws.len() == 0 {
        assert(ws.push(w)[0] == w);
    } else if ws.len() == 1 {
        assert(ws.push(w)[0] == ws[0]);
        assert(ws.push(w).skip(1) =~= seq![w]);
        assert(join_words(seq![w]) == w);
        assert(join_words(ws.push(w)) =~= join_words(ws) + seq![' '] + w);
    } else {
        assert(ws.push(w)[0] == ws[0]);
        assert(ws.push(w).skip(1) =~= ws.skip(1).push(w));
        lemma_join_words_snoc(ws.skip(1), w);
        assert(join_words(ws.push(w)) =~= join_words(ws) + seq![' '] + w);
    }
}

/// One more word extends a joined group by a separating space.
pub proof fn lemma_join_sub_snoc(w: Seq<Seq<char>>, a: int, b: int)
    requires
        0 <= a <= b < w.len(),
    ensures
        join_words(w.subrange(a, b + 1)) == if a == b {
            w[b]
        } else {
            join_words(w.subrange(a, b)) + seq![' '] + w[b]
        },
{
    assert(w.subrange(a, b + 1) =~= w.subrange(a, b).push(w[b]));
    lemma_join_words_snoc(w.subrange(a, b), w[b]);
    if a == b {
        assert(w.subrange(a, b).len() == 0);
    }
}

/// The cut positions `cuts` partition the words of `w` between `from`
/// and `to` into consecutive groups: the i-th text is the i-th group
/// joined by single spaces, and the i-th cut is where that group ends.
pub open spec fn covers_with_cuts(
    w: Seq<Seq<char>>,
    texts: Seq<Seq<char>>,
    cuts: Seq<int>,
    from: int,
    to: int,
) -> bool
    decreases texts.len(),
{
    if texts.len() == 0 {
        from == to && cuts.len() == 0
    } else {
        &&& cuts.len() == texts.len()
        &&& from <= cuts[0] <= to
        &&& texts[0] == join_words(w.subrange(from, cuts[0]))
        &&& covers_with_cuts(w, texts.skip(1), cuts.skip(1), cuts[0], to)
    }
}


/// A partition has as many cuts as texts, each between the ends.
pub proof fn covers_with_cuts_len(
    w: Seq<Seq<char>>,
    texts: Seq<Seq<char>>,
    cuts: Seq<int>,
    from: int,
    to: int,
)
    requires
        covers_with_cuts(w, texts, cuts, from, to),
    ensures
        cuts.len() == texts.len(),
        forall|j: int| 0 <= j < cuts.len() ==> from <= #[trigger] cuts[j] <= to,
    decreases texts.len(),
{
    if texts.len() > 0 {
        covers_with_cuts_len(w, texts.skip(1), cuts.skip(1), cuts[0], to);
        assert forall|j: int| 0 <= j < cuts.len() implies from <= #[trigger] cuts[j] <= to by {
            if j > 0 {
                assert(cuts.skip(1)[j - 1] == cuts[j]);
            }
        }
    }
}

/// A partition may be extended by one more group at its end.
pub proof fn lemma_covers_snoc(
    w: Seq<Seq<char>>,
    texts: Seq<Seq<char>>,
    cuts: Seq<int>,
    from: int,
    s: int,
    s2: int,
    t: Seq<char>,
)
    requires
        covers_with_cuts(w, texts, cuts, from, s),
        from <= s <= s2,
        t == join_words(w.subrange(s, s2)),
    ensures
        covers_with_cuts(w, texts.push(t), cuts.push(s2), from, s2),
    decreases texts.len(),
{
    if texts.len() == 0 {
        assert(from == s);
        assert(texts.push(t)[0] == t);
        assert(cuts.push(s2)[0] == s2);
        assert(texts.push(t).skip(1) =~= Seq::<Seq<char>>::empty());
        assert(cuts.push(s2).skip(1) =~= Seq::<int>::empty());
        assert(covers_with_cuts(w, texts.push(t).skip(1), cuts.push(s2).skip(1), s2, s2));
    } else {
        lemma_covers_snoc(w, texts.skip(1), cuts.skip(1), cuts[0], s, s2, t);
        assert(texts.push(t)[0] == texts[0]);
        assert(cuts.push(s2)[0] == cuts[0]);
        assert(texts.push(t).skip(1) =~= texts.skip(1).push(t));
        assert(cuts.push(s2).skip(1) =~= cuts.skip(1).push(s2));
    }
}

/// A newline-free run of known length stops exactly there.
pub proof fn lemma_line_run(s: Seq<char>, m: int)
    requires
        0 <= m <= s.len(),
        forall|k: int| 0 <= k < m ==> s[k] != '\n',
        m == s.len() || s[m] == '\n',
    ensures
        line_len(s) == m,
    decreases m,
{
    if m == 0 {
    } else {
        assert(s[0] != '\n');
        assert(line_len(s) == 1 + line_len(s.skip(1)));
        assert forall|k: int| 0 <= k < m - 1 implies s.skip(1)[k] != '\n' by {
            assert(s.skip(1)[k] == s[k + 1]);
        }
        if m - 1 < s.skip(1).len() {
            assert(s.skip(1)[m - 1] == s[m]);
        }
        lemma_line_run(s.skip(1), m - 1);
    }
}

/// Every word is nonempty and starts with a non-whitespace character.
pub proof fn lemma_words_of_shape(s: Seq<char>)
    ensures
        forall|i: int| 0 <= i < words_of(s).len()
            ==> (#[trigger] words_of(s)[i]).len() > 0 && !is_ws(words_of(s)[i][0]),
    decreases s.len(),
{
    lemma_word_len_bounds(s);
    if s.len() == 0 {
    } else if is_ws(s[0]) {
        lemma_words_of_shape(s.skip(1));
        assert(words_of(s) == words_of(s.skip(1)));
        assert forall|i: int| 0 <= i < words_of(s).len()
            implies (#[trigger] words_of(s)[i]).len() > 0 && !is_ws(words_of(s)[i][0]) by {
            assert(words_of(s)[i] == words_of(s.skip(1))[i]);
        }
    } else {
        let wl = word_len(s);
        lemma_words_of_shape(s.skip(wl));
        assert(words_of(s) == seq![s.take(wl)] + words_of(s.skip(wl)));
        assert forall|i: int| 0 <= i < words_of(s).len()
            implies (#[trigger] words_of(s)[i]).len() > 0 && !is_ws(words_of(s)[i][0]) by {
            if i == 0 {
                assert(words_of(s)[0] == s.take(wl));
                assert(s.take(wl)[0] == s[0]);
            } else {
                assert(words_of(s)[i] == words_of(s.skip(wl))[i - 1]);
            }
        }
    }
}

/// How many times a character occurs in a text.
pub open spec fn count_char(s: Seq<char>, c: char) -> int
    decreases s.len(),
{
    if s.len() == 0 {
        0
    } else {
        (if s[0] == c {
            1int
        } else {
            0int
        }) + count_char(s.skip(1), c)
    }
}

proof fn lemma_count_skip_clean(s: Seq<char>, m: int)
    requires
        0 <= m <= s.len(),
        forall|k: int| 0 <= k < m ==> s[k] != '\n',
    ensures
        count_char(s, '\n') == count_char(s.skip(m), '\n'),
    decreases m,
{
    if m == 0 {
        assert(s.skip(0) =~= s);
    } else {
        assert(forall|k: int| 0 <= k < m - 1 ==> #[trigger] s.skip(1)[k] != '\n');
        lemma_count_skip_clean(s.skip(1), m - 1);
        assert(s.skip(1).skip(m - 1) =~= s.skip(m));
    }
}

/// The line count of a text is its newline count plus one.
pub proof fn lemma_lines_of_count(s: Seq<char>)
    ensures
        lines_of(s).len() == count_char(s, '\n') + 1,
    decreases s.len(),
{
    lemma_line_len_bounds(s);
    let k = line_len(s);
    if k == s.len() {
        lemma_count_skip_clean(s, k);
        assert(s.skip(k).len() == 0);
    } else {
        lemma_count_skip_clean(s, k);
        assert(count_char(s.skip(k), '\n') == 1 + count_char(s.skip(k).skip(1), '\n'));
        assert(s.skip(k).skip(1) =~= s.skip(k + 1));
        lemma_lines_of_count(s.skip(k + 1));
    }
}

/// Lines joined back together with newline characters between them.
pub open spec fn join_lines(rows: Seq<Seq<char>>) -> Seq<char>
    decreases rows.len(),
{
    if rows.len() == 0 {
        Seq::empty()
    } else if rows.len() == 1 {
        rows[0]
    } else {
        rows[0] + seq!['\n'] + join_lines(rows.skip(1))
    }
}

/// Splitting a text into lines loses nothing: joining the lines with
/// newlines restores the text verbatim.
pub proof fn lemma_lines_of_join(s: Seq<char>)
    ensures
        join_lines(lines_of(s)) == s,
    decreases s.len(),
{
    lemma_line_len_bounds(s);
    let k = line_len(s);
    if k == s.len() {
    } else {
        lemma_lines_of_join(s.skip(k + 1));
        let rows = lines_of(s);
        assert(rows.skip(1) =~= lines_of(s.skip(k + 1)));
        assert(join_lines(rows) =~= s.take(k) + seq!['\n'] + s.skip(k + 1)) by {
            assert(rows.len() >= 2);
            assert(rows[0] == s.take(k));
        }
        assert(s.take(k) + seq!['\n'] + s.skip(k + 1) =~= s);
    }
}

/// The name of the typeface a style selects: monospace beats bold plus
/// italic, which beats bold alone or italic alone, which beats the default
/// face.
pub open spec fn spec_font_name(cfg: Config, style: Style) -> Seq<char> {
    if style@.contains(Class::Code) {
        cfg.mono_font@
    } else if style@.contains(Class::Strong) && style@.contains(Class::Emphasis) {
        cfg.bold_italic_font@
    } else if style@.contains(Class::Strong) {
        cfg.bold_font@
    } else if style@.contains(Class::Emphasis) {
        cfg.italic_font@
    } else {
        cfg.default_font@
    }
}

/// The font size a style selects: the highest active heading level wins,
/// level 1 being the highest; otherwise the body size.
pub open spec fn spec_font_size(cfg: Config, style: Style) -> u64 {
    if style@.contains(Class::Heading(1)) {
        cfg.h1_font_size
    } else if style@.contains(Class::Heading(2)) {
        cfg.h2_font_size
    } else if style@.contains(Class::Heading(3)) {
        cfg.h3_font_size
    } else if style@.contains(Class::Heading(4)) {
        cfg.h4_font_size
    } else {
        cfg.default_font_size
    }
}

/// A ready resource cache can resolve the typeface of any style.
pub proof fn lemma_fonts_ready_any_style(res: Resources, style: Style)
    requires
        res.fonts_ready(),
    ensures
        res.spec_get_font(spec_font_name(res.cfg, style)) matches Some(f) && f.wf(),
{
}

/// The typeface a style selects, out of the five the configuration names.
pub fn font_from_style<'r>(resources: &'r Resources, style: &Style) -> (f: &'r FontMetrics)
    requires
        resources.fonts_ready(),
    ensures
        Some(*f) == resources.spec_get_font(spec_font_name(resources.cfg, *style)),
        f.wf(),
{
    let code = style.contains(&Class::Code);
    let strong = style.contains(&Class::Strong);
    let emphasis = style.contains(&Class::Emphasis);
    let name: &String = if code {
        &resources.cfg.mono_font
    } else if strong && emphasis {
        &resources.cfg.bold_italic_font
    } else if strong {
        &resources.cfg.bold_font
    } else if emphasis {
        &resources.cfg.italic_font
    } else {
        &resources.cfg.default_font
    };
    proof {
        lemma_fonts_ready_any_style(*resources, *style);
    }
    match resources.get_font(name.as_str()) {
        Some(f) => f,
        None => vstd::pervasive::unreached(),
    }
}

/// The font size a style selects.
pub fn scale_from_style(cfg: &Config, style: &Style) -> (r: u64)
    ensures
        r == spec_font_size(*cfg, *style),
{
    if style.contains(&Class::Heading(1)) {
        cfg.h1_font_size
    } else if style.contains(&Class::Heading(2)) {
        cfg.h2_font_size
    } else if style.contains(&Class::Heading(3)) {
        cfg.h3_font_size
    } else if style.contains(&Class::Heading(4)) {
        cfg.h4_font_size
    } else {
        cfg.default_font_size
    }
}

/// The glyph-space advance of a text in a font: the saturating sum of its
/// characters' advances.
pub open spec fn glyph_sum(f: FontMetrics, s: Seq<char>) -> int
    decreases s.len(),
{
    if s.len() == 0 {
        0
    } else {
        sat64(glyph_sum(f, s.drop_last()) + f.spec_advance(s.last()))
    }
}

pub proof fn lemma_glyph_sum_bounds(f: FontMetrics, s: Seq<char>)
    ensures
        0 <= glyph_sum(f, s) <= u64::MAX,
    decreases s.len(),
{
    if s.len() > 0 {
        lemma_glyph_sum_bounds(f, s.drop_last());
    }
}

/// The width of a text in a font at a size, in document units: the
/// glyph-space advances are summed first and scaled once, so rounding
/// happens once per text. Because the division truncates, this width is
/// deliberately not additive over concatenation: `width(a + b)` may
/// exceed `width(a) + width(b)` by the rounding the parts lost.
pub open spec fn font_text_width(f: FontMetrics, size: u64, s: Seq<char>) -> int
    recommends
        f.wf(),
{
    muldiv(glyph_sum(f, s), size as int, f.units_per_em as int)
}

/// The width of a text under a style, measured against the cache.
pub open spec fn spec_width_of_text(res: Resources, style: Style, s: Seq<char>) -> int {
    font_text_width(
        res.spec_get_font(spec_font_name(res.cfg, style)).unwrap(),
        spec_font_size(res.cfg, style),
        s,
    )
}

/// The line height of a style, measured against the cache.
pub open spec fn spec_font_height(res: Resources, style: Style) -> int {
    let f = res.spec_get_font(spec_font_name(res.cfg, style)).unwrap();
    muldiv(f.line_height as int, spec_font_size(res.cfg, style) as int, f.units_per_em as int)
}

/// Measure the advance width of a text under a style, in document units.
pub fn width_of_text(resources: &Resources, style: &Style, text: &str) -> (w: u64)
    requires
        resources.fonts_ready(),
    ensures
        w as int == spec_width_of_text(*resources, *style, text@),
{
    let f = font_from_style(resources, style);
    let size = scale_from_style(resources.get_config(), style);
    let n = text.unicode_len();
    let mut acc: u64 = 0;
    let mut i: usize = 0;
    proof {
        assert(text@.take(0) =~= Seq::<char>::empty());
    }
    while i < n
        invariant
            i <= n,
            n == text@.len(),
            acc as int == glyph_sum(*f, text@.take(i as int)),
        decreases n - i,
    {
        let c = text.get_char(i);
        acc = sat_add(acc, f.advance(c));
        proof {
            assert(text@.take(i + 1).drop_last() =~= text@.take(i as int));
            assert(text@.take(i + 1).last() == text@[i as int]);
        }
        i += 1;
    }
    proof {
        assert(text@.take(n as int) =~= text@);
    }
    mul_div(acc, size, f.units_per_em)
}

/// Measure the line height of a style, in document units.
pub fn font_height(resources: &Resources, style: &Style) -> (h: u64)
    requires
        resources.fonts_ready(),
    ensures
        h as int == spec_font_height(*resources, *style),
{
    let f = font_from_style(resources, style);
    let size = scale_from_style(resources.get_config(), style);
    mul_div(f.line_height, size, f.units_per_em)
}


/// A text is never narrower than a prefix of it: glyph advances only
/// accumulate.
pub proof fn lemma_glyph_sum_prefix(f: FontMetrics, s1: Seq<char>, s2: Seq<char>)
    ensures
        glyph_sum(f, s1 + s2) >= glyph_sum(f, s1),
    decreases s2.len(),
{
    if s2.len() == 0 {
        assert(s1 + s2 =~= s1);
    } else {
        assert((s1 + s2).drop_last() =~= s1 + s2.drop_last());
        assert((s1 + s2).last() == s2.last());
        lemma_glyph_sum_prefix(f, s1, s2.drop_last());
        lemma_glyph_sum_bounds(f, s1 + s2.drop_last());
    }
}

/// Scaling preserves order: a longer glyph run renders at least as wide.
pub proof fn lemma_muldiv_mono(a1: int, a2: int, b: int, d: int)
    requires
        0 <= a1 <= a2,
        0 <= b,
        0 < d,
    ensures
        muldiv(a1, b, d) <= muldiv(a2, b, d),
{
    assert(a1 * b <= a2 * b) by (nonlinear_arith)
        requires
            0 <= a1 <= a2,
            0 <= b,
    ;
    vstd::arithmetic::div_mod::lemma_div_is_ordered(a1 * b, a2 * b, d);
}

/// Width is monotone over text extension: a text is at least as wide as
/// any of its prefixes, measured under one style.
pub proof fn lemma_width_prefix_mono(res: Resources, style: Style, s1: Seq<char>, s2: Seq<char>)
    requires
        res.fonts_ready(),
    ensures
        spec_width_of_text(res, style, s1 + s2) >= spec_width_of_text(res, style, s1),
{
    lemma_fonts_ready_any_style(res, style);
    let f = res.spec_get_font(spec_font_name(res.cfg, style)).unwrap();
    lemma_glyph_sum_prefix(f, s1, s2);
    lemma_glyph_sum_bounds(f, s1);
    lemma_muldiv_mono(
        glyph_sum(f, s1),
        glyph_sum(f, s1 + s2),
        spec_font_size(res.cfg, style) as int,
        f.units_per_em as int,
    );
}

/// Character-for-character string equality.
pub fn str_eq(a: &str, b: &str) -> (r: bool)
    ensures
        r == (a@ == b@),
{
    let na = a.unicode_len();
    let nb = b.unicode_len();
    if na != nb {
        return false;
    }
    let mut i: usize = 0;
    while i < na
        invariant
            i <= na,
            na == a@.len(),
            na == b@.len(),
            forall|j: int| 0 <= j < i ==> a@[j] == b@[j],
        decreases na - i,
    {
        if a.get_char(i) != b.get_char(i) {
            return false;
        }
        i += 1;
    }
    proof {
        assert(a@ =~= b@);
    }
    true
}

/// Split a text into its whitespace-separated words.
pub fn split_words(text: &str) -> (words: Vec<String>)
    ensures
        words@.map_values(|w: String| w@) == words_of(text@),
{
    let n = text.unicode_len();
    let mut words: Vec<String> = Vec::new();
    let mut i: usize = 0;
    proof {
        assert(text@.skip(0) =~= text@);
        assert(words@.map_values(|w: String| w@) =~= Seq::<Seq<char>>::empty());
    }
    while i < n
        invariant
            i <= n,
            n == text@.len(),
            words_of(text@) == words@.map_values(|w: String| w@) + words_of(
                text@.skip(i as int),
            ),
        decreases n - i,
    {
        let c = text.get_char(i);
        if char_is_ws(c) {
            proof {
                assert(text@.skip(i as int).skip(1) =~= text@.skip(i + 1));
            }
            i += 1;
        } else {
            let start = i;
            let mut j = i + 1;
            while j < n && !char_is_ws(text.get_char(j))
                invariant
                    start < j <= n,
                    n == text@.len(),
                    forall|k: int| start <= k < j ==> !is_ws(text@[k]),
                decreases n - j,
            {
                j += 1;
            }
            let w = text.substring_char(start, j).to_owned();
            proof {
                let rest = text@.skip(start as int);
                let m = (j - start) as int;
                assert forall|k: int| 0 <= k < m implies !is_ws(#[trigger] rest[k]) by {
                    assert(rest[k] == text@[start + k]);
                }
                if m < rest.len() {
                    assert(rest[m] == text@[j as int]);
                    assert(is_ws(rest[m]));
                }
                lemma_word_run(rest, m);
                assert(rest.take(m) =~= text@.subrange(start as int, j as int));
                assert(rest.skip(m) =~= text@.skip(j as int));
                assert(words@.push(w).map_values(|w: String| w@)
                    =~= words@.map_values(|w: String| w@).push(w@));
            }
            words.push(w);
            i = j;
        }
    }
    proof {
        assert(text@.skip(n as int) =~= Seq::<char>::empty());
        assert(words@.map_values(|w: String| w@) + Seq::<Seq<char>>::empty()
            =~= words@.map_values(|w: String| w@));
    }
    words
}

} // verus!
