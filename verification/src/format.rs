use vstd::prelude::*;

use crate::color::{Color, HslColor, RgbColor};
use crate::error::{CompileError, ErrSpec, ThemeError};
use crate::palette::{
    entries_has_key, entries_insert, entries_keys_unique, entries_value,
    palette_contains_key, palette_entries, palette_get, palette_insert, palette_new,
};
use crate::text::{
    clamp_micro, eq_ignore_case, eq_ignore_case_exec, spec_is_number, spec_number_micro,
    spec_split_trim, split_trim, str_eq, strs_view, to_chars,
};

verus! {

// ---- hue tables ----

/// The view of a hue table: each name as its character sequence, with its
/// degree value in micro-degrees.
pub open spec fn hues_view(h: Seq<(String, i64)>) -> Seq<(Seq<char>, i64)> {
    h.map_values(|p: (String, i64)| (p.0@, p.1))
}

/// First-match lookup in a hue table.
pub open spec fn hue_lookup(hs: Seq<(Seq<char>, i64)>, k: Seq<char>) -> Option<i64>
    decreases hs.len(),
{
    if hs.len() == 0 {
        None
    } else if hs[0].0 == k {
        Some(hs[0].1)
    } else {
        hue_lookup(hs.drop_first(), k)
    }
}

fn hue_find(hues: &Vec<(String, i64)>, key: &str) -> (r: Option<i64>)
    ensures
        r == hue_lookup(hues_view(hues@), key@),
{
    let n = hues.len();
    let mut i: usize = 0;
    proof {
        assert(hues_view(hues@).skip(0) =~= hues_view(hues@));
    }
    while i < n
        invariant
            i <= n,
            n == hues@.len(),
            hue_lookup(hues_view(hues@).skip(i as int), key@) == hue_lookup(
                hues_view(hues@),
                key@,
            ),
            forall|j: int| 0 <= j < i ==> (#[trigger] hues_view(hues@)[j]).0 != key@,
        decreases n - i,
    {
        let ghost hv = hues_view(hues@);
        if str_eq(hues[i].0.as_str(), key) {
            proof {
                assert(hv.skip(i as int)[0] == hv[i as int]);
            }
            return Some(hues[i].1);
        }
        proof {
            assert(hv.skip(i as int)[0] == hv[i as int]);
            assert(hv.skip(i as int).drop_first() =~= hv.skip(i + 1));
        }
        i += 1;
    }
    proof {
        assert(hues_view(hues@).skip(n as int) =~= Seq::<(Seq<char>, i64)>::empty());
    }
    None
}

// ---- palette lookup ----

/// Finds a color by name, failing with the missing key when it is absent.
pub fn lookup_color<'a>(key: &str, palette: &'a indexmap::IndexMap<String, Color>) -> (r: Result<
    &'a Color,
    ThemeError,
>)
    requires
        entries_keys_unique(palette_entries(*palette)),
    ensures
        entries_has_key(palette_entries(*palette), key@) ==> (r matches Ok(c) && *c
            == entries_value(palette_entries(*palette), key@)),
        !entries_has_key(palette_entries(*palette), key@) ==> (r matches Err(e) && e@
            == ErrSpec::MissingColor { color: key@ }),
{
    match palette_get(palette, key) {
        Some(c) => {
            proof {
                let es = palette_entries(*palette);
                let i = choose|i: int| 0 <= i < es.len() && #[trigger] es[i] == (key@, *c);
                crate::palette::lemma_index_of_unique(es, i);
            }
            Ok(c)
        },
        None => Err(ThemeError::MissingColor { color: key.to_owned() }),
    }
}

// ---- argument splitting ----

/// Splits a captured argument list on commas, trims each piece and checks
/// the count; a wrong count reports the whole capture.
pub fn split_input(capture: &str, expected_parts: usize) -> (r: Result<Vec<String>, ThemeError>)
    ensures
        spec_split_trim(capture@).len() == expected_parts ==> (r matches Ok(v) && strs_view(v@)
            == spec_split_trim(capture@)),
        spec_split_trim(capture@).len() != expected_parts ==> (r matches Err(e) && e@
            == ErrSpec::InvalidColor { color: capture@ }),
{
    let parts = split_trim(capture);
    if parts.len() != expected_parts {
        return Err(ThemeError::InvalidColor { color: capture.to_owned() });
    }
    proof {
        assert(strs_view(parts@).len() == parts@.len());
    }
    Ok(parts)
}

// ---- color expressions ----
//
// A palette definition string is either a hex literal, one of the five call
// forms `hsl(..)`, `adjust(..)`, `lighten(..)`, `darken(..)`, `mix(..)`
// (their names matched case-insensitively), or invalid.

/// The color a well-formed hex literal denotes.
pub open spec fn spec_hex_rgb(s: Seq<char>) -> Color {
    Color::Rgb(
        RgbColor {
            r: crate::color::hex_byte_val(s, 1) as u8,
            g: crate::color::hex_byte_val(s, 3) as u8,
            b: crate::color::hex_byte_val(s, 5) as u8,
        },
    )
}

/// Whether the string is `name(...)`: the name case-insensitively, an
/// opening parenthesis right after it, and a closing one at the very end.
pub open spec fn match_call(s: Seq<char>, name: Seq<char>) -> bool {
    s.len() >= name.len() + 2 && eq_ignore_case(s.take(name.len() as int), name) && s[name.len() as int]
        == '(' && s.last() == ')'
}

/// Everything between the two parentheses.
pub open spec fn call_inner(s: Seq<char>, name: Seq<char>) -> Seq<char> {
    s.subrange(name.len() as int + 1, s.len() - 1)
}

fn call_match(chars: &Vec<char>, name: &str) -> (r: bool)
    ensures
        r == match_call(chars@, name@),
{
    let k = name.unicode_len();
    if chars.len() < 2 || chars.len() - 2 < k {
        return false;
    }
    let mut i: usize = 0;
    while i < k
        invariant
            i <= k,
            k == name@.len(),
            chars@.len() >= k + 2,
            forall|j: int|
                0 <= j < i ==> crate::text::lower_char(chars@[j]) == crate::text::lower_char(
                    #[trigger] name@[j],
                ),
        decreases k - i,
    {
        if crate::text::lower_char_exec(chars[i]) != crate::text::lower_char_exec(
            name.get_char(i),
        ) {
            proof {
                assert(chars@.take(k as int)[i as int] == chars@[i as int]);
            }
            return false;
        }
        i += 1;
    }
    proof {
        assert forall|j: int| 0 <= j < k implies crate::text::lower_char(
            #[trigger] chars@.take(k as int)[j],
        ) == crate::text::lower_char(name@[j]) by {
            assert(chars@.take(k as int)[j] == chars@[j]);
        }
        assert(eq_ignore_case(chars@.take(k as int), name@));
    }
    if chars[k] != '(' {
        return false;
    }
    if chars[chars.len() - 1] != ')' {
        return false;
    }
    true
}

/// The meaning of the three `hsl` arguments once the argument list has the
/// right shape: a `$name` first argument goes through the hue table, a
/// number stands for degrees; saturation and lightness follow, and the
/// three range checks of construction run in order.
pub open spec fn spec_hsl_parts(
    parts: Seq<Seq<char>>,
    hues: Option<Seq<(Seq<char>, i64)>>,
) -> Result<HslColor, ErrSpec>
    recommends
        parts.len() == 3,
{
    if parts[0].len() > 0 && parts[0][0] == '$' {
        let key = parts[0].drop_first();
        match hues {
            None => Err(ErrSpec::MissingHueSection { hue: key }),
            Some(hs) => match hue_lookup(hs, key) {
                None => Err(ErrSpec::MissingHue { hue: key }),
                Some(hd) => spec_hsl_new(hd as int, parts[1], parts[2]),
            },
        }
    } else if !spec_is_number(parts[0]) {
        Err(ErrSpec::InvalidColor { color: parts[0] })
    } else {
        spec_hsl_new(clamp_micro(spec_number_micro(parts[0])), parts[1], parts[2])
    }
}

pub open spec fn spec_hsl_new(hue: int, p1: Seq<char>, p2: Seq<char>) -> Result<
    HslColor,
    ErrSpec,
> {
    if !spec_is_number(p1) {
        Err(ErrSpec::InvalidColor { color: p1 })
    } else if !spec_is_number(p2) {
        Err(ErrSpec::InvalidColor { color: p2 })
    } else {
        let sm = clamp_micro(spec_number_micro(p1));
        let lm = clamp_micro(spec_number_micro(p2));
        if !(0 <= hue <= 360_000_000) {
            Err(ErrSpec::Hue { found: hue })
        } else if !(0 <= sm <= 1_000_000) {
            Err(ErrSpec::Saturation { found: sm })
        } else if !(0 <= lm <= 1_000_000) {
            Err(ErrSpec::Lightness { found: lm })
        } else {
            Ok(HslColor::spec_new(hue, sm, lm))
        }
    }
}

/// The meaning of the three `adjust` arguments: a declared name, then the
/// two deltas.
pub open spec fn spec_adjust_parts(parts: Seq<Seq<char>>, es: Seq<(Seq<char>, Color)>) -> Result<
    Color,
    ErrSpec,
>
    recommends
        parts.len() == 3,
{
    if !entries_has_key(es, parts[0]) {
        Err(ErrSpec::MissingColor { color: parts[0] })
    } else if !spec_is_number(parts[1]) {
        Err(ErrSpec::InvalidColor { color: parts[1] })
    } else if !spec_is_number(parts[2]) {
        Err(ErrSpec::InvalidColor { color: parts[2] })
    } else {
        Ok(
            entries_value(es, parts[0]).spec_adjust(
                clamp_micro(spec_number_micro(parts[1])),
                clamp_micro(spec_number_micro(parts[2])),
            ),
        )
    }
}

pub open spec fn spec_lighten_parts(parts: Seq<Seq<char>>, es: Seq<(Seq<char>, Color)>) -> Result<
    Color,
    ErrSpec,
>
    recommends
        parts.len() == 2,
{
    if !entries_has_key(es, parts[0]) {
        Err(ErrSpec::MissingColor { color: parts[0] })
    } else if !spec_is_number(parts[1]) {
        Err(ErrSpec::InvalidColor { color: parts[1] })
    } else {
        Ok(entries_value(es, parts[0]).spec_lighten(clamp_micro(spec_number_micro(parts[1]))))
    }
}

pub open spec fn spec_darken_parts(parts: Seq<Seq<char>>, es: Seq<(Seq<char>, Color)>) -> Result<
    Color,
    ErrSpec,
>
    recommends
        parts.len() == 2,
{
    if !entries_has_key(es, parts[0]) {
        Err(ErrSpec::MissingColor { color: parts[0] })
    } else if !spec_is_number(parts[1]) {
        Err(ErrSpec::InvalidColor { color: parts[1] })
    } else {
        Ok(entries_value(es, parts[0]).spec_darken(clamp_micro(spec_number_micro(parts[1]))))
    }
}

/// The meaning of the three `mix` arguments: two declared names and a
/// weight in `[0, 1]`.
pub open spec fn spec_mix_parts(parts: Seq<Seq<char>>, es: Seq<(Seq<char>, Color)>) -> Result<
    Color,
    ErrSpec,
>
    recommends
        parts.len() == 3,
{
    if !entries_has_key(es, parts[0]) {
        Err(ErrSpec::MissingColor { color: parts[0] })
    } else if !entries_has_key(es, parts[1]) {
        Err(ErrSpec::MissingColor { color: parts[1] })
    } else if !spec_is_number(parts[2]) {
        Err(ErrSpec::InvalidColor { color: parts[2] })
    } else {
        let w = clamp_micro(spec_number_micro(parts[2]));
        if !(0 <= w <= 1_000_000) {
            Err(ErrSpec::Mix { found: w })
        } else {
            Ok(
                Color::Rgb(
                    crate::color::spec_mix(
                        entries_value(es, parts[0]),
                        entries_value(es, parts[1]),
                        w,
                    ),
                ),
            )
        }
    }
}

/// What one definition string resolves to against the palette built so far
/// and the hue table: the first of the six forms that fits, or the invalid
/// expression failure.
pub open spec fn spec_resolve_entry(
    value: Seq<char>,
    es: Seq<(Seq<char>, Color)>,
    hues: Option<Seq<(Seq<char>, i64)>>,
) -> Result<Color, ErrSpec> {
    if value.len() > 0 && value[0] == '#' {
        if crate::color::is_hex_color(value) {
            Ok(spec_hex_rgb(value))
        } else {
            Err(ErrSpec::HexFormat { found: value })
        }
    } else if match_call(value, "hsl"@) {
        let parts = spec_split_trim(call_inner(value, "hsl"@));
        if parts.len() != 3 {
            Err(ErrSpec::InvalidColor { color: call_inner(value, "hsl"@) })
        } else {
            match spec_hsl_parts(parts, hues) {
                Ok(h) => Ok(Color::Hsl(h)),
                Err(e) => Err(e),
            }
        }
    } else if match_call(value, "adjust"@) {
        let parts = spec_split_trim(call_inner(value, "adjust"@));
        if parts.len() != 3 {
            Err(ErrSpec::InvalidColor { color: call_inner(value, "adjust"@) })
        } else {
            spec_adjust_parts(parts, es)
        }
    } else if match_call(value, "lighten"@) {
        let parts = spec_split_trim(call_inner(value, "lighten"@));
        if parts.len() != 2 {
            Err(ErrSpec::InvalidColor { color: call_inner(value, "lighten"@) })
        } else {
            spec_lighten_parts(parts, es)
        }
    } else if match_call(value, "darken"@) {
        let parts = spec_split_trim(call_inner(value, "darken"@));
        if parts.len() != 2 {
            Err(ErrSpec::InvalidColor { color: call_inner(value, "darken"@) })
        } else {
            spec_darken_parts(parts, es)
        }
    } else if match_call(value, "mix"@) {
        let parts = spec_split_trim(call_inner(value, "mix"@));
        if parts.len() != 3 {
            Err(ErrSpec::InvalidColor { color: call_inner(value, "mix"@) })
        } else {
            spec_mix_parts(parts, es)
        }
    } else {
        Err(ErrSpec::InvalidColor { color: value })
    }
}

/// The view of an optional hue table.
pub open spec fn opt_hues_view(h: Option<Vec<(String, i64)>>) -> Option<Seq<(Seq<char>, i64)>> {
    match h {
        Some(v) => Some(hues_view(v@)),
        None => None,
    }
}

fn hsl_from_parts(hue: i64, p1: &String, p2: &String) -> (r: Result<HslColor, CompileError>)
    ensures
        match spec_hsl_new(hue as int, p1@, p2@) {
            Ok(c) => r matches Ok(x) && x == c,
            Err(e) => r matches Err(x) && x@ == e,
        },
{
    let sm = match crate::text::parse_micro(p1.as_str()) {
        Some(v) => v,
        None => {
            return Err(CompileError::Theme(ThemeError::InvalidColor { color: p1.clone() }));
        },
    };
    let lm = match crate::text::parse_micro(p2.as_str()) {
        Some(v) => v,
        None => {
            return Err(CompileError::Theme(ThemeError::InvalidColor { color: p2.clone() }));
        },
    };
    match HslColor::new(hue, sm, lm) {
        Ok(c) => Ok(c),
        Err(e) => Err(CompileError::Hsl(e)),
    }
}

/// Resolves the three arguments of an `hsl(...)` form.
pub fn parse_hsl_color(parts: &Vec<String>, hues: &Option<Vec<(String, i64)>>) -> (r: Result<
    HslColor,
    CompileError,
>)
    requires
        parts@.len() == 3,
    ensures
        match spec_hsl_parts(strs_view(parts@), opt_hues_view(*hues)) {
            Ok(c) => r matches Ok(x) && x == c,
            Err(e) => r matches Err(x) && x@ == e,
        },
{
    let p0 = &parts[0];
    let chars0 = to_chars(p0.as_str());
    proof {
        assert(strs_view(parts@)[0] == parts@[0]@);
        assert(strs_view(parts@)[1] == parts@[1]@);
        assert(strs_view(parts@)[2] == parts@[2]@);
    }
    if chars0.len() > 0 && chars0[0] == '$' {
        let key = p0.as_str().substring_char(1, chars0.len());
        proof {
            assert(key@ =~= parts@[0]@.drop_first());
        }
        match hues {
            None => Err(CompileError::Theme(ThemeError::MissingHueSection { hue: key.to_owned() })),
            Some(hs) => match hue_find(hs, key) {
                None => Err(
                    CompileError::Theme(ThemeError::MissingHue { hue: key.to_owned() }),
                ),
                Some(hd) => hsl_from_parts(hd, &parts[1], &parts[2]),
            },
        }
    } else {
        match crate::text::parse_micro(p0.as_str()) {
            None => Err(CompileError::Theme(ThemeError::InvalidColor { color: p0.clone() })),
            Some(hd) => hsl_from_parts(hd, &parts[1], &parts[2]),
        }
    }
}

/// Resolves the three arguments of an `adjust(...)` form.
pub fn adjust_color(parts: &Vec<String>, palette: &indexmap::IndexMap<String, Color>) -> (r:
    Result<Color, CompileError>)
    requires
        parts@.len() == 3,
        entries_keys_unique(palette_entries(*palette)),
    ensures
        match spec_adjust_parts(strs_view(parts@), palette_entries(*palette)) {
            Ok(c) => r matches Ok(x) && x == c,
            Err(e) => r matches Err(x) && x@ == e,
        },
{
    proof {
        assert(strs_view(parts@)[0] == parts@[0]@);
        assert(strs_view(parts@)[1] == parts@[1]@);
        assert(strs_view(parts@)[2] == parts@[2]@);
    }
    let c = match lookup_color(parts[0].as_str(), palette) {
        Ok(c) => c,
        Err(e) => {
            return Err(CompileError::Theme(e));
        },
    };
    let ds = match crate::text::parse_micro(parts[1].as_str()) {
        Some(v) => v,
        None => {
            return Err(
                CompileError::Theme(ThemeError::InvalidColor { color: parts[1].clone() }),
            );
        },
    };
    let dl = match crate::text::parse_micro(parts[2].as_str()) {
        Some(v) => v,
        None => {
            return Err(
                CompileError::Theme(ThemeError::InvalidColor { color: parts[2].clone() }),
            );
        },
    };
    Ok(c.adjust(ds, dl))
}

/// Resolves the two arguments of a `lighten(...)` form.
pub fn lighten_color(parts: &Vec<String>, palette: &indexmap::IndexMap<String, Color>) -> (r:
    Result<Color, CompileError>)
    requires
        parts@.len() == 2,
        entries_keys_unique(palette_entries(*palette)),
    ensures
        match spec_lighten_parts(strs_view(parts@), palette_entries(*palette)) {
            Ok(c) => r matches Ok(x) && x == c,
            Err(e) => r matches Err(x) && x@ == e,
        },
{
    proof {
        assert(strs_view(parts@)[0] == parts@[0]@);
        assert(strs_view(parts@)[1] == parts@[1]@);
    }
    let c = match lookup_color(parts[0].as_str(), palette) {
        Ok(c) => c,
        Err(e) => {
            return Err(CompileError::Theme(e));
        },
    };
    let amount = match crate::text::parse_micro(parts[1].as_str()) {
        Some(v) => v,
        None => {
            return Err(
                CompileError::Theme(ThemeError::InvalidColor { color: parts[1].clone() }),
            );
        },
    };
    Ok(c.lighten(amount))
}

/// Resolves the two arguments of a `darken(...)` form.
pub fn darken_color(parts: &Vec<String>, palette: &indexmap::IndexMap<String, Color>) -> (r:
    Result<Color, CompileError>)
    requires
        parts@.len() == 2,
        entries_keys_unique(palette_entries(*palette)),
    ensures
        match spec_darken_parts(strs_view(parts@), palette_entries(*palette)) {
            Ok(c) => r matches Ok(x) && x == c,
            Err(e) => r matches Err(x) && x@ == e,
        },
{
    proof {
        assert(strs_view(parts@)[0] == parts@[0]@);
        assert(strs_view(parts@)[1] == parts@[1]@);
    }
    let c = match lookup_color(parts[0].as_str(), palette) {
        Ok(c) => c,
        Err(e) => {
            return Err(CompileError::Theme(e));
        },
    };
    let amount = match crate::text::parse_micro(parts[1].as_str()) {
        Some(v) => v,
        None => {
            return Err(
                CompileError::Theme(ThemeError::InvalidColor { color: parts[1].clone() }),
            );
        },
    };
    Ok(c.darken(amount))
}

/// Resolves the three arguments of a `mix(...)` form.
pub fn mix_colors(parts: &Vec<String>, palette: &indexmap::IndexMap<String, Color>) -> (r: Result<
    Color,
    CompileError,
>)
    requires
        parts@.len() == 3,
        entries_keys_unique(palette_entries(*palette)),
    ensures
        match spec_mix_parts(strs_view(parts@), palette_entries(*palette)) {
            Ok(c) => r matches Ok(x) && x == c,
            Err(e) => r matches Err(x) && x@ == e,
        },
{
    proof {
        assert(strs_view(parts@)[0] == parts@[0]@);
        assert(strs_view(parts@)[1] == parts@[1]@);
        assert(strs_view(parts@)[2] == parts@[2]@);
    }
    let c1 = match lookup_color(parts[0].as_str(), palette) {
        Ok(c) => c,
        Err(e) => {
            return Err(CompileError::Theme(e));
        },
    };
    let c2 = match lookup_color(parts[1].as_str(), palette) {
        Ok(c) => c,
        Err(e) => {
            return Err(CompileError::Theme(e));
        },
    };
    let w = match crate::text::parse_micro(parts[2].as_str()) {
        Some(v) => v,
        None => {
            return Err(
                CompileError::Theme(ThemeError::InvalidColor { color: parts[2].clone() }),
            );
        },
    };
    match crate::color::mix(c1, c2, w) {
        Ok(c) => Ok(Color::Rgb(c)),
        Err(e) => Err(CompileError::Rgb(e)),
    }
}

/// Resolves one definition string against the palette built so far and the
/// hue table.
pub fn parse_palette_entry(
    value: &str,
    palette: &indexmap::IndexMap<String, Color>,
    hues: &Option<Vec<(String, i64)>>,
) -> (r: Result<Color, CompileError>)
    requires
        entries_keys_unique(palette_entries(*palette)),
    ensures
        match spec_resolve_entry(value@, palette_entries(*palette), opt_hues_view(*hues)) {
            Ok(c) => r matches Ok(x) && x == c,
            Err(e) => r matches Err(x) && x@ == e,
        },
{
    let chars = to_chars(value);
    if chars.len() > 0 && chars[0] == '#' {
        match RgbColor::parse_from_hex(value) {
            Ok(c) => {
                proof {
                    assert(crate::color::is_hex_color(value@));
                    assert(crate::color::is_hex_digit(value@[1]) && crate::color::is_hex_digit(
                        value@[2],
                    ) && crate::color::is_hex_digit(value@[3]) && crate::color::is_hex_digit(
                        value@[4],
                    ) && crate::color::is_hex_digit(value@[5]) && crate::color::is_hex_digit(
                        value@[6],
                    ));
                }
                Ok(Color::Rgb(c))
            },
            Err(e) => Err(CompileError::Rgb(e)),
        }
    } else if call_match(&chars, "hsl") {
        proof {
            reveal_strlit("hsl");
        }
        let inner = value.substring_char(4, chars.len() - 1);
        proof {
            assert(inner@ =~= call_inner(value@, "hsl"@));
        }
        match split_input(inner, 3) {
            Err(e) => Err(CompileError::Theme(e)),
            Ok(parts) => match parse_hsl_color(&parts, hues) {
                Ok(h) => Ok(Color::Hsl(h)),
                Err(e) => Err(e),
            },
        }
    } else if call_match(&chars, "adjust") {
        proof {
            reveal_strlit("adjust");
        }
        let inner = value.substring_char(7, chars.len() - 1);
        proof {
            assert(inner@ =~= call_inner(value@, "adjust"@));
        }
        match split_input(inner, 3) {
            Err(e) => Err(CompileError::Theme(e)),
            Ok(parts) => adjust_color(&parts, palette),
        }
    } else if call_match(&chars, "lighten") {
        proof {
            reveal_strlit("lighten");
        }
        let inner = value.substring_char(8, chars.len() - 1);
        proof {
            assert(inner@ =~= call_inner(value@, "lighten"@));
        }
        match split_input(inner, 2) {
            Err(e) => Err(CompileError::Theme(e)),
            Ok(parts) => lighten_color(&parts, palette),
        }
    } else if call_match(&chars, "darken") {
        proof {
            reveal_strlit("darken");
        }
        let inner = value.substring_char(7, chars.len() - 1);
        proof {
            assert(inner@ =~= call_inner(value@, "darken"@));
        }
        match split_input(inner, 2) {
            Err(e) => Err(CompileError::Theme(e)),
            Ok(parts) => darken_color(&parts, palette),
        }
    } else if call_match(&chars, "mix") {
        proof {
            reveal_strlit("mix");
        }
        let inner = value.substring_char(4, chars.len() - 1);
        proof {
            assert(inner@ =~= call_inner(value@, "mix"@));
        }
        match split_input(inner, 3) {
            Err(e) => Err(CompileError::Theme(e)),
            Ok(parts) => mix_colors(&parts, palette),
        }
    } else {
        Err(CompileError::Theme(ThemeError::InvalidColor { color: value.to_owned() }))
    }
}

/// Law: an expression referencing a name that no earlier entry declared
/// fails with the missing-reference failure naming that very name — never
/// a silent default.
pub proof fn lemma_undeclared_reference_fails(parts: Seq<Seq<char>>, es: Seq<(Seq<char>, Color)>)
    requires
        parts.len() >= 1,
        !entries_has_key(es, parts[0]),
    ensures
        parts.len() == 3 ==> spec_adjust_parts(parts, es) == Err::<Color, ErrSpec>(
            ErrSpec::MissingColor { color: parts[0] },
        ),
        parts.len() == 2 ==> spec_lighten_parts(parts, es) == Err::<Color, ErrSpec>(
            ErrSpec::MissingColor { color: parts[0] },
        ),
        parts.len() == 2 ==> spec_darken_parts(parts, es) == Err::<Color, ErrSpec>(
            ErrSpec::MissingColor { color: parts[0] },
        ),
        parts.len() == 3 ==> spec_mix_parts(parts, es) == Err::<Color, ErrSpec>(
            ErrSpec::MissingColor { color: parts[0] },
        ),
{
}

// ---- palette resolution ----

/// The view of a raw colors section: each name with its definition string,
/// or nothing where the document value was not a string.
pub open spec fn colors_view(v: Seq<(String, Option<String>)>) -> Seq<
    (Seq<char>, Option<Seq<char>>),
> {
    v.map_values(
        |p: (String, Option<String>)|
            (
                p.0@,
                match p.1 {
                    Some(s) => Some(s@),
                    None => None::<Seq<char>>,
                },
            ),
    )
}

/// Sequential, forward-only resolution: each entry sees only the entries
/// declared before it; a definition string naming an earlier entry verbatim
/// duplicates it; the first failure stops everything.
pub open spec fn spec_resolve_colors(
    colors: Seq<(Seq<char>, Option<Seq<char>>)>,
    hues: Option<Seq<(Seq<char>, i64)>>,
) -> Result<Seq<(Seq<char>, Color)>, ErrSpec>
    decreases colors.len(),
{
    if colors.len() == 0 {
        Ok(Seq::<(Seq<char>, Color)>::empty())
    } else {
        match spec_resolve_colors(colors.drop_last(), hues) {
            Err(e) => Err(e),
            Ok(es) => match colors.last().1 {
                None => Err(ErrSpec::MissingValue),
                Some(value) => if entries_has_key(es, value) {
                    Ok(entries_insert(es, colors.last().0, entries_value(es, value)))
                } else {
                    match spec_resolve_entry(value, es, hues) {
                        Ok(c) => Ok(entries_insert(es, colors.last().0, c)),
                        Err(e) => Err(e),
                    }
                },
            },
        }
    }
}

/// Once a prefix fails, the whole resolution fails the same way.
proof fn lemma_resolve_prefix_error(
    colors: Seq<(Seq<char>, Option<Seq<char>>)>,
    hues: Option<Seq<(Seq<char>, i64)>>,
    j: int,
)
    requires
        0 <= j <= colors.len(),
        spec_resolve_colors(colors.take(j), hues) is Err,
    ensures
        spec_resolve_colors(colors, hues) == spec_resolve_colors(colors.take(j), hues),
    decreases colors.len() - j,
{
    if j < colors.len() {
        assert(colors.take(j + 1).drop_last() =~= colors.take(j));
        lemma_resolve_prefix_error(colors, hues, j + 1);
    } else {
        assert(colors.take(j) =~= colors);
    }
}

/// Builds the palette from the colors section, in declaration order.
pub fn parse_palette(colors: &Vec<(String, Option<String>)>, hues: &Option<Vec<(String, i64)>>) -> (r: Result<
    indexmap::IndexMap<String, Color>,
    CompileError,
>)
    ensures
        match spec_resolve_colors(colors_view(colors@), opt_hues_view(*hues)) {
            Ok(es) => r matches Ok(m) && palette_entries(m) == es && entries_keys_unique(es),
            Err(e) => r matches Err(x) && x@ == e,
        },
{
    let ghost cv = colors_view(colors@);
    let ghost hv = opt_hues_view(*hues);
    let mut palette = palette_new();
    let n = colors.len();
    let mut i: usize = 0;
    proof {
        assert(cv.take(0) =~= Seq::<(Seq<char>, Option<Seq<char>>)>::empty());
    }
    while i < n
        invariant
            i <= n,
            n == colors@.len(),
            cv == colors_view(colors@),
            hv == opt_hues_view(*hues),
            entries_keys_unique(palette_entries(palette)),
            spec_resolve_colors(cv.take(i as int), hv) == Ok::<
                Seq<(Seq<char>, Color)>,
                ErrSpec,
            >(palette_entries(palette)),
        decreases n - i,
    {
        let ghost pre = palette_entries(palette);
        proof {
            assert(cv.take(i + 1).drop_last() =~= cv.take(i as int));
            assert(cv.take(i + 1).last() == cv[i as int]);
            assert(cv[i as int].0 == colors@[i as int].0@);
        }
        match &colors[i].1 {
            None => {
                proof {
                    lemma_resolve_prefix_error(cv, hv, i + 1);
                }
                return Err(CompileError::Theme(ThemeError::MissingValue));
            },
            Some(value) => {
                if palette_contains_key(&palette, value.as_str()) {
                    let copied = match lookup_color(value.as_str(), &palette) {
                        Ok(c) => c.copy(),
                        Err(e) => {
                            proof {
                                assert(false);
                            }
                            return Err(CompileError::Theme(e));
                        },
                    };
                    palette_insert(&mut palette, colors[i].0.clone(), copied);
                    proof {
                        crate::palette::lemma_insert_keeps_unique(pre, cv[i as int].0, copied);
                    }
                } else {
                    match parse_palette_entry(value.as_str(), &palette, hues) {
                        Ok(c) => {
                            palette_insert(&mut palette, colors[i].0.clone(), c);
                            proof {
                                crate::palette::lemma_insert_keeps_unique(pre, cv[i as int].0, c);
                            }
                        },
                        Err(e) => {
                            proof {
                                lemma_resolve_prefix_error(cv, hv, i + 1);
                            }
                            return Err(e);
                        },
                    }
                }
            },
        }
        i += 1;
    }
    proof {
        assert(cv.take(n as int) =~= cv);
    }
    Ok(palette)
}

/// The resolved palette as name-to-hex pairs in declaration order: the form
/// the file emitter consumes.
pub fn palette_hex_pairs(m: &indexmap::IndexMap<String, Color>) -> (r: Vec<(String, String)>)
    ensures
        r@.len() == palette_entries(*m).len(),
        forall|i: int|
            0 <= i < r@.len() ==> (#[trigger] r@[i]).0@ == palette_entries(*m)[i].0 && r@[i].1@
                == palette_entries(*m)[i].1.spec_hex(),
{
    let n = crate::palette::palette_len(m);
    let mut out: Vec<(String, String)> = Vec::new();
    let mut i: usize = 0;
    while i < n
        invariant
            i <= n,
            n == palette_entries(*m).len(),
            out@.len() == i,
            forall|j: int|
                0 <= j < i ==> (#[trigger] out@[j]).0@ == palette_entries(*m)[j].0 && out@[j].1@
                    == palette_entries(*m)[j].1.spec_hex(),
        decreases n - i,
    {
        match crate::palette::palette_get_index(m, i) {
            Some(kv) => {
                out.push((kv.0.clone(), kv.1.hex()));
            },
            None => {
                proof {
                    assert(false);
                }
            },
        }
        i += 1;
    }
    out
}

// ---- background ----

/// The two background modes a theme can declare.
#[derive(Debug, Clone, Copy, PartialEq, Eq, Structural)]
pub enum Background {
    Dark,
    Light,
}

impl Background {
    /// Validates the background token, case-insensitively.
    pub fn new(input: &str) -> (r: Result<Background, ThemeError>)
        ensures
            eq_ignore_case(input@, "dark"@) ==> r == Ok::<Background, ThemeError>(
                Background::Dark,
            ),
            !eq_ignore_case(input@, "dark"@) && eq_ignore_case(input@, "light"@) ==> r == Ok::<
                Background,
                ThemeError,
            >(Background::Light),
            !eq_ignore_case(input@, "dark"@) && !eq_ignore_case(input@, "light"@) ==> (r matches
                Err(e) && e@ == ErrSpec::InvalidBackground { background: input@ }),
    {
        let chars = to_chars(input);
        if eq_ignore_case_exec(&chars, "dark") {
            return Ok(Background::Dark);
        }
        if eq_ignore_case_exec(&chars, "light") {
            return Ok(Background::Light);
        }
        Err(ThemeError::InvalidBackground { background: input.to_owned() })
    }

    /// The lowercase token of this mode.
    pub fn text(&self) -> (r: &'static str)
        ensures
            *self == Background::Dark ==> r@ == "dark"@,
            *self == Background::Light ==> r@ == "light"@,
    {
        match self {
            Background::Dark => "dark",
            Background::Light => "light",
        }
    }
}

// ---- the assembled theme ----

/// The raw fields of a parsed theme description: plain values, exactly as
/// the document gave them.  A mapping value that was not a string appears
/// as nothing and fails resolution.
pub struct ParsedTheme {
    pub name: String,
    pub background: String,
    pub hues: Option<Vec<(String, i64)>>,
    pub colors: Vec<(String, Option<String>)>,
    pub highlights: Vec<(String, Option<String>)>,
    pub globals: Vec<(String, Option<String>)>,
}

/// A fully compiled theme: the resolved palette, the rendered highlight
/// directives in source order, and the global variable bindings as
/// name-to-hex pairs.
pub struct Theme {
    pub name: String,
    pub background: Background,
    pub palette: indexmap::IndexMap<String, Color>,
    pub highlights: Vec<String>,
    pub globals: Vec<(String, String)>,
}

/// The highlight section compiled in order against the resolved palette.
pub open spec fn spec_compile_highlights(
    hs: Seq<(Seq<char>, Option<Seq<char>>)>,
    es: Seq<(Seq<char>, Color)>,
) -> Result<Seq<Seq<char>>, ErrSpec>
    decreases hs.len(),
{
    if hs.len() == 0 {
        Ok(Seq::<Seq<char>>::empty())
    } else {
        match spec_compile_highlights(hs.drop_last(), es) {
            Err(e) => Err(e),
            Ok(out) => match hs.last().1 {
                None => Err(ErrSpec::MissingValue),
                Some(v) => match crate::highlight::spec_render_highlight(hs.last().0, v, es) {
                    Ok(t) => Ok(out.push(t)),
                    Err(e) => Err(e),
                },
            },
        }
    }
}

proof fn lemma_highlights_prefix_error(
    hs: Seq<(Seq<char>, Option<Seq<char>>)>,
    es: Seq<(Seq<char>, Color)>,
    j: int,
)
    requires
        0 <= j <= hs.len(),
        spec_compile_highlights(hs.take(j), es) is Err,
    ensures
        spec_compile_highlights(hs, es) == spec_compile_highlights(hs.take(j), es),
    decreases hs.len() - j,
{
    if j < hs.len() {
        assert(hs.take(j + 1).drop_last() =~= hs.take(j));
        lemma_highlights_prefix_error(hs, es, j + 1);
    } else {
        assert(hs.take(j) =~= hs);
    }
}

/// The view of the global bindings: each name with the hex text of its
/// color.
pub open spec fn globals_view(v: Seq<(String, String)>) -> Seq<(Seq<char>, Seq<char>)> {
    v.map_values(|p: (String, String)| (p.0@, p.1@))
}

/// The globals section resolved in order: a value naming a palette entry
/// verbatim takes that entry's hex text, anything else resolves as a color
/// expression.
pub open spec fn spec_resolve_globals(
    gs: Seq<(Seq<char>, Option<Seq<char>>)>,
    es: Seq<(Seq<char>, Color)>,
    hues: Option<Seq<(Seq<char>, i64)>>,
) -> Result<Seq<(Seq<char>, Seq<char>)>, ErrSpec>
    decreases gs.len(),
{
    if gs.len() == 0 {
        Ok(Seq::<(Seq<char>, Seq<char>)>::empty())
    } else {
        match spec_resolve_globals(gs.drop_last(), es, hues) {
            Err(e) => Err(e),
            Ok(out) => match gs.last().1 {
                None => Err(ErrSpec::MissingValue),
                Some(v) => if entries_has_key(es, v) {
                    Ok(out.push((gs.last().0, entries_value(es, v).spec_hex())))
                } else {
                    match spec_resolve_entry(v, es, hues) {
                        Ok(c) => Ok(out.push((gs.last().0, c.spec_hex()))),
                        Err(e) => Err(e),
                    }
                },
            },
        }
    }
}

proof fn lemma_globals_prefix_error(
    gs: Seq<(Seq<char>, Option<Seq<char>>)>,
    es: Seq<(Seq<char>, Color)>,
    hues: Option<Seq<(Seq<char>, i64)>>,
    j: int,
)
    requires
        0 <= j <= gs.len(),
        spec_resolve_globals(gs.take(j), es, hues) is Err,
    ensures
        spec_resolve_globals(gs, es, hues) == spec_resolve_globals(gs.take(j), es, hues),
    decreases gs.len() - j,
{
    if j < gs.len() {
        assert(gs.take(j + 1).drop_last() =~= gs.take(j));
        lemma_globals_prefix_error(gs, es, hues, j + 1);
    } else {
        assert(gs.take(j) =~= gs);
    }
}

/// The whole compilation: palette, then highlights, then globals, then the
/// background validation; the first failure wins.
pub open spec fn spec_theme(
    background: Seq<char>,
    hues: Option<Seq<(Seq<char>, i64)>>,
    colors: Seq<(Seq<char>, Option<Seq<char>>)>,
    highlights: Seq<(Seq<char>, Option<Seq<char>>)>,
    globals: Seq<(Seq<char>, Option<Seq<char>>)>,
) -> Result<(Seq<(Seq<char>, Color)>, Seq<Seq<char>>, Seq<(Seq<char>, Seq<char>)>, Background), ErrSpec> {
    match spec_resolve_colors(colors, hues) {
        Err(e) => Err(e),
        Ok(es) => match spec_compile_highlights(highlights, es) {
            Err(e) => Err(e),
            Ok(hl) => match spec_resolve_globals(globals, es, hues) {
                Err(e) => Err(e),
                Ok(gl) => if eq_ignore_case(background, "dark"@) {
                    Ok((es, hl, gl, Background::Dark))
                } else if eq_ignore_case(background, "light"@) {
                    Ok((es, hl, gl, Background::Light))
                } else {
                    Err(ErrSpec::InvalidBackground { background: background })
                },
            },
        },
    }
}

fn compile_highlights(
    items: &Vec<(String, Option<String>)>,
    palette: &indexmap::IndexMap<String, Color>,
) -> (r: Result<Vec<String>, CompileError>)
    requires
        entries_keys_unique(palette_entries(*palette)),
    ensures
        match spec_compile_highlights(colors_view(items@), palette_entries(*palette)) {
            Ok(hl) => r matches Ok(v) && strs_view(v@) == hl,
            Err(e) => r matches Err(x) && x@ == e,
        },
{
    let ghost es = palette_entries(*palette);
    let ghost hv = colors_view(items@);
    let mut out: Vec<String> = Vec::new();
    let n = items.len();
    let mut i: usize = 0;
    proof {
        assert(hv.take(0) =~= Seq::<(Seq<char>, Option<Seq<char>>)>::empty());
        assert(strs_view(out@) =~= Seq::<Seq<char>>::empty());
    }
    while i < n
        invariant
            i <= n,
            n == items@.len(),
            hv == colors_view(items@),
            es == palette_entries(*palette),
            entries_keys_unique(es),
            spec_compile_highlights(hv.take(i as int), es) == Ok::<Seq<Seq<char>>, ErrSpec>(
                strs_view(out@),
            ),
        decreases n - i,
    {
        proof {
            assert(hv.take(i + 1).drop_last() =~= hv.take(i as int));
            assert(hv.take(i + 1).last() == hv[i as int]);
            assert(hv[i as int].0 == items@[i as int].0@);
        }
        match &items[i].1 {
            None => {
                proof {
                    lemma_highlights_prefix_error(hv, es, i + 1);
                }
                return Err(CompileError::Theme(ThemeError::MissingValue));
            },
            Some(value) => {
                match crate::highlight::parse_highlight(
                    items[i].0.as_str(),
                    value.as_str(),
                    palette,
                ) {
                    Ok(t) => {
                        let ghost prev = out@;
                        out.push(t);
                        proof {
                            assert(strs_view(out@) =~= strs_view(prev).push(out@.last()@));
                        }
                    },
                    Err(e) => {
                        proof {
                            lemma_highlights_prefix_error(hv, es, i + 1);
                        }
                        return Err(CompileError::Theme(e));
                    },
                }
            },
        }
        i += 1;
    }
    proof {
        assert(hv.take(n as int) =~= hv);
    }
    Ok(out)
}

fn resolve_globals(
    items: &Vec<(String, Option<String>)>,
    palette: &indexmap::IndexMap<String, Color>,
    hues: &Option<Vec<(String, i64)>>,
) -> (r: Result<Vec<(String, String)>, CompileError>)
    requires
        entries_keys_unique(palette_entries(*palette)),
    ensures
        match spec_resolve_globals(
            colors_view(items@),
            palette_entries(*palette),
            opt_hues_view(*hues),
        ) {
            Ok(gl) => r matches Ok(v) && globals_view(v@) == gl,
            Err(e) => r matches Err(x) && x@ == e,
        },
{
    let ghost es = palette_entries(*palette);
    let ghost gv = colors_view(items@);
    let ghost hov = opt_hues_view(*hues);
    let mut out: Vec<(String, String)> = Vec::new();
    let n = items.len();
    let mut i: usize = 0;
    proof {
        assert(gv.take(0) =~= Seq::<(Seq<char>, Option<Seq<char>>)>::empty());
        assert(globals_view(out@) =~= Seq::<(Seq<char>, Seq<char>)>::empty());
    }
    while i < n
        invariant
            i <= n,
            n == items@.len(),
            gv == colors_view(items@),
            hov == opt_hues_view(*hues),
            es == palette_entries(*palette),
            entries_keys_unique(es),
            spec_resolve_globals(gv.take(i as int), es, hov) == Ok::<
                Seq<(Seq<char>, Seq<char>)>,
                ErrSpec,
            >(globals_view(out@)),
        decreases n - i,
    {
        proof {
            assert(gv.take(i + 1).drop_last() =~= gv.take(i as int));
            assert(gv.take(i + 1).last() == gv[i as int]);
            assert(gv[i as int].0 == items@[i as int].0@);
        }
        match &items[i].1 {
            None => {
                proof {
                    lemma_globals_prefix_error(gv, es, hov, i + 1);
                }
                return Err(CompileError::Theme(ThemeError::MissingValue));
            },
            Some(value) => {
                let hex: String = if palette_contains_key(palette, value.as_str()) {
                    match lookup_color(value.as_str(), palette) {
                        Ok(c) => c.hex(),
                        Err(e) => {
                            proof {
                                assert(false);
                            }
                            return Err(CompileError::Theme(e));
                        },
                    }
                } else {
                    match parse_palette_entry(value.as_str(), palette, hues) {
                        Ok(c) => c.hex(),
                        Err(e) => {
                            proof {
                                lemma_globals_prefix_error(gv, es, hov, i + 1);
                            }
                            return Err(e);
                        },
                    }
                };
                let ghost prev = out@;
                out.push((items[i].0.clone(), hex));
                proof {
                    assert(globals_view(out@) =~= globals_view(prev).push(
                        (gv[i as int].0, out@.last().1@),
                    ));
                }
            },
        }
        i += 1;
    }
    proof {
        assert(gv.take(n as int) =~= gv);
    }
    Ok(out)
}

impl Theme {
    /// Compiles a parsed description into a theme.
    pub fn new(parsed: ParsedTheme) -> (r: Result<Theme, CompileError>)
        ensures
            match spec_theme(
                parsed.background@,
                opt_hues_view(parsed.hues),
                colors_view(parsed.colors@),
                colors_view(parsed.highlights@),
                colors_view(parsed.globals@),
            ) {
                Ok(t4) => r matches Ok(t) && t.name@ == parsed.name@ && palette_entries(t.palette)
                    == t4.0 && strs_view(t.highlights@) == t4.1 && globals_view(t.globals@)
                    == t4.2 && t.background == t4.3,
                Err(e) => r matches Err(x) && x@ == e,
            },
    {
        let palette = match parse_palette(&parsed.colors, &parsed.hues) {
            Ok(p) => p,
            Err(e) => {
                return Err(e);
            },
        };
        let highlights = match compile_highlights(&parsed.highlights, &palette) {
            Ok(v) => v,
            Err(e) => {
                return Err(e);
            },
        };
        let globals = match resolve_globals(&parsed.globals, &palette, &parsed.hues) {
            Ok(v) => v,
            Err(e) => {
                return Err(e);
            },
        };
        let background = match Background::new(parsed.background.as_str()) {
            Ok(b) => b,
            Err(e) => {
                return Err(CompileError::Theme(e));
            },
        };
        Ok(Theme { name: parsed.name, background, palette, highlights, globals })
    }
}

} // verus!
