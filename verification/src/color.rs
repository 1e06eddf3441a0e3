use vstd::arithmetic::div_mod::{
    lemma_div_by_multiple, lemma_div_is_ordered, lemma_div_multiples_vanish_fancy,
    lemma_div_pos_is_pos, lemma_fundamental_div_mod, lemma_fundamental_div_mod_converse,
    lemma_mod_bound,
};
use vstd::prelude::*;

use crate::error::{ErrSpec, HslColorError, RgbColorError};
use crate::text::{lower_char, to_chars};

verus! {

// All saturation, lightness, delta and weight values are measured in
// micro-units: 1_000_000 stands for 1.0.  Hues are measured in micro-degrees:
// 360_000_000 stands for a full turn of 360 degrees.

/// Saturates a micro-unit value into `[0, 1_000_000]`; this is the defined
/// semantics of `adjust`, `lighten` and `darken`, not an error path.
pub open spec fn clamp_unit(v: int) -> int {
    if v < 0 {
        0
    } else if v > 1_000_000 {
        1_000_000
    } else {
        v
    }
}

/// `n / d` as a fraction, rounded half away from zero (for non-negative `n`).
pub open spec fn round_frac(n: int, d: int) -> int
    recommends
        d > 0,
{
    (2 * n + d) / (2 * d)
}

/// Rounding a fraction that lies within `[0, m]` stays within `[0, m]`.
pub proof fn lemma_round_frac_bounds(n: int, d: int, m: int)
    requires
        d > 0,
        0 <= n,
        n <= m * d,
    ensures
        0 <= round_frac(n, d) <= m,
{
    lemma_div_pos_is_pos(2 * n + d, 2 * d);
    assert(2 * n + d <= (2 * d) * m + d) by (nonlinear_arith)
        requires n <= m * d;
    lemma_div_is_ordered(2 * n + d, (2 * d) * m + d, 2 * d);
    lemma_div_multiples_vanish_fancy(m, d, 2 * d);
}

/// Exact division helper: both operands fit comfortably, so the machine
/// division agrees with the mathematical `round_frac`.
fn round_div_u64(n: u64, d: u64) -> (r: u64)
    requires
        0 < d,
        n <= 0x2000_0000_0000_0000,
        d <= 0x2000_0000_0000_0000,
    ensures
        r as int == round_frac(n as int, d as int),
{
    (2 * n + d) / (2 * d)
}

fn round_div_u128(n: u128, d: u128) -> (r: u128)
    requires
        0 < d,
        n <= 0x2000_0000_0000_0000_0000_0000_0000_0000,
        d <= 0x2000_0000_0000_0000_0000_0000_0000_0000,
    ensures
        r as int == round_frac(n as int, d as int),
{
    (2 * n + d) / (2 * d)
}

// ---- HSL to RGB conversion, exact over micro-units ----
//
// For saturation `s` and lightness `l` in micro-units, the two auxiliary
// values `q` and `p` of the standard conversion are held scaled by 10^12
// (micro * micro).  A channel is the canonical hue fold evaluated at the hue
// shifted by +120, 0 or -120 degrees and wrapped into one turn; its value,
// scaled by 10^12 * 60_000_000, is `channel_num`.  The final 8-bit intensity
// is the channel value times 255, rounded half away from zero.

pub open spec fn hsl_q12(s: int, l: int) -> int {
    if l < 500_000 {
        l * (1_000_000 + s)
    } else {
        (l + s) * 1_000_000 - l * s
    }
}

pub open spec fn hsl_p12(s: int, l: int) -> int {
    2 * l * 1_000_000 - hsl_q12(s, l)
}

/// Wraps a shifted hue in micro-degrees back into `[0, 360_000_000]`.
pub open spec fn wrap_deg(t: int) -> int {
    if t < 0 {
        t + 360_000_000
    } else if t > 360_000_000 {
        t - 360_000_000
    } else {
        t
    }
}

/// The hue fold at `t` micro-degrees, scaled by 10^12 * 60_000_000.
pub open spec fn channel_num(p12: int, q12: int, t: int) -> int {
    if t < 60_000_000 {
        p12 * 60_000_000 + (q12 - p12) * t
    } else if t < 180_000_000 {
        q12 * 60_000_000
    } else if t < 240_000_000 {
        p12 * 60_000_000 + (q12 - p12) * (240_000_000 - t)
    } else {
        p12 * 60_000_000
    }
}

/// One 8-bit channel of the chromatic conversion: the channel at hue offset
/// `off` micro-degrees, scaled to `[0, 255]` and rounded.
pub open spec fn hsl_channel(h: int, s: int, l: int, off: int) -> int {
    round_frac(
        channel_num(hsl_p12(s, l), hsl_q12(s, l), wrap_deg(h + off)) * 255,
        60_000_000_000_000_000_000,
    )
}

/// The full conversion: achromatic short-circuit when the saturation is
/// exactly zero, otherwise the hue fold at +120 (red), 0 (green) and -120
/// (blue) degrees.
pub open spec fn spec_hsl_to_rgb(h: int, s: int, l: int) -> (int, int, int) {
    if s == 0 {
        let v = round_frac(l * 255, 1_000_000);
        (v, v, v)
    } else {
        (
            hsl_channel(h, s, l, 120_000_000),
            hsl_channel(h, s, l, 0),
            hsl_channel(h, s, l, -120_000_000),
        )
    }
}

proof fn lemma_pq_bounds(s: int, l: int)
    requires
        0 <= s <= 1_000_000,
        0 <= l <= 1_000_000,
    ensures
        0 <= hsl_p12(s, l),
        hsl_p12(s, l) <= hsl_q12(s, l),
        hsl_q12(s, l) <= 1_000_000_000_000,
{
    if l < 500_000 {
        assert(l * (1_000_000 + s) <= 1_000_000_000_000 && 2 * l * 1_000_000 - l * (1_000_000 + s)
            >= 0 && 2 * l * 1_000_000 <= 2 * (l * (1_000_000 + s))) by (nonlinear_arith)
            requires
                0 <= s <= 1_000_000,
                0 <= l < 500_000,
        ;
    } else {
        assert((l + s) * 1_000_000 - l * s <= 1_000_000_000_000 && 2 * l * 1_000_000 - ((l + s)
            * 1_000_000 - l * s) >= 0 && 2 * l * 1_000_000 <= 2 * ((l + s) * 1_000_000 - l * s))
            by (nonlinear_arith)
            requires
                0 <= s <= 1_000_000,
                500_000 <= l <= 1_000_000,
        ;
    }
}

proof fn lemma_channel_num_bounds(p12: int, q12: int, t: int)
    requires
        0 <= p12 <= q12,
        q12 <= 1_000_000_000_000,
        0 <= t <= 360_000_000,
    ensures
        0 <= channel_num(p12, q12, t),
        p12 * 60_000_000 <= channel_num(p12, q12, t),
        channel_num(p12, q12, t) <= q12 * 60_000_000,
{
    if t < 60_000_000 {
        assert(0 <= (q12 - p12) * t <= (q12 - p12) * 60_000_000) by (nonlinear_arith)
            requires
                0 <= q12 - p12,
                0 <= t < 60_000_000,
        ;
    } else if t < 180_000_000 {
    } else if t < 240_000_000 {
        assert(0 <= (q12 - p12) * (240_000_000 - t) <= (q12 - p12) * 60_000_000)
            by (nonlinear_arith)
            requires
                0 <= q12 - p12,
                180_000_000 <= t < 240_000_000,
        ;
    } else {
    }
}

/// One channel of the chromatic conversion, computed exactly in 128-bit
/// arithmetic.
fn channel_exec(p12: u64, q12: u64, t: u64) -> (v: u8)
    requires
        p12 <= q12,
        q12 <= 1_000_000_000_000,
        t <= 360_000_000,
    ensures
        v as int == round_frac(
            channel_num(p12 as int, q12 as int, t as int) * 255,
            60_000_000_000_000_000_000,
        ),
{
    proof {
        lemma_channel_num_bounds(p12 as int, q12 as int, t as int);
        assert((q12 - p12) as int * t as int <= 1_000_000_000_000 * 360_000_000)
            by (nonlinear_arith)
            requires
                0 <= (q12 - p12) as int <= 1_000_000_000_000,
                0 <= t as int <= 360_000_000,
        ;
        assert((q12 - p12) as int * (240_000_000 - t as int) <= 1_000_000_000_000 * 240_000_000)
            by (nonlinear_arith)
            requires
                0 <= (q12 - p12) as int <= 1_000_000_000_000,
                0 <= t as int <= 360_000_000,
        ;
    }
    let num: u128 = if t < 60_000_000 {
        p12 as u128 * 60_000_000 + (q12 - p12) as u128 * t as u128
    } else if t < 180_000_000 {
        q12 as u128 * 60_000_000
    } else if t < 240_000_000 {
        p12 as u128 * 60_000_000 + (q12 - p12) as u128 * (240_000_000 - t) as u128
    } else {
        p12 as u128 * 60_000_000
    };
    let r = round_div_u128(num * 255, 60_000_000_000_000_000_000);
    proof {
        lemma_round_frac_bounds(num as int * 255, 60_000_000_000_000_000_000, 255);
    }
    r as u8
}

/// A color given by three 8-bit channel intensities. Its canonical text form
/// is `#rrggbb` in lowercase hexadecimal.
#[derive(Debug, Clone, Copy, PartialEq, Eq, Structural)]
pub struct RgbColor {
    pub r: u8,
    pub g: u8,
    pub b: u8,
}

impl RgbColor {
    pub fn new(r: u8, g: u8, b: u8) -> (c: RgbColor)
        ensures
            c == (RgbColor { r, g, b }),
    {
        RgbColor { r, g, b }
    }

    /// Parses exactly the 7-character form `#` followed by six hexadecimal
    /// digits (case-insensitive); any other shape is a format failure that
    /// reports the whole offending text.
    pub fn parse_from_hex(hex: &str) -> (r: Result<RgbColor, RgbColorError>)
        ensures
            is_hex_color(hex@) ==> (r matches Ok(c) && c.r as int == hex_byte_val(hex@, 1)
                && c.g as int == hex_byte_val(hex@, 3) && c.b as int == hex_byte_val(hex@, 5)),
            !is_hex_color(hex@) ==> (r matches Err(e) && e@ == ErrSpec::HexFormat {
                found: hex@,
            }),
    {
        let chars = to_chars(hex);
        if chars.len() != 7 {
            return Err(RgbColorError::Format { found: hex.to_owned() });
        }
        if chars[0] != '#' {
            return Err(RgbColorError::Format { found: hex.to_owned() });
        }
        let mut vals: [u8; 6] = [0, 0, 0, 0, 0, 0];
        let mut i: usize = 1;
        while i < 7
            invariant
                1 <= i <= 7,
                chars@ == hex@,
                chars@.len() == 7,
                forall|j: int| 1 <= j < i ==> is_hex_digit(#[trigger] hex@[j]),
                forall|j: int| 1 <= j < i ==> vals@[j - 1] as int == hex_val(hex@[j]),
            decreases 7 - i,
        {
            match hex_digit_val(chars[i]) {
                Some(v) => {
                    vals[i - 1] = v;
                },
                None => {
                    return Err(RgbColorError::Format { found: hex.to_owned() });
                },
            }
            i += 1;
        }
        proof {
            assert forall|j: int| 1 <= j < 7 implies 0 <= hex_val(#[trigger] hex@[j]) <= 15 by {
                assert(is_hex_digit(hex@[j]));
            }
            assert(vals@[0] as int == hex_val(hex@[1]) && vals@[1] as int == hex_val(hex@[2])
                && vals@[2] as int == hex_val(hex@[3]) && vals@[3] as int == hex_val(hex@[4])
                && vals@[4] as int == hex_val(hex@[5]) && vals@[5] as int == hex_val(hex@[6]));
        }
        Ok(
            RgbColor {
                r: vals[0] * 16 + vals[1],
                g: vals[2] * 16 + vals[3],
                b: vals[4] * 16 + vals[5],
            },
        )
    }

    /// The canonical lowercase `#rrggbb` text of this color.
    pub fn hex(&self) -> (s: String)
        ensures
            s@ == spec_rgb_hex(self.r as int, self.g as int, self.b as int),
    {
        let mut out = String::new();
        out.append("#");
        push_hex_byte(&mut out, self.r);
        push_hex_byte(&mut out, self.g);
        push_hex_byte(&mut out, self.b);
        proof {
            reveal_strlit("#");
            assert(out@ =~= spec_rgb_hex(self.r as int, self.g as int, self.b as int));
        }
        out
    }

    /// Converts to HSL; the three components land on the micro grid.
    pub fn to_hsl_color(&self) -> (c: HslColor)
        ensures
            c.spec_hue() as int == spec_rgb_to_hsl(self.r as int, self.g as int, self.b as int).0,
            c.spec_saturation() as int == spec_rgb_to_hsl(
                self.r as int,
                self.g as int,
                self.b as int,
            ).1,
            c.spec_lightness() as int == spec_rgb_to_hsl(
                self.r as int,
                self.g as int,
                self.b as int,
            ).2,
    {
        let r = self.r as u64;
        let g = self.g as u64;
        let b = self.b as u64;
        let mx: u64 = if r >= g && r >= b {
            r
        } else if g >= b {
            g
        } else {
            b
        };
        let mn: u64 = if r <= g && r <= b {
            r
        } else if g <= b {
            g
        } else {
            b
        };
        proof {
            assert(mx as int == max3(r as int, g as int, b as int));
            assert(mn as int == min3(r as int, g as int, b as int));
            lemma_round_frac_bounds(((mx + mn) * 1_000_000) as int, 510, 1_000_000);
        }
        let l = round_div_u64((mx + mn) * 1_000_000, 510) as u32;
        if mx == mn {
            return HslColor { hue: 0, saturation: 0, lightness: l };
        }
        let d = mx - mn;
        let s: u32 = if mx + mn > 255 {
            proof {
                lemma_round_frac_bounds(
                    (d * 1_000_000) as int,
                    510 - (mx + mn) as int,
                    1_000_000,
                );
            }
            round_div_u64(d * 1_000_000, 510 - (mx + mn)) as u32
        } else {
            proof {
                lemma_round_frac_bounds((d * 1_000_000) as int, (mx + mn) as int, 1_000_000);
            }
            round_div_u64(d * 1_000_000, mx + mn) as u32
        };
        let h64: u64 = if r == mx {
            if g < b {
                proof {
                    lemma_round_frac_bounds(
                        ((6 * d - (b - g)) * 60_000_000) as int,
                        d as int,
                        360_000_000,
                    );
                }
                round_div_u64((6 * d - (b - g)) * 60_000_000, d)
            } else {
                proof {
                    lemma_round_frac_bounds(((g - b) * 60_000_000) as int, d as int, 360_000_000);
                }
                round_div_u64((g - b) * 60_000_000, d)
            }
        } else if g == mx {
            proof {
                lemma_round_frac_bounds(
                    ((2 * d + b - r) * 60_000_000) as int,
                    d as int,
                    360_000_000,
                );
            }
            round_div_u64((2 * d + b - r) * 60_000_000, d)
        } else {
            proof {
                lemma_round_frac_bounds(
                    ((4 * d + r - g) * 60_000_000) as int,
                    d as int,
                    360_000_000,
                );
            }
            round_div_u64((4 * d + r - g) * 60_000_000, d)
        };
        HslColor { hue: h64 as u32, saturation: s, lightness: l }
    }
}

// ---- RGB to HSL conversion, exact over micro-units ----
//
// Channels are normalized to fractions of 255.  Lightness is the mean of the
// largest and smallest channel, `(mx + mn) / 510` of a unit; the saturation
// denominator is `mx + mn` for dark colors and `510 - (mx + mn)` for light
// ones; the hue comes from the standard six-sector formula, expressed in
// micro-degrees.  Each of the three results is rounded to the micro grid.

pub open spec fn max3(a: int, b: int, c: int) -> int {
    if a >= b && a >= c {
        a
    } else if b >= c {
        b
    } else {
        c
    }
}

pub open spec fn min3(a: int, b: int, c: int) -> int {
    if a <= b && a <= c {
        a
    } else if b <= c {
        b
    } else {
        c
    }
}

/// The conversion to (hue micro-degrees, saturation micro, lightness micro).
/// Ties between equal maximal channels resolve in the order red, green, blue,
/// as the six-sector formula is usually written.
pub open spec fn spec_rgb_to_hsl(r: int, g: int, b: int) -> (int, int, int) {
    let mx = max3(r, g, b);
    let mn = min3(r, g, b);
    let l = round_frac((mx + mn) * 1_000_000, 510);
    if mx == mn {
        (0, 0, l)
    } else {
        let d = mx - mn;
        let s = if mx + mn > 255 {
            round_frac(d * 1_000_000, 510 - (mx + mn))
        } else {
            round_frac(d * 1_000_000, mx + mn)
        };
        let h = if r == mx {
            if g < b {
                round_frac((g - b + 6 * d) * 60_000_000, d)
            } else {
                round_frac((g - b) * 60_000_000, d)
            }
        } else if g == mx {
            round_frac((b - r + 2 * d) * 60_000_000, d)
        } else {
            round_frac((r - g + 4 * d) * 60_000_000, d)
        };
        (h, s, l)
    }
}

/// A color given by hue, saturation and lightness.  The hue is a fraction of
/// a full turn, stored in micro-degrees (`0 ..= 360_000_000`); saturation and
/// lightness are micro-units (`0 ..= 1_000_000`).  Values outside these
/// ranges never exist: construction fails instead.
#[derive(Debug, Clone, Copy, PartialEq, Eq, Structural)]
pub struct HslColor {
    hue: u32,
    saturation: u32,
    lightness: u32,
}

impl HslColor {
    #[verifier::type_invariant]
    pub closed spec fn inv(self) -> bool {
        self.hue <= 360_000_000 && self.saturation <= 1_000_000 && self.lightness <= 1_000_000
    }

    pub closed spec fn spec_hue(&self) -> u32 {
        self.hue
    }

    pub closed spec fn spec_saturation(&self) -> u32 {
        self.saturation
    }

    pub closed spec fn spec_lightness(&self) -> u32 {
        self.lightness
    }

    /// The hue in micro-degrees.
    #[verifier::when_used_as_spec(spec_hue)]
    pub fn hue(&self) -> (h: u32)
        ensures
            h == self.spec_hue(),
    {
        self.hue
    }

    /// The saturation in micro-units.
    #[verifier::when_used_as_spec(spec_saturation)]
    pub fn saturation(&self) -> (s: u32)
        ensures
            s == self.spec_saturation(),
    {
        self.saturation
    }

    /// The lightness in micro-units.
    #[verifier::when_used_as_spec(spec_lightness)]
    pub fn lightness(&self) -> (l: u32)
        ensures
            l == self.spec_lightness(),
    {
        self.lightness
    }

    /// The specification-level constructor; meaningful when the three values
    /// lie in their valid ranges.
    pub closed spec fn spec_new(hue: int, saturation: int, lightness: int) -> HslColor {
        HslColor { hue: hue as u32, saturation: saturation as u32, lightness: lightness as u32 }
    }

    pub proof fn lemma_spec_new(hue: int, saturation: int, lightness: int)
        requires
            0 <= hue <= 360_000_000,
            0 <= saturation <= 1_000_000,
            0 <= lightness <= 1_000_000,
        ensures
            HslColor::spec_new(hue, saturation, lightness).spec_hue() == hue,
            HslColor::spec_new(hue, saturation, lightness).spec_saturation() == saturation,
            HslColor::spec_new(hue, saturation, lightness).spec_lightness() == lightness,
    {
    }

    /// Two HSL colors with the same three components are the same color.
    pub proof fn lemma_fields_determine(a: HslColor, b: HslColor)
        requires
            a.spec_hue() == b.spec_hue(),
            a.spec_saturation() == b.spec_saturation(),
            a.spec_lightness() == b.spec_lightness(),
        ensures
            a == b,
    {
    }

    /// What the type invariant grants: every reachable HSL color keeps its
    /// three components in range.  Obtain `inv` with `use_type_invariant`.
    pub proof fn lemma_inv_bounds(&self)
        requires
            self.inv(),
        ensures
            self.spec_hue() <= 360_000_000,
            self.spec_saturation() <= 1_000_000,
            self.spec_lightness() <= 1_000_000,
    {
    }

    /// Builds a color from a hue in micro-degrees and a saturation and
    /// lightness in micro-units, rejecting each value that lies outside its
    /// interval; the hue is checked first, then the saturation, then the
    /// lightness.
    pub fn new(hue: i64, saturation: i64, lightness: i64) -> (r: Result<HslColor, HslColorError>)
        ensures
            !(0 <= hue <= 360_000_000) ==> r == Err::<HslColor, HslColorError>(
                HslColorError::Hue { found: hue },
            ),
            0 <= hue <= 360_000_000 && !(0 <= saturation <= 1_000_000) ==> r == Err::<
                HslColor,
                HslColorError,
            >(HslColorError::Saturation { found: saturation }),
            0 <= hue <= 360_000_000 && 0 <= saturation <= 1_000_000 && !(0 <= lightness
                <= 1_000_000) ==> r == Err::<HslColor, HslColorError>(
                HslColorError::Lightness { found: lightness },
            ),
            0 <= hue <= 360_000_000 && 0 <= saturation <= 1_000_000 && 0 <= lightness <= 1_000_000
                ==> r == Ok::<HslColor, HslColorError>(
                HslColor::spec_new(hue as int, saturation as int, lightness as int),
            ),
            0 <= hue <= 360_000_000 && 0 <= saturation <= 1_000_000 && 0 <= lightness <= 1_000_000
                ==> (r matches Ok(c) && c.spec_hue() == hue && c.spec_saturation() == saturation
                && c.spec_lightness() == lightness),
    {
        if !(0 <= hue && hue <= 360_000_000) {
            return Err(HslColorError::Hue { found: hue });
        }
        if !(0 <= saturation && saturation <= 1_000_000) {
            return Err(HslColorError::Saturation { found: saturation });
        }
        if !(0 <= lightness && lightness <= 1_000_000) {
            return Err(HslColorError::Lightness { found: lightness });
        }
        Ok(
            HslColor {
                hue: hue as u32,
                saturation: saturation as u32,
                lightness: lightness as u32,
            },
        )
    }

    /// Adds the deltas to saturation and lightness, saturating each result
    /// into `[0, 1]`; the hue never changes.
    pub fn adjust(&self, saturation: i64, lightness: i64) -> (c: HslColor)
        ensures
            c.spec_hue() == self.spec_hue(),
            c.spec_saturation() as int == clamp_unit(self.spec_saturation() + saturation),
            c.spec_lightness() as int == clamp_unit(self.spec_lightness() + lightness),
    {
        proof {
            use_type_invariant(self);
        }
        HslColor {
            hue: self.hue,
            saturation: clamp_add(self.saturation, saturation),
            lightness: clamp_add(self.lightness, lightness),
        }
    }

    /// Adds the delta to lightness, saturating into `[0, 1]`.
    pub fn lighten(&self, amount: i64) -> (c: HslColor)
        ensures
            c.spec_hue() == self.spec_hue(),
            c.spec_saturation() == self.spec_saturation(),
            c.spec_lightness() as int == clamp_unit(self.spec_lightness() + amount),
    {
        proof {
            use_type_invariant(self);
        }
        HslColor {
            hue: self.hue,
            saturation: self.saturation,
            lightness: clamp_add(self.lightness, amount),
        }
    }

    /// Converts to RGB: the achromatic short-circuit when the saturation is
    /// zero, else the canonical hue fold, each channel scaled to `[0, 255]`
    /// and rounded half away from zero.
    pub fn to_rgb_color(&self) -> (c: RgbColor)
        ensures
            c.r as int == spec_hsl_to_rgb(
                self.spec_hue() as int,
                self.spec_saturation() as int,
                self.spec_lightness() as int,
            ).0,
            c.g as int == spec_hsl_to_rgb(
                self.spec_hue() as int,
                self.spec_saturation() as int,
                self.spec_lightness() as int,
            ).1,
            c.b as int == spec_hsl_to_rgb(
                self.spec_hue() as int,
                self.spec_saturation() as int,
                self.spec_lightness() as int,
            ).2,
    {
        proof {
            use_type_invariant(self);
        }
        let h = self.hue as u64;
        let s = self.saturation as u64;
        let l = self.lightness as u64;
        if s == 0 {
            proof {
                lemma_round_frac_bounds(l as int * 255, 1_000_000, 255);
            }
            let v = round_div_u64(l * 255, 1_000_000) as u8;
            RgbColor { r: v, g: v, b: v }
        } else {
            proof {
                lemma_pq_bounds(s as int, l as int);
                assert(l * (1_000_000 + s) <= 2_000_000_000_000 && l * s <= 1_000_000_000_000)
                    by (nonlinear_arith)
                    requires
                        0 <= s as int <= 1_000_000,
                        0 <= l as int <= 1_000_000,
                ;
            }
            let q12: u64 = if l < 500_000 {
                l * (1_000_000 + s)
            } else {
                (l + s) * 1_000_000 - l * s
            };
            let p12: u64 = 2 * l * 1_000_000 - q12;
            let tr: u64 = if h + 120_000_000 > 360_000_000 {
                h + 120_000_000 - 360_000_000
            } else {
                h + 120_000_000
            };
            let tb: u64 = if h < 120_000_000 {
                h + 240_000_000
            } else {
                h - 120_000_000
            };
            proof {
                assert(tr as int == wrap_deg(h as int + 120_000_000));
                assert(h as int == wrap_deg(h as int + 0));
                assert(tb as int == wrap_deg(h as int - 120_000_000));
            }
            let red = channel_exec(p12, q12, tr);
            let green = channel_exec(p12, q12, h);
            let blue = channel_exec(p12, q12, tb);
            RgbColor { r: red, g: green, b: blue }
        }
    }

    /// The canonical lowercase `#rrggbb` text of this color after conversion
    /// to RGB.
    pub fn hex(&self) -> (s: String)
        ensures
            s@ == ({
                let rgb = spec_hsl_to_rgb(
                    self.spec_hue() as int,
                    self.spec_saturation() as int,
                    self.spec_lightness() as int,
                );
                spec_rgb_hex(rgb.0, rgb.1, rgb.2)
            }),
    {
        self.to_rgb_color().hex()
    }

    /// Subtracts the delta from lightness, saturating into `[0, 1]`.
    pub fn darken(&self, amount: i64) -> (c: HslColor)
        ensures
            c.spec_hue() == self.spec_hue(),
            c.spec_saturation() == self.spec_saturation(),
            c.spec_lightness() as int == clamp_unit(self.spec_lightness() - amount),
    {
        proof {
            use_type_invariant(self);
        }
        HslColor {
            hue: self.hue,
            saturation: self.saturation,
            lightness: clamp_sub(self.lightness, amount),
        }
    }
}

fn clamp_add(base: u32, delta: i64) -> (r: u32)
    requires
        base <= 1_000_000,
    ensures
        r as int == clamp_unit(base + delta),
{
    let sum: i128 = base as i128 + delta as i128;
    if sum < 0 {
        0
    } else if sum > 1_000_000 {
        1_000_000
    } else {
        sum as u32
    }
}

fn clamp_sub(base: u32, delta: i64) -> (r: u32)
    requires
        base <= 1_000_000,
    ensures
        r as int == clamp_unit(base - delta),
{
    let sum: i128 = base as i128 - delta as i128;
    if sum < 0 {
        0
    } else if sum > 1_000_000 {
        1_000_000
    } else {
        sum as u32
    }
}

// ---- hexadecimal text form ----

pub open spec fn is_hex_digit(c: char) -> bool {
    ('0' <= c && c <= '9') || ('a' <= c && c <= 'f') || ('A' <= c && c <= 'F')
}

/// The value of a hexadecimal digit; meaningful when `is_hex_digit` holds.
pub open spec fn hex_val(c: char) -> int {
    if '0' <= c && c <= '9' {
        c as u32 - '0' as u32
    } else if 'a' <= c && c <= 'f' {
        c as u32 - 'a' as u32 + 10
    } else {
        c as u32 - 'A' as u32 + 10
    }
}

/// The lowercase digit for a value in `[0, 15]`.
pub open spec fn hex_digit_char(v: int) -> char {
    if v == 0 {
        '0'
    } else if v == 1 {
        '1'
    } else if v == 2 {
        '2'
    } else if v == 3 {
        '3'
    } else if v == 4 {
        '4'
    } else if v == 5 {
        '5'
    } else if v == 6 {
        '6'
    } else if v == 7 {
        '7'
    } else if v == 8 {
        '8'
    } else if v == 9 {
        '9'
    } else if v == 10 {
        'a'
    } else if v == 11 {
        'b'
    } else if v == 12 {
        'c'
    } else if v == 13 {
        'd'
    } else if v == 14 {
        'e'
    } else {
        'f'
    }
}

/// Exactly the 7-character form `#` followed by six hexadecimal digits,
/// case-insensitively.
pub open spec fn is_hex_color(s: Seq<char>) -> bool {
    s.len() == 7 && s[0] == '#' && (forall|i: int| 1 <= i < 7 ==> is_hex_digit(#[trigger] s[i]))
}

/// The byte encoded by the two digits at positions `i` and `i + 1`.
pub open spec fn hex_byte_val(s: Seq<char>, i: int) -> int {
    hex_val(s[i]) * 16 + hex_val(s[i + 1])
}

/// The canonical lowercase text `#rrggbb` of three channel values.
pub open spec fn spec_rgb_hex(r: int, g: int, b: int) -> Seq<char> {
    seq![
        '#',
        hex_digit_char(r / 16),
        hex_digit_char(r % 16),
        hex_digit_char(g / 16),
        hex_digit_char(g % 16),
        hex_digit_char(b / 16),
        hex_digit_char(b % 16),
    ]
}

fn hex_digit_val(c: char) -> (r: Option<u8>)
    ensures
        r is Some <==> is_hex_digit(c),
        r matches Some(v) ==> v as int == hex_val(c),
{
    if '0' <= c && c <= '9' {
        Some(((c as u32) - ('0' as u32)) as u8)
    } else if 'a' <= c && c <= 'f' {
        Some(((c as u32) - ('a' as u32) + 10) as u8)
    } else if 'A' <= c && c <= 'F' {
        Some(((c as u32) - ('A' as u32) + 10) as u8)
    } else {
        None
    }
}

/// Appends the lowercase digit of a value below 16.
fn push_hex_digit(s: &mut String, v: u8)
    requires
        v < 16,
    ensures
        final(s)@ == old(s)@.push(hex_digit_char(v as int)),
{
    if v == 0 {
        s.append("0");
        proof {
            reveal_strlit("0");
            assert(old(s)@ + "0"@ =~= old(s)@.push('0'));
        }
    } else if v == 1 {
        s.append("1");
        proof {
            reveal_strlit("1");
            assert(old(s)@ + "1"@ =~= old(s)@.push('1'));
        }
    } else if v == 2 {
        s.append("2");
        proof {
            reveal_strlit("2");
            assert(old(s)@ + "2"@ =~= old(s)@.push('2'));
        }
    } else if v == 3 {
        s.append("3");
        proof {
            reveal_strlit("3");
            assert(old(s)@ + "3"@ =~= old(s)@.push('3'));
        }
    } else if v == 4 {
        s.append("4");
        proof {
            reveal_strlit("4");
            assert(old(s)@ + "4"@ =~= old(s)@.push('4'));
        }
    } else if v == 5 {
        s.append("5");
        proof {
            reveal_strlit("5");
            assert(old(s)@ + "5"@ =~= old(s)@.push('5'));
        }
    } else if v == 6 {
        s.append("6");
        proof {
            reveal_strlit("6");
            assert(old(s)@ + "6"@ =~= old(s)@.push('6'));
        }
    } else if v == 7 {
        s.append("7");
        proof {
            reveal_strlit("7");
            assert(old(s)@ + "7"@ =~= old(s)@.push('7'));
        }
    } else if v == 8 {
        s.append("8");
        proof {
            reveal_strlit("8");
            assert(old(s)@ + "8"@ =~= old(s)@.push('8'));
        }
    } else if v == 9 {
        s.append("9");
        proof {
            reveal_strlit("9");
            assert(old(s)@ + "9"@ =~= old(s)@.push('9'));
        }
    } else if v == 10 {
        s.append("a");
        proof {
            reveal_strlit("a");
            assert(old(s)@ + "a"@ =~= old(s)@.push('a'));
        }
    } else if v == 11 {
        s.append("b");
        proof {
            reveal_strlit("b");
            assert(old(s)@ + "b"@ =~= old(s)@.push('b'));
        }
    } else if v == 12 {
        s.append("c");
        proof {
            reveal_strlit("c");
            assert(old(s)@ + "c"@ =~= old(s)@.push('c'));
        }
    } else if v == 13 {
        s.append("d");
        proof {
            reveal_strlit("d");
            assert(old(s)@ + "d"@ =~= old(s)@.push('d'));
        }
    } else if v == 14 {
        s.append("e");
        proof {
            reveal_strlit("e");
            assert(old(s)@ + "e"@ =~= old(s)@.push('e'));
        }
    } else {
        s.append("f");
        proof {
            reveal_strlit("f");
            assert(old(s)@ + "f"@ =~= old(s)@.push('f'));
        }
    }
}

/// Appends the two lowercase digits of one byte.
fn push_hex_byte(s: &mut String, v: u8)
    ensures
        final(s)@ == old(s)@.push(hex_digit_char(v as int / 16)).push(
            hex_digit_char(v as int % 16),
        ),
{
    push_hex_digit(s, v / 16);
    push_hex_digit(s, v % 16);
}

/// Every component of the RGB conversion lands inside its valid interval.
pub proof fn lemma_rgb_to_hsl_in_range(r: int, g: int, b: int)
    requires
        0 <= r <= 255,
        0 <= g <= 255,
        0 <= b <= 255,
    ensures
        0 <= spec_rgb_to_hsl(r, g, b).0 <= 360_000_000,
        0 <= spec_rgb_to_hsl(r, g, b).1 <= 1_000_000,
        0 <= spec_rgb_to_hsl(r, g, b).2 <= 1_000_000,
{
    let mx = max3(r, g, b);
    let mn = min3(r, g, b);
    lemma_round_frac_bounds((mx + mn) * 1_000_000, 510, 1_000_000);
    if mx != mn {
        let d = mx - mn;
        if mx + mn > 255 {
            lemma_round_frac_bounds(d * 1_000_000, 510 - (mx + mn), 1_000_000);
        } else {
            lemma_round_frac_bounds(d * 1_000_000, mx + mn, 1_000_000);
        }
        if r == mx {
            if g < b {
                lemma_round_frac_bounds((g - b + 6 * d) * 60_000_000, d, 360_000_000);
            } else {
                lemma_round_frac_bounds((g - b) * 60_000_000, d, 360_000_000);
            }
        } else if g == mx {
            lemma_round_frac_bounds((b - r + 2 * d) * 60_000_000, d, 360_000_000);
        } else {
            lemma_round_frac_bounds((r - g + 4 * d) * 60_000_000, d, 360_000_000);
        }
    }
}

impl From<RgbColor> for HslColor {
    /// The original conversion entry point: same result as `to_hsl_color`.
    fn from(color: RgbColor) -> (ret: HslColor) {
        let c = color.to_hsl_color();
        proof {
            let t = spec_rgb_to_hsl(color.r as int, color.g as int, color.b as int);
            lemma_rgb_to_hsl_in_range(color.r as int, color.g as int, color.b as int);
            HslColor::lemma_spec_new(t.0, t.1, t.2);
            HslColor::lemma_fields_determine(c, HslColor::spec_new(t.0, t.1, t.2));
        }
        c
    }
}

impl vstd::std_specs::convert::FromSpecImpl<RgbColor> for HslColor {
    open spec fn obeys_from_spec() -> bool {
        true
    }

    open spec fn from_spec(v: RgbColor) -> HslColor {
        HslColor::spec_new(
            spec_rgb_to_hsl(v.r as int, v.g as int, v.b as int).0,
            spec_rgb_to_hsl(v.r as int, v.g as int, v.b as int).1,
            spec_rgb_to_hsl(v.r as int, v.g as int, v.b as int).2,
        )
    }
}

impl From<HslColor> for RgbColor {
    /// The original conversion entry point: same result as `to_rgb_color`.
    fn from(color: HslColor) -> (ret: RgbColor) {
        proof {
            use_type_invariant(&color);
            lemma_hsl_to_rgb_in_range(
                color.spec_hue() as int,
                color.spec_saturation() as int,
                color.spec_lightness() as int,
            );
        }
        color.to_rgb_color()
    }
}

impl vstd::std_specs::convert::FromSpecImpl<HslColor> for RgbColor {
    open spec fn obeys_from_spec() -> bool {
        true
    }

    open spec fn from_spec(v: HslColor) -> RgbColor {
        RgbColor {
            r: spec_hsl_to_rgb(
                v.spec_hue() as int,
                v.spec_saturation() as int,
                v.spec_lightness() as int,
            ).0 as u8,
            g: spec_hsl_to_rgb(
                v.spec_hue() as int,
                v.spec_saturation() as int,
                v.spec_lightness() as int,
            ).1 as u8,
            b: spec_hsl_to_rgb(
                v.spec_hue() as int,
                v.spec_saturation() as int,
                v.spec_lightness() as int,
            ).2 as u8,
        }
    }
}

// ---- the closed union over the two representations ----

/// Any color the palette can hold: one of the two representations.  The
/// capability set of the original interface — adjust, lighten, darken,
/// conversion to RGB, hexadecimal text, duplication — dispatches over the
/// two variants.
#[derive(Debug, Clone, Copy, PartialEq, Eq, Structural)]
pub enum Color {
    Hsl(HslColor),
    Rgb(RgbColor),
}

impl Color {
    /// Validity is the HSL range invariant where it applies; reachable
    /// values always satisfy it.
    pub open spec fn valid(&self) -> bool {
        match self {
            Color::Hsl(h) => h.inv(),
            Color::Rgb(_) => true,
        }
    }

    /// The RGB channels of this color, converting if needed.
    pub open spec fn spec_to_rgb(&self) -> (int, int, int) {
        match self {
            Color::Hsl(h) => spec_hsl_to_rgb(
                h.spec_hue() as int,
                h.spec_saturation() as int,
                h.spec_lightness() as int,
            ),
            Color::Rgb(c) => (c.r as int, c.g as int, c.b as int),
        }
    }

    /// The HSL components of this color, converting if needed.
    pub open spec fn spec_to_hsl(&self) -> (int, int, int) {
        match self {
            Color::Hsl(h) => (
                h.spec_hue() as int,
                h.spec_saturation() as int,
                h.spec_lightness() as int,
            ),
            Color::Rgb(c) => spec_rgb_to_hsl(c.r as int, c.g as int, c.b as int),
        }
    }

    /// The canonical lowercase hexadecimal text of this color.
    pub open spec fn spec_hex(&self) -> Seq<char> {
        spec_rgb_hex(self.spec_to_rgb().0, self.spec_to_rgb().1, self.spec_to_rgb().2)
    }

    /// The color that `adjust` returns.
    pub open spec fn spec_adjust(&self, ds: int, dl: int) -> Color {
        Color::Hsl(
            HslColor::spec_new(
                self.spec_to_hsl().0,
                clamp_unit(self.spec_to_hsl().1 + ds),
                clamp_unit(self.spec_to_hsl().2 + dl),
            ),
        )
    }

    /// The color that `lighten` returns.
    pub open spec fn spec_lighten(&self, amount: int) -> Color {
        Color::Hsl(
            HslColor::spec_new(
                self.spec_to_hsl().0,
                self.spec_to_hsl().1,
                clamp_unit(self.spec_to_hsl().2 + amount),
            ),
        )
    }

    /// The color that `darken` returns.
    pub open spec fn spec_darken(&self, amount: int) -> Color {
        Color::Hsl(
            HslColor::spec_new(
                self.spec_to_hsl().0,
                self.spec_to_hsl().1,
                clamp_unit(self.spec_to_hsl().2 - amount),
            ),
        )
    }

    proof fn lemma_to_hsl_fits(&self)
        ensures
            self.spec_to_hsl().0 == self.spec_to_hsl().0 as u32,
            self.spec_to_hsl().1 == self.spec_to_hsl().1 as u32,
            self.spec_to_hsl().2 == self.spec_to_hsl().2 as u32,
    {
        match self {
            Color::Hsl(_) => {},
            Color::Rgb(c) => {
                lemma_rgb_to_hsl_in_range(c.r as int, c.g as int, c.b as int);
            },
        }
    }

    pub fn to_rgb(&self) -> (c: RgbColor)
        ensures
            c.r as int == self.spec_to_rgb().0,
            c.g as int == self.spec_to_rgb().1,
            c.b as int == self.spec_to_rgb().2,
    {
        match self {
            Color::Hsl(h) => h.to_rgb_color(),
            Color::Rgb(c) => *c,
        }
    }

    /// Adds the deltas to saturation and lightness with saturating clamp; an
    /// RGB color converts to HSL first and the result stays HSL.
    pub fn adjust(&self, saturation: i64, lightness: i64) -> (c: Color)
        ensures
            c matches Color::Hsl(x) && x.spec_hue() as int == self.spec_to_hsl().0
                && x.spec_saturation() as int == clamp_unit(self.spec_to_hsl().1 + saturation)
                && x.spec_lightness() as int == clamp_unit(self.spec_to_hsl().2 + lightness),
            c == self.spec_adjust(saturation as int, lightness as int),
    {
        let r = match self {
            Color::Hsl(h) => Color::Hsl(h.adjust(saturation, lightness)),
            Color::Rgb(c) => Color::Hsl(c.to_hsl_color().adjust(saturation, lightness)),
        };
        proof {
            self.lemma_to_hsl_fits();
            if let Color::Hsl(x) = r {
                HslColor::lemma_fields_determine(
                    x,
                    HslColor::spec_new(
                        self.spec_to_hsl().0,
                        clamp_unit(self.spec_to_hsl().1 + saturation),
                        clamp_unit(self.spec_to_hsl().2 + lightness),
                    ),
                );
            }
        }
        r
    }

    /// Adds the delta to lightness with saturating clamp.
    pub fn lighten(&self, amount: i64) -> (c: Color)
        ensures
            c matches Color::Hsl(x) && x.spec_hue() as int == self.spec_to_hsl().0
                && x.spec_saturation() as int == self.spec_to_hsl().1 && x.spec_lightness() as int
                == clamp_unit(self.spec_to_hsl().2 + amount),
            c == self.spec_lighten(amount as int),
    {
        let r = match self {
            Color::Hsl(h) => Color::Hsl(h.lighten(amount)),
            Color::Rgb(c) => Color::Hsl(c.to_hsl_color().lighten(amount)),
        };
        proof {
            self.lemma_to_hsl_fits();
            if let Color::Hsl(x) = r {
                HslColor::lemma_fields_determine(
                    x,
                    HslColor::spec_new(
                        self.spec_to_hsl().0,
                        self.spec_to_hsl().1,
                        clamp_unit(self.spec_to_hsl().2 + amount),
                    ),
                );
            }
        }
        r
    }

    /// Subtracts the delta from lightness with saturating clamp.
    pub fn darken(&self, amount: i64) -> (c: Color)
        ensures
            c matches Color::Hsl(x) && x.spec_hue() as int == self.spec_to_hsl().0
                && x.spec_saturation() as int == self.spec_to_hsl().1 && x.spec_lightness() as int
                == clamp_unit(self.spec_to_hsl().2 - amount),
            c == self.spec_darken(amount as int),
    {
        let r = match self {
            Color::Hsl(h) => Color::Hsl(h.darken(amount)),
            Color::Rgb(c) => Color::Hsl(c.to_hsl_color().darken(amount)),
        };
        proof {
            self.lemma_to_hsl_fits();
            if let Color::Hsl(x) = r {
                HslColor::lemma_fields_determine(
                    x,
                    HslColor::spec_new(
                        self.spec_to_hsl().0,
                        self.spec_to_hsl().1,
                        clamp_unit(self.spec_to_hsl().2 - amount),
                    ),
                );
            }
        }
        r
    }

    /// The canonical lowercase hexadecimal text of this color.
    pub fn hex(&self) -> (s: String)
        ensures
            s@ == self.spec_hex(),
    {
        match self {
            Color::Hsl(h) => h.hex(),
            Color::Rgb(c) => c.hex(),
        }
    }

    /// An independent duplicate of this color.
    pub fn copy(&self) -> (c: Color)
        ensures
            c == *self,
    {
        *self
    }
}

// ---- linear mix ----

/// One channel of a linear mix: `c1 * w + c2 * (1 - w)` in micro-units,
/// truncated (not rounded) to an integer intensity.
pub open spec fn mix_channel(c1: int, c2: int, w: int) -> int {
    (c1 * w + c2 * (1_000_000 - w)) / 1_000_000
}

/// The color that a successful `mix` returns.
pub open spec fn spec_mix(c1: Color, c2: Color, w: int) -> RgbColor {
    RgbColor {
        r: mix_channel(c1.spec_to_rgb().0, c2.spec_to_rgb().0, w) as u8,
        g: mix_channel(c1.spec_to_rgb().1, c2.spec_to_rgb().1, w) as u8,
        b: mix_channel(c1.spec_to_rgb().2, c2.spec_to_rgb().2, w) as u8,
    }
}

fn mix_channel_exec(c1: u8, c2: u8, w: u64) -> (v: u8)
    requires
        w <= 1_000_000,
    ensures
        v as int == mix_channel(c1 as int, c2 as int, w as int),
{
    proof {
        assert(c1 as int * w as int + c2 as int * (1_000_000 - w as int) <= 255_000_000)
            by (nonlinear_arith)
            requires
                0 <= w as int <= 1_000_000,
                c1 as int <= 255,
                c2 as int <= 255,
        ;
        lemma_div_pos_is_pos(c1 as int * w as int + c2 as int * (1_000_000 - w as int), 1_000_000);
        lemma_div_is_ordered(
            c1 as int * w as int + c2 as int * (1_000_000 - w as int),
            255_000_000,
            1_000_000,
        );
    }
    ((c1 as u64 * w + c2 as u64 * (1_000_000 - w)) / 1_000_000) as u8
}

/// Mixes two colors channel-wise in RGB with the given weight in
/// micro-units; a weight outside `[0, 1]` is rejected.
pub fn mix(color1: &Color, color2: &Color, weight: i64) -> (r: Result<RgbColor, RgbColorError>)
    ensures
        0 <= weight <= 1_000_000 ==> (r matches Ok(c) && c.r as int == mix_channel(
            color1.spec_to_rgb().0,
            color2.spec_to_rgb().0,
            weight as int,
        ) && c.g as int == mix_channel(
            color1.spec_to_rgb().1,
            color2.spec_to_rgb().1,
            weight as int,
        ) && c.b as int == mix_channel(
            color1.spec_to_rgb().2,
            color2.spec_to_rgb().2,
            weight as int,
        )),
        0 <= weight <= 1_000_000 ==> r == Ok::<RgbColor, RgbColorError>(
            spec_mix(*color1, *color2, weight as int),
        ),
        !(0 <= weight <= 1_000_000) ==> (r matches Err(e) && e@ == ErrSpec::Mix {
            found: weight as int,
        }),
{
    if !(0 <= weight && weight <= 1_000_000) {
        return Err(RgbColorError::Mix { found: weight });
    }
    let c1 = color1.to_rgb();
    let c2 = color2.to_rgb();
    let w = weight as u64;
    Ok(
        RgbColor {
            r: mix_channel_exec(c1.r, c2.r, w),
            g: mix_channel_exec(c1.g, c2.g, w),
            b: mix_channel_exec(c1.b, c2.b, w),
        },
    )
}

// ---- stated and proved laws ----

proof fn lemma_hex_digit_roundtrip(c: char)
    requires
        is_hex_digit(c),
    ensures
        hex_digit_char(hex_val(c)) == lower_char(c),
{
}

proof fn lemma_byte_digits(a: int, b: int)
    requires
        0 <= a <= 15,
        0 <= b <= 15,
    ensures
        (a * 16 + b) / 16 == a,
        (a * 16 + b) % 16 == b,
{
    lemma_fundamental_div_mod_converse(a * 16 + b, 16, a, b);
}

/// Law: parsing a well-formed `#rrggbb` string and rendering the parsed
/// color reproduces the input, lowercased.
pub proof fn lemma_parse_hex_left_inverse(s: Seq<char>)
    requires
        is_hex_color(s),
    ensures
        spec_rgb_hex(hex_byte_val(s, 1), hex_byte_val(s, 3), hex_byte_val(s, 5))
            == s.map_values(|c: char| lower_char(c)),
{
    lemma_byte_digits(hex_val(s[1]), hex_val(s[2]));
    lemma_byte_digits(hex_val(s[3]), hex_val(s[4]));
    lemma_byte_digits(hex_val(s[5]), hex_val(s[6]));
    lemma_hex_digit_roundtrip(s[1]);
    lemma_hex_digit_roundtrip(s[2]);
    lemma_hex_digit_roundtrip(s[3]);
    lemma_hex_digit_roundtrip(s[4]);
    lemma_hex_digit_roundtrip(s[5]);
    lemma_hex_digit_roundtrip(s[6]);
    assert(spec_rgb_hex(hex_byte_val(s, 1), hex_byte_val(s, 3), hex_byte_val(s, 5)) =~= s
        .map_values(|c: char| lower_char(c)));
}

/// Every channel of the HSL conversion is a valid 8-bit intensity.
pub proof fn lemma_hsl_to_rgb_in_range(h: int, s: int, l: int)
    requires
        0 <= h <= 360_000_000,
        0 <= s <= 1_000_000,
        0 <= l <= 1_000_000,
    ensures
        0 <= spec_hsl_to_rgb(h, s, l).0 <= 255,
        0 <= spec_hsl_to_rgb(h, s, l).1 <= 255,
        0 <= spec_hsl_to_rgb(h, s, l).2 <= 255,
{
    if s == 0 {
        lemma_round_frac_bounds(l * 255, 1_000_000, 255);
    } else {
        lemma_pq_bounds(s, l);
        let p12 = hsl_p12(s, l);
        let q12 = hsl_q12(s, l);
        lemma_channel_num_bounds(p12, q12, wrap_deg(h + 120_000_000));
        lemma_channel_num_bounds(p12, q12, wrap_deg(h + 0));
        lemma_channel_num_bounds(p12, q12, wrap_deg(h - 120_000_000));
        lemma_round_frac_bounds(
            channel_num(p12, q12, wrap_deg(h + 120_000_000)) * 255,
            60_000_000_000_000_000_000,
            255,
        );
        lemma_round_frac_bounds(
            channel_num(p12, q12, wrap_deg(h + 0)) * 255,
            60_000_000_000_000_000_000,
            255,
        );
        lemma_round_frac_bounds(
            channel_num(p12, q12, wrap_deg(h - 120_000_000)) * 255,
            60_000_000_000_000_000_000,
            255,
        );
    }
}

/// Law: mixing a color with itself gives that color back for every weight
/// in `[0, 1]`; a weight of one gives the first color exactly and a weight
/// of zero the second.
pub proof fn lemma_mix_laws(c1: Color, c2: Color, w: int)
    requires
        c1.valid(),
        c2.valid(),
        0 <= w <= 1_000_000,
    ensures
        mix_channel(c1.spec_to_rgb().0, c1.spec_to_rgb().0, w) == c1.spec_to_rgb().0,
        mix_channel(c1.spec_to_rgb().1, c1.spec_to_rgb().1, w) == c1.spec_to_rgb().1,
        mix_channel(c1.spec_to_rgb().2, c1.spec_to_rgb().2, w) == c1.spec_to_rgb().2,
        mix_channel(c1.spec_to_rgb().0, c2.spec_to_rgb().0, 1_000_000) == c1.spec_to_rgb().0,
        mix_channel(c1.spec_to_rgb().1, c2.spec_to_rgb().1, 1_000_000) == c1.spec_to_rgb().1,
        mix_channel(c1.spec_to_rgb().2, c2.spec_to_rgb().2, 1_000_000) == c1.spec_to_rgb().2,
        mix_channel(c1.spec_to_rgb().0, c2.spec_to_rgb().0, 0) == c2.spec_to_rgb().0,
        mix_channel(c1.spec_to_rgb().1, c2.spec_to_rgb().1, 0) == c2.spec_to_rgb().1,
        mix_channel(c1.spec_to_rgb().2, c2.spec_to_rgb().2, 0) == c2.spec_to_rgb().2,
{
    proof_color_in_range(c1);
    proof_color_in_range(c2);
    lemma_mix_channel_laws(c1.spec_to_rgb().0, c2.spec_to_rgb().0, w);
    lemma_mix_channel_laws(c1.spec_to_rgb().1, c2.spec_to_rgb().1, w);
    lemma_mix_channel_laws(c1.spec_to_rgb().2, c2.spec_to_rgb().2, w);
}

proof fn proof_color_in_range(c: Color)
    requires
        c.valid(),
    ensures
        0 <= c.spec_to_rgb().0 <= 255,
        0 <= c.spec_to_rgb().1 <= 255,
        0 <= c.spec_to_rgb().2 <= 255,
{
    match c {
        Color::Hsl(h) => {
            h.lemma_inv_bounds();
            lemma_hsl_to_rgb_in_range(
                h.spec_hue() as int,
                h.spec_saturation() as int,
                h.spec_lightness() as int,
            );
        },
        Color::Rgb(_) => {},
    }
}

proof fn lemma_mix_channel_laws(x: int, y: int, w: int)
    requires
        0 <= x <= 255,
        0 <= y <= 255,
        0 <= w <= 1_000_000,
    ensures
        mix_channel(x, x, w) == x,
        mix_channel(x, y, 1_000_000) == x,
        mix_channel(x, y, 0) == y,
{
    assert(x * w + x * (1_000_000 - w) == x * 1_000_000) by (nonlinear_arith);
    lemma_div_by_multiple(x, 1_000_000);
    lemma_div_by_multiple(y, 1_000_000);
}

/// Rounding moves a fraction by at most half of its denominator.
proof fn lemma_round_frac_err(n: int, d: int)
    requires
        d > 0,
    ensures
        2 * n - d < 2 * d * round_frac(n, d) <= 2 * n + d,
{
    lemma_fundamental_div_mod(2 * n + d, 2 * d);
    lemma_mod_bound(2 * n + d, 2 * d);
}

/// A common positive factor of numerator and denominator cancels.
proof fn lemma_div_cancel_factor(a: int, b: int, k: int)
    requires
        b > 0,
        k > 0,
    ensures
        (a * k) / (b * k) == a / b,
{
    let q = a / b;
    let r = a % b;
    lemma_fundamental_div_mod(a, b);
    lemma_mod_bound(a, b);
    assert(a * k == q * (b * k) + r * k && 0 <= r * k && r * k < b * k) by (nonlinear_arith)
        requires
            a == b * q + r,
            0 <= r < b,
            k > 0,
    ;
    lemma_fundamental_div_mod_converse(a * k, b * k, q, r * k);
}

proof fn lemma_round_cancel(a: int, b: int, k: int)
    requires
        b > 0,
        k > 0,
    ensures
        round_frac(a * k, b * k) == round_frac(a, b),
{
    assert(2 * (a * k) + b * k == (2 * a + b) * k) by (nonlinear_arith);
    assert(2 * (b * k) == (2 * b) * k) by (nonlinear_arith);
    lemma_div_cancel_factor(2 * a + b, 2 * b, k);
}

/// Rounding is monotone in the numerator.
proof fn lemma_round_mono(n1: int, n2: int, d: int)
    requires
        n1 <= n2,
        d > 0,
    ensures
        round_frac(n1, d) <= round_frac(n2, d),
{
    lemma_div_is_ordered(2 * n1 + d, 2 * n2 + d, 2 * d);
}

/// Law (lightness round trip): converting any valid color to RGB and back
/// moves the lightness by less than 0.002 of a unit — well inside the
/// documented 0.01 tolerance.
pub proof fn lemma_lightness_round_trip(h: int, s: int, l: int)
    requires
        0 <= h <= 360_000_000,
        0 <= s <= 1_000_000,
        0 <= l <= 1_000_000,
    ensures
        ({
            let rgb = spec_hsl_to_rgb(h, s, l);
            let back = spec_rgb_to_hsl(rgb.0, rgb.1, rgb.2);
            -2_000 <= back.2 - l <= 2_000
        }),
{
    if s == 0 {
        let v = round_frac(l * 255, 1_000_000);
        lemma_round_frac_bounds(l * 255, 1_000_000, 255);
        lemma_round_frac_err(l * 255, 1_000_000);
        let a = 2 * v;
        let lp = round_frac(a * 1_000_000, 510);
        lemma_round_frac_err(a * 1_000_000, 510);
        assert(max3(v, v, v) == v && min3(v, v, v) == v);
        assert(-2_000 <= lp - l <= 2_000);
    } else {
        let p12 = hsl_p12(s, l);
        let q12 = hsl_q12(s, l);
        lemma_pq_bounds(s, l);
        let tr = wrap_deg(h + 120_000_000);
        let tg = wrap_deg(h + 0);
        let tb = wrap_deg(h - 120_000_000);
        let nr = channel_num(p12, q12, tr);
        let ng = channel_num(p12, q12, tg);
        let nb = channel_num(p12, q12, tb);
        lemma_channel_num_bounds(p12, q12, tr);
        lemma_channel_num_bounds(p12, q12, tg);
        lemma_channel_num_bounds(p12, q12, tb);
        let nq = q12 * 60_000_000;
        let np = p12 * 60_000_000;
        // one sample point always sits on the high plateau of the hue fold
        // and one on the low plateau
        if h < 60_000_000 {
            assert(tr == h + 120_000_000 && nr == nq);
            assert(tb == h + 240_000_000 && nb == np);
        } else if h < 120_000_000 {
            assert(tg == h && ng == nq);
            assert(tb == h + 240_000_000 && nb == np);
        } else if h < 180_000_000 {
            assert(tg == h && ng == nq);
            assert(tr == h + 120_000_000 - 360_000_000 + 360_000_000 && nr == np);
        } else if h < 240_000_000 {
            assert(tb == h - 120_000_000 && nb == nq);
            assert(tr == h + 120_000_000 && nr == np);
        } else if h < 300_000_000 {
            assert(tb == h - 120_000_000 && nb == nq);
            assert(tg == h && ng == np);
        } else {
            assert(tr == h + 120_000_000 - 360_000_000 && nr == nq);
            assert(tg == h && ng == np);
        }
        let den = 60_000_000_000_000_000_000;
        let cr = round_frac(nr * 255, den);
        let cg = round_frac(ng * 255, den);
        let cb = round_frac(nb * 255, den);
        lemma_round_mono(np * 255, nr * 255, den);
        lemma_round_mono(np * 255, ng * 255, den);
        lemma_round_mono(np * 255, nb * 255, den);
        lemma_round_mono(nr * 255, nq * 255, den);
        lemma_round_mono(ng * 255, nq * 255, den);
        lemma_round_mono(nb * 255, nq * 255, den);
        let cq = round_frac(nq * 255, den);
        let cp = round_frac(np * 255, den);
        assert(max3(cr, cg, cb) == cq);
        assert(min3(cr, cg, cb) == cp);
        // cancel the common factor of the channel denominator
        assert(nq * 255 == (q12 * 255) * 60_000_000) by (nonlinear_arith)
            requires
                nq == q12 * 60_000_000,
        ;
        assert(np * 255 == (p12 * 255) * 60_000_000) by (nonlinear_arith)
            requires
                np == p12 * 60_000_000,
        ;
        assert(den == 1_000_000_000_000 * 60_000_000);
        lemma_round_cancel(q12 * 255, 1_000_000_000_000, 60_000_000);
        lemma_round_cancel(p12 * 255, 1_000_000_000_000, 60_000_000);
        lemma_round_frac_err(q12 * 255, 1_000_000_000_000);
        lemma_round_frac_err(p12 * 255, 1_000_000_000_000);
        lemma_round_frac_bounds(q12 * 255, 1_000_000_000_000, 255);
        lemma_round_frac_bounds(p12 * 255, 1_000_000_000_000, 255);
        let a = cq + cp;
        let lp = round_frac(a * 1_000_000, 510);
        lemma_round_frac_err(a * 1_000_000, 510);
        assert(p12 + q12 == 2 * l * 1_000_000);
        assert(-2_000 <= lp - l <= 2_000);
    }
}

/// Law: a color with zero saturation comes back from the round trip through
/// RGB with hue and saturation forced to zero, whatever its hue was.
pub proof fn lemma_achromatic_round_trip(h: int, l: int)
    requires
        0 <= h <= 360_000_000,
        0 <= l <= 1_000_000,
    ensures
        spec_rgb_to_hsl(
            spec_hsl_to_rgb(h, 0, l).0,
            spec_hsl_to_rgb(h, 0, l).1,
            spec_hsl_to_rgb(h, 0, l).2,
        ).0 == 0,
        spec_rgb_to_hsl(
            spec_hsl_to_rgb(h, 0, l).0,
            spec_hsl_to_rgb(h, 0, l).1,
            spec_hsl_to_rgb(h, 0, l).2,
        ).1 == 0,
{
}

} // verus!
