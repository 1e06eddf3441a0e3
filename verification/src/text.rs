use vstd::prelude::*;
use vstd::string::StrSliceExecFns;

verus! {

/// Lowercases one ASCII letter; every other character is unchanged.
pub open spec fn lower_char(c: char) -> char {
    if 'A' <= c && c <= 'Z' {
        (((c as u8) + 32) as u8) as char
    } else {
        c
    }
}

/// Collects the characters of a string slice into a vector with the same
/// view, so that parsers can index them.
pub fn to_chars(s: &str) -> (v: Vec<char>)
    ensures
        v@ == s@,
{
    let n = s.unicode_len();
    let mut v: Vec<char> = Vec::new();
    let mut i: usize = 0;
    while i < n
        invariant
            i <= n,
            n == s@.len(),
            v@ == s@.take(i as int),
        decreases n - i,
    {
        let c = s.get_char(i);
        v.push(c);
        proof {
            assert(s@.take(i + 1) =~= s@.take(i as int).push(s@[i as int]));
        }
        i += 1;
    }
    proof {
        assert(s@.take(n as int) =~= s@);
    }
    v
}

// ---- character classes ----

/// ASCII whitespace, the blanks that argument trimming removes.
pub open spec fn is_space(c: char) -> bool {
    c == ' ' || c == '\t' || c == '\n' || c == '\r' || c == '\u{b}' || c == '\u{c}'
}

fn is_space_exec(c: char) -> (r: bool)
    ensures
        r == is_space(c),
{
    c == ' ' || c == '\t' || c == '\n' || c == '\r' || c == '\u{b}' || c == '\u{c}'
}

pub open spec fn is_digit(c: char) -> bool {
    '0' <= c && c <= '9'
}

/// The value of a decimal digit; meaningful when `is_digit` holds.
pub open spec fn digit_val(c: char) -> int {
    c as u32 - '0' as u32
}

fn digit_val_exec(c: char) -> (r: Option<u8>)
    ensures
        r is Some <==> is_digit(c),
        r matches Some(v) ==> v as int == digit_val(c) && v < 10,
{
    if '0' <= c && c <= '9' {
        Some(((c as u32) - ('0' as u32)) as u8)
    } else {
        None
    }
}

pub fn lower_char_exec(c: char) -> (r: char)
    ensures
        r == lower_char(c),
{
    if 'A' <= c && c <= 'Z' {
        ((c as u8) + 32) as char
    } else {
        c
    }
}

/// Equality up to ASCII letter case.
pub open spec fn eq_ignore_case(a: Seq<char>, b: Seq<char>) -> bool {
    a.len() == b.len() && (forall|i: int|
        0 <= i < a.len() ==> lower_char(a[i]) == lower_char(#[trigger] b[i]))
}

/// Compares a character vector against a string slice up to ASCII case.
pub fn eq_ignore_case_exec(a: &Vec<char>, b: &str) -> (r: bool)
    ensures
        r == eq_ignore_case(a@, b@),
{
    let n = b.unicode_len();
    if a.len() != n {
        return false;
    }
    let mut i: usize = 0;
    while i < n
        invariant
            i <= n,
            a@.len() == n,
            b@.len() == n,
            forall|j: int| 0 <= j < i ==> lower_char(a@[j]) == lower_char(#[trigger] b@[j]),
        decreases n - i,
    {
        if lower_char_exec(a[i]) != lower_char_exec(b.get_char(i)) {
            return false;
        }
        i += 1;
    }
    true
}

// ---- trimming ----

pub open spec fn trim_front(s: Seq<char>) -> Seq<char>
    decreases s.len(),
{
    if s.len() > 0 && is_space(s[0]) {
        trim_front(s.drop_first())
    } else {
        s
    }
}

pub open spec fn trim_back(s: Seq<char>) -> Seq<char>
    decreases s.len(),
{
    if s.len() > 0 && is_space(s.last()) {
        trim_back(s.drop_last())
    } else {
        s
    }
}

/// The argument with leading and trailing ASCII whitespace removed.
pub open spec fn spec_trim(s: Seq<char>) -> Seq<char> {
    trim_back(trim_front(s))
}

proof fn lemma_trim_front_skip(s: Seq<char>, k: int)
    requires
        0 <= k <= s.len(),
        forall|i: int| 0 <= i < k ==> is_space(#[trigger] s[i]),
        k == s.len() || !is_space(s[k]),
    ensures
        trim_front(s) == s.skip(k),
    decreases k,
{
    if k == 0 {
        assert(s.skip(0) =~= s);
    } else {
        assert(is_space(s[0]));
        lemma_trim_front_skip(s.drop_first(), k - 1);
        assert(s.drop_first().skip(k - 1) =~= s.skip(k));
    }
}

proof fn lemma_trim_back_take(s: Seq<char>, k: int)
    requires
        0 <= k <= s.len(),
        forall|i: int| k <= i < s.len() ==> is_space(#[trigger] s[i]),
        k == 0 || !is_space(s[k - 1]),
    ensures
        trim_back(s) == s.take(k),
    decreases s.len() - k,
{
    if k == s.len() {
        if s.len() > 0 {
            assert(!is_space(s.last()));
        }
        assert(s.take(k) =~= s);
    } else {
        assert(is_space(s.last()));
        lemma_trim_back_take(s.drop_last(), k);
        assert(s.drop_last().take(k) =~= s.take(k));
    }
}

/// Finds the bounds of the trimmed segment `[start, end)` of a character
/// vector.
fn trim_indices(chars: &Vec<char>, start: usize, end: usize) -> (r: (usize, usize))
    requires
        start <= end <= chars@.len(),
    ensures
        start <= r.0 <= r.1 <= end,
        chars@.subrange(r.0 as int, r.1 as int) == spec_trim(
            chars@.subrange(start as int, end as int),
        ),
{
    let mut lo = start;
    while lo < end && is_space_exec(chars[lo])
        invariant
            start <= lo <= end <= chars@.len(),
            forall|i: int| start <= i < lo ==> is_space(#[trigger] chars@[i]),
        decreases end - lo,
    {
        lo += 1;
    }
    let mut hi = end;
    while hi > lo && is_space_exec(chars[hi - 1])
        invariant
            lo <= hi <= end <= chars@.len(),
            forall|i: int| hi <= i < end ==> is_space(#[trigger] chars@[i]),
        decreases hi,
    {
        hi -= 1;
    }
    proof {
        let seg = chars@.subrange(start as int, end as int);
        lemma_trim_front_skip(seg, lo - start);
        assert(seg.skip(lo - start) =~= chars@.subrange(lo as int, end as int));
        let seg2 = chars@.subrange(lo as int, end as int);
        lemma_trim_back_take(seg2, hi - lo);
        assert(seg2.take(hi - lo) =~= chars@.subrange(lo as int, hi as int));
    }
    (lo, hi)
}

// ---- splitting on a separator ----

/// The position of the first occurrence of `sep`, or past the end if there
/// is none; total, with its properties given by `lemma_first_at`.
pub open spec fn first_at(s: Seq<char>, sep: char) -> int
    decreases s.len(),
{
    if s.len() == 0 {
        0
    } else if s[0] == sep {
        0
    } else {
        1 + first_at(s.drop_first(), sep)
    }
}

pub proof fn lemma_first_at(s: Seq<char>, sep: char)
    ensures
        0 <= first_at(s, sep) <= s.len(),
        first_at(s, sep) < s.len() ==> s[first_at(s, sep)] == sep,
        forall|j: int| 0 <= j < first_at(s, sep) ==> s[j] != sep,
    decreases s.len(),
{
    if s.len() > 0 && s[0] != sep {
        lemma_first_at(s.drop_first(), sep);
        assert forall|j: int| 0 <= j < first_at(s, sep) implies s[j] != sep by {
            if j > 0 {
                assert(s.drop_first()[j - 1] == s[j]);
            }
        }
    }
}

pub proof fn lemma_first_at_is(s: Seq<char>, sep: char, i: int)
    requires
        0 <= i < s.len(),
        s[i] == sep,
        forall|j: int| 0 <= j < i ==> s[j] != sep,
    ensures
        first_at(s, sep) == i,
    decreases i,
{
    if i > 0 {
        lemma_first_at_is(s.drop_first(), sep, i - 1);
    }
}

pub proof fn lemma_first_at_none(s: Seq<char>, sep: char)
    requires
        forall|j: int| 0 <= j < s.len() ==> s[j] != sep,
    ensures
        first_at(s, sep) == s.len(),
    decreases s.len(),
{
    if s.len() > 0 {
        lemma_first_at_none(s.drop_first(), sep);
    }
}

/// Splits at every occurrence of `sep`; the separators themselves are
/// dropped, and `n` separators give `n + 1` pieces.
pub open spec fn split_at_char(s: Seq<char>, sep: char) -> Seq<Seq<char>>
    decreases s.len(),
{
    let i = first_at(s, sep);
    if 0 <= i < s.len() && s[i] == sep {
        seq![s.take(i)] + split_at_char(s.skip(i + 1), sep)
    } else {
        seq![s]
    }
}

/// The comma-separated arguments of an expression, each trimmed.
pub open spec fn spec_split_trim(s: Seq<char>) -> Seq<Seq<char>> {
    split_at_char(s, ',').map_values(|p: Seq<char>| spec_trim(p))
}

/// The view of a vector of owned strings.
pub open spec fn strs_view(v: Seq<String>) -> Seq<Seq<char>> {
    v.map_values(|p: String| p@)
}

/// Splits on commas and trims each piece.
pub fn split_trim(s: &str) -> (parts: Vec<String>)
    ensures
        strs_view(parts@) == spec_split_trim(s@),
{
    let chars = to_chars(s);
    let n = chars.len();
    let mut parts: Vec<String> = Vec::new();
    let mut start: usize = 0;
    proof {
        assert(s@.skip(0) =~= s@);
        assert(strs_view(parts@) + spec_split_trim(s@) =~= spec_split_trim(s@));
    }
    loop
        invariant
            start <= n,
            n == s@.len(),
            chars@ == s@,
            strs_view(parts@) + split_at_char(s@.skip(start as int), ',').map_values(
                |p: Seq<char>| spec_trim(p),
            ) == spec_split_trim(s@),
        decreases n - start,
    {
        let mut k = start;
        while k < n && chars[k] != ','
            invariant
                start <= k <= n,
                n == s@.len(),
                chars@ == s@,
                forall|j: int| start <= j < k ==> s@[j] != ',',
            decreases n - k,
        {
            k += 1;
        }
        let (lo, hi) = trim_indices(&chars, start, k);
        let piece = s.substring_char(lo, hi).to_owned();
        let ghost prev = parts@;
        let ghost rest = s@.skip(start as int);
        proof {
            assert(chars@.subrange(start as int, k as int) =~= rest.take(k - start));
            assert(piece@ == spec_trim(rest.take(k - start)));
        }
        parts.push(piece);
        if k == n {
            proof {
                lemma_first_at_none(rest, ',');
                assert(rest.take(k - start) =~= rest);
                assert(split_at_char(rest, ',') =~= seq![rest]);
                assert(split_at_char(rest, ',').map_values(|p: Seq<char>| spec_trim(p)) =~= seq![
                    piece@,
                ]);
                assert(strs_view(parts@) =~= strs_view(prev).push(piece@));
                assert(strs_view(prev).push(piece@) =~= strs_view(prev) + seq![piece@]);
                assert(strs_view(parts@) =~= spec_split_trim(s@));
            }
            return parts;
        }
        proof {
            lemma_first_at_is(rest, ',', k - start);
            assert(rest.skip(k - start + 1) =~= s@.skip(k + 1));
            assert(split_at_char(rest, ',') == seq![rest.take(k - start)] + split_at_char(
                s@.skip(k + 1),
                ',',
            ));
            assert(split_at_char(rest, ',').map_values(|p: Seq<char>| spec_trim(p)) =~= seq![
                piece@,
            ] + split_at_char(s@.skip(k + 1), ',').map_values(|p: Seq<char>| spec_trim(p)));
            assert(strs_view(parts@) =~= strs_view(prev).push(piece@));
            assert(strs_view(parts@) + split_at_char(s@.skip(k + 1), ',').map_values(
                |p: Seq<char>| spec_trim(p),
            ) =~= strs_view(prev) + (seq![piece@] + split_at_char(s@.skip(k + 1), ',').map_values(
                |p: Seq<char>| spec_trim(p),
            )));
        }
        start = k + 1;
    }
}

// ---- decimal numbers in micro-units ----

pub open spec fn all_digits(s: Seq<char>) -> bool {
    forall|i: int| 0 <= i < s.len() ==> is_digit(#[trigger] s[i])
}

/// The value of a digit string read in base ten.
pub open spec fn digits_val(s: Seq<char>) -> int
    decreases s.len(),
{
    if s.len() == 0 {
        0
    } else {
        digits_val(s.drop_last()) * 10 + digit_val(s.last())
    }
}

pub open spec fn pow10(k: nat) -> int
    decreases k,
{
    if k == 0 {
        1
    } else {
        10 * pow10((k - 1) as nat)
    }
}

/// The value of a fractional digit string in micro-units; digits beyond the
/// sixth are dropped, which fixes the parser's precision at the micro grid.
pub open spec fn frac_micro(s: Seq<char>) -> int {
    if s.len() >= 6 {
        digits_val(s.take(6))
    } else {
        digits_val(s) * pow10((6 - s.len()) as nat)
    }
}

/// A decimal number: an optional sign, then digits with at most one point
/// and at least one digit on either side of it.
pub open spec fn spec_is_number(s: Seq<char>) -> bool {
    let t = if s.len() > 0 && (s[0] == '+' || s[0] == '-') {
        s.drop_first()
    } else {
        s
    };
    let i = first_at(t, '.');
    if 0 <= i < t.len() && t[i] == '.' {
        all_digits(t.take(i)) && all_digits(t.skip(i + 1)) && t.len() > 1
    } else {
        t.len() > 0 && all_digits(t)
    }
}

/// The value in micro-units of a number that `spec_is_number` accepts.
pub open spec fn spec_number_micro(s: Seq<char>) -> int {
    let neg = s.len() > 0 && s[0] == '-';
    let t = if s.len() > 0 && (s[0] == '+' || s[0] == '-') {
        s.drop_first()
    } else {
        s
    };
    let i = first_at(t, '.');
    let mag = if 0 <= i < t.len() && t[i] == '.' {
        digits_val(t.take(i)) * 1_000_000 + frac_micro(t.skip(i + 1))
    } else {
        digits_val(t) * 1_000_000
    };
    if neg {
        -mag
    } else {
        mag
    }
}

/// Magnitudes are saturated at one million units; every consumer either
/// clamps into `[0, 1]` or rejects values over 360 degrees, so the
/// saturation point is never observable.
pub open spec fn clamp_micro(v: int) -> int {
    if v > 1_000_000_000_000 {
        1_000_000_000_000
    } else if v < -1_000_000_000_000 {
        -1_000_000_000_000
    } else {
        v
    }
}

proof fn lemma_pow10_le6(k: nat)
    requires
        k <= 6,
    ensures
        1 <= pow10(k) <= 1_000_000,
{
    assert(pow10(0) == 1);
    assert(pow10(1) == 10);
    assert(pow10(2) == 100);
    assert(pow10(3) == 1000);
    assert(pow10(4) == 10000);
    assert(pow10(5) == 100000);
    assert(pow10(6) == 1000000);
}

/// A digit string of length `n` encodes a value in `[0, 10^n)`.
proof fn lemma_digits_val_bound(s: Seq<char>)
    requires
        all_digits(s),
    ensures
        0 <= digits_val(s) < pow10(s.len()),
    decreases s.len(),
{
    if s.len() == 0 {
    } else {
        assert(all_digits(s.drop_last()));
        lemma_digits_val_bound(s.drop_last());
        assert(is_digit(s.last()));
        assert(digits_val(s.drop_last()) * 10 + digit_val(s.last()) < pow10(s.len()))
            by (nonlinear_arith)
            requires
                digits_val(s.drop_last()) < pow10(s.drop_last().len()),
                0 <= digit_val(s.last()) <= 9,
                pow10(s.len()) == 10 * pow10(s.drop_last().len()),
                s.drop_last().len() == s.len() - 1,
        ;
    }
}

/// Appending one digit multiplies the value by ten and adds the digit.
proof fn lemma_digits_val_push(s: Seq<char>, k: int)
    requires
        0 <= k < s.len(),
    ensures
        digits_val(s.take(k + 1)) == digits_val(s.take(k)) * 10 + digit_val(s[k]),
{
    assert(s.take(k + 1).drop_last() =~= s.take(k));
    assert(s.take(k + 1).last() == s[k]);
}

proof fn lemma_all_digits_push(s: Seq<char>, k: int)
    requires
        0 <= k < s.len(),
        all_digits(s.take(k)),
        is_digit(s[k]),
    ensures
        all_digits(s.take(k + 1)),
{
    assert forall|q: int| 0 <= q < k + 1 implies is_digit(#[trigger] s.take(k + 1)[q]) by {
        if q < k {
            assert(s.take(k)[q] == s[q]);
        }
    }
}

/// Parses a decimal number into micro-units, saturating at one million
/// units in magnitude; anything but an optional sign, digits and at most
/// one point is rejected.
#[verifier::rlimit(100)]
pub fn parse_micro(s: &str) -> (r: Option<i64>)
    ensures
        r is Some <==> spec_is_number(s@),
        r matches Some(v) ==> v as int == clamp_micro(spec_number_micro(s@)),
{
    let chars = to_chars(s);
    let n = chars.len();
    let mut idx: usize = 0;
    let mut neg = false;
    if n > 0 && (chars[0] == '+' || chars[0] == '-') {
        neg = chars[0] == '-';
        idx = 1;
    }
    let ghost t = if s@.len() > 0 && (s@[0] == '+' || s@[0] == '-') {
        s@.drop_first()
    } else {
        s@
    };
    proof {
        assert(t =~= s@.skip(idx as int));
    }
    // integer part, its value saturated at two million units
    let mut int_acc: u64 = 0;
    let mut i = idx;
    while i < n && chars[i] != '.'
        invariant
            idx <= i <= n,
            idx <= 1,
            n == s@.len(),
            chars@ == s@,
            t == s@.skip(idx as int),
            idx == (if s@.len() > 0 && (s@[0] == '+' || s@[0] == '-') { 1int } else { 0int }),
            t == (if s@.len() > 0 && (s@[0] == '+' || s@[0] == '-') {
                s@.drop_first()
            } else {
                s@
            }),
            forall|j: int| 0 <= j < i - idx ==> t[j] != '.',
            all_digits(t.take(i - idx)),
            int_acc <= 2_000_000,
            int_acc as int == if digits_val(t.take(i - idx)) > 2_000_000 {
                2_000_000int
            } else {
                digits_val(t.take(i - idx))
            },
        decreases n - i,
    {
        proof {
            assert(t[i - idx] == s@[i as int]);
        }
        let d = match digit_val_exec(chars[i]) {
            Some(d) => d,
            None => {
                proof {
                    lemma_first_at(t, '.');
                    let fi = first_at(t, '.');
                    if 0 <= fi < t.len() && t[fi] == '.' {
                        assert(fi > i - idx);
                        assert(t.take(fi)[i - idx] == t[i - idx]);
                        assert(!all_digits(t.take(fi)));
                    } else {
                        assert(!all_digits(t));
                    }
                    if 0 <= fi < t.len() && t[fi] == '.' {
                        assert(spec_is_number(s@) == (all_digits(t.take(fi)) && all_digits(
                            t.skip(fi + 1),
                        ) && t.len() > 1));
                    } else {
                        assert(spec_is_number(s@) == (t.len() > 0 && all_digits(t)));
                    }
                    assert(!spec_is_number(s@));
                }
                return None;
            },
        };
        proof {
            lemma_digits_val_push(t, i - idx);
            lemma_all_digits_push(t, i - idx);
            lemma_digits_val_bound(t.take(i - idx));
        }
        let wide: u64 = int_acc * 10 + d as u64;
        int_acc = if wide > 2_000_000 {
            2_000_000
        } else {
            wide
        };
        i += 1;
    }
    let int_len = i - idx;
    // fractional part, truncated to the micro grid
    let ghost fp = if i < n {
        s@.skip(i + 1)
    } else {
        Seq::<char>::empty()
    };
    let mut frac_acc: u64 = 0;
    let mut fdigits: usize = 0;
    if i < n {
        let mut j = i + 1;
        proof {
            assert(fp.take(0) =~= Seq::<char>::empty());
        }
        while j < n
            invariant
                i + 1 <= j <= n,
                idx <= i < n,
                idx <= 1,
                n == s@.len(),
                chars@ == s@,
                t == s@.skip(idx as int),
            idx == (if s@.len() > 0 && (s@[0] == '+' || s@[0] == '-') { 1int } else { 0int }),
            t == (if s@.len() > 0 && (s@[0] == '+' || s@[0] == '-') {
                s@.drop_first()
            } else {
                s@
            }),
                fp == s@.skip(i + 1),
                int_len == i - idx,
                t[int_len as int] == '.',
                forall|q: int| 0 <= q < int_len ==> t[q] != '.',
                all_digits(t.take(int_len as int)),
                int_acc <= 2_000_000,
                int_acc as int == if digits_val(t.take(int_len as int)) > 2_000_000 {
                    2_000_000int
                } else {
                    digits_val(t.take(int_len as int))
                },
                fdigits as int == if j - (i + 1) > 6 {
                    6int
                } else {
                    j - (i + 1)
                },
                all_digits(fp.take(j - (i + 1))),
                frac_acc as int == digits_val(fp.take(fdigits as int)),
                frac_acc < 1_000_000,
            decreases n - j,
        {
            proof {
                assert(fp[j - (i + 1)] == s@[j as int]);
            }
            let d = match digit_val_exec(chars[j]) {
                Some(d) => d,
                None => {
                    proof {
                        lemma_first_at_is(t, '.', int_len as int);
                        assert(t.skip(int_len + 1) =~= fp);
                        assert(!is_digit(fp[j - (i + 1)]));
                        assert(!all_digits(fp));
                        assert(!spec_is_number(s@));
                    }
                    return None;
                },
            };
            proof {
                lemma_all_digits_push(fp, j - (i + 1));
            }
            if fdigits < 6 {
                proof {
                    lemma_digits_val_push(fp, fdigits as int);
                    lemma_all_digits_push(fp, fdigits as int);
                    lemma_digits_val_bound(fp.take(fdigits as int + 1));
                    lemma_pow10_le6((fdigits + 1) as nat);
                }
                frac_acc = frac_acc * 10 + d as u64;
                fdigits += 1;
            }
            j += 1;
        }
        proof {
            assert(fp.take(n - (i + 1)) =~= fp);
        }
    }
    // at least one digit is required somewhere
    if int_len == 0 && (i >= n || i + 1 == n) {
        proof {
            if i < n {
                lemma_first_at_is(t, '.', 0);
                assert(t.len() == 1);
            } else {
                assert(t.len() == 0);
                lemma_first_at(t, '.');
            }
        }
        return None;
    }
    // scale a short fractional part up to six digits
    proof {
        if fdigits < 6 {
            assert forall|q: int| 0 <= q < fdigits implies is_digit(
                #[trigger] fp.take(fdigits as int)[q],
            ) by {
                assert(fp.take(fp.len() as int) =~= fp);
            }
        }
        lemma_digits_val_bound(fp.take(fdigits as int));
        lemma_pow10_le6(fdigits as nat);
    }
    let ghost fd0 = fdigits as int;
    let mut k = fdigits;
    while k < 6
        invariant
            fd0 <= k <= 6,
            fd0 == fdigits as int,
            fdigits <= 6,
            frac_acc as int == digits_val(fp.take(fd0)) * pow10((k - fd0) as nat),
            (frac_acc as int) < pow10(k as nat),
        decreases 6 - k,
    {
        proof {
            lemma_pow10_le6(k as nat);
            assert(digits_val(fp.take(fd0)) * pow10((k - fd0) as nat) * 10 == digits_val(
                fp.take(fd0),
            ) * pow10((k + 1 - fd0) as nat)) by (nonlinear_arith)
                requires
                    pow10((k + 1 - fd0) as nat) == 10 * pow10((k - fd0) as nat),
            ;
        }
        frac_acc = frac_acc * 10;
        k += 1;
    }
    proof {
        lemma_pow10_le6(6);
    }
    let mag: u64 = int_acc * 1_000_000 + frac_acc;
    let clamped: u64 = if mag > 1_000_000_000_000 {
        1_000_000_000_000
    } else {
        mag
    };
    proof {
        lemma_first_at(t, '.');
        let fi = first_at(t, '.');
        lemma_digits_val_bound(t.take(int_len as int));
        if i < n {
            lemma_first_at_is(t, '.', int_len as int);
            assert(t.skip(int_len + 1) =~= fp);
            if fp.len() >= 6 {
                assert(fp.take(fd0) == fp.take(6));
            } else {
                assert(fp.take(fd0) =~= fp);
            }
        } else {
            lemma_first_at_none(t, '.');
            assert(t.take(int_len as int) =~= t);
            assert(fp.take(fd0) =~= fp);
        }
        if digits_val(t.take(int_len as int)) > 2_000_000 {
            assert(digits_val(t.take(int_len as int)) * 1_000_000 > 2_000_000_000_000);
        }
        assert(pow10(0) == 1);
        let iv = digits_val(t.take(int_len as int));
        let m = spec_number_micro(s@);
        if i < n {
            assert(frac_acc as int == frac_micro(fp));
            assert(m == (if neg { -(iv * 1_000_000 + frac_micro(fp)) } else { iv * 1_000_000 + frac_micro(fp) }));
        } else {
            assert(frac_acc == 0);
            assert(m == (if neg { -(iv * 1_000_000) } else { iv * 1_000_000 }));
        }
    }
    if neg {
        Some(-(clamped as i64))
    } else {
        Some(clamped as i64)
    }
}

// ---- the link marker of highlight directives ----

/// The marker that turns a single-token directive into a group link.
pub open spec fn link_pat() -> Seq<char> {
    seq!['l', 'i', 'n', 'k', ':']
}

/// Whether the marker occurs anywhere in the token.
pub open spec fn contains_link(s: Seq<char>) -> bool {
    exists|i: int| 0 <= i <= s.len() - 5 && #[trigger] s.subrange(i, i + 5) == link_pat()
}

/// The token with every occurrence of the marker removed, scanning left to
/// right without overlap.
pub open spec fn remove_link(s: Seq<char>) -> Seq<char>
    decreases s.len(),
{
    if s.len() < 5 {
        s
    } else if s.take(5) == link_pat() {
        remove_link(s.skip(5))
    } else {
        seq![s[0]] + remove_link(s.drop_first())
    }
}

fn matches_link_at(chars: &Vec<char>, i: usize) -> (r: bool)
    requires
        i <= chars@.len(),
    ensures
        r == (i + 5 <= chars@.len() && chars@.subrange(i as int, i + 5) == link_pat()),
{
    if chars.len() < 5 || i > chars.len() - 5 {
        return false;
    }
    let r = chars[i] == 'l' && chars[i + 1] == 'i' && chars[i + 2] == 'n' && chars[i + 3] == 'k'
        && chars[i + 4] == ':';
    proof {
        if r {
            assert(chars@.subrange(i as int, i + 5) =~= link_pat());
        } else {
            assert(chars@.subrange(i as int, i + 5) != link_pat()) by {
                if chars@.subrange(i as int, i + 5) == link_pat() {
                    assert(chars@.subrange(i as int, i + 5)[0] == 'l');
                    assert(chars@.subrange(i as int, i + 5)[1] == 'i');
                    assert(chars@.subrange(i as int, i + 5)[2] == 'n');
                    assert(chars@.subrange(i as int, i + 5)[3] == 'k');
                    assert(chars@.subrange(i as int, i + 5)[4] == ':');
                }
            }
        }
    }
    r
}

/// Reports whether the token holds the link marker, and the token with
/// every occurrence of the marker removed.
pub fn replace_link(s: &str) -> (r: (bool, String))
    ensures
        r.0 == contains_link(s@),
        r.1@ == remove_link(s@),
{
    let chars = to_chars(s);
    let n = chars.len();
    let mut out = String::new();
    let mut found = false;
    let mut i: usize = 0;
    proof {
        assert(s@.skip(0) =~= s@);
        assert(out@ + remove_link(s@) =~= remove_link(s@));
    }
    while i < n
        invariant
            i <= n,
            n == s@.len(),
            chars@ == s@,
            out@ + remove_link(s@.skip(i as int)) == remove_link(s@),
            found ==> contains_link(s@),
            !found ==> (forall|j: int|
                0 <= j < i ==> !(j + 5 <= s@.len() && #[trigger] s@.subrange(j, j + 5)
                    == link_pat())),
        decreases n - i,
    {
        if matches_link_at(&chars, i) {
            found = true;
            proof {
                assert(s@.skip(i as int).take(5) =~= s@.subrange(i as int, i + 5));
                assert(s@.skip(i as int).skip(5) =~= s@.skip(i + 5));
                assert(contains_link(s@));
            }
            i += 5;
        } else {
            let piece = s.substring_char(i, i + 1);
            out.append(piece);
            proof {
                let rest = s@.skip(i as int);
                if rest.len() >= 5 {
                    assert(rest.take(5) =~= s@.subrange(i as int, i + 5));
                }
                assert(seq![rest[0]] =~= s@.subrange(i as int, i + 1));
                assert(rest.drop_first() =~= s@.skip(i + 1));
                assert(remove_link(rest) == s@.subrange(i as int, i + 1) + remove_link(
                    s@.skip(i + 1),
                ));
            }
            i += 1;
        }
    }
    proof {
        assert(s@.skip(n as int) =~= Seq::<char>::empty());
        assert(out@ + Seq::<char>::empty() =~= out@);
        if !found {
            assert forall|j: int| !(0 <= j <= s@.len() - 5 && #[trigger] s@.subrange(j, j + 5)
                == link_pat()) by {
                if 0 <= j <= s@.len() - 5 {
                    assert(!(j + 5 <= s@.len() && s@.subrange(j, j + 5) == link_pat()));
                }
            }
        }
    }
    (found, out)
}

/// Exact equality of two string slices, compared character by character.
pub fn str_eq(a: &str, b: &str) -> (r: bool)
    ensures
        r == (a@ == b@),
{
    let na = a.unicode_len();
    let nb = b.unicode_len();
    if na != nb {
        return false;
    }
    let mut i: usize = 0;
    while i < na
        invariant
            i <= na,
            na == a@.len(),
            na == b@.len(),
            forall|j: int| 0 <= j < i ==> a@[j] == #[trigger] b@[j],
        decreases na - i,
    {
        if a.get_char(i) != b.get_char(i) {
            return false;
        }
        i += 1;
    }
    proof {
        assert(a@ =~= b@);
    }
    true
}

} // verus!
