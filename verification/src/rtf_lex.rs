//! The lexical pieces of RTF: digit and letter runs, numeric parameters of
//! control words, hex escapes and byte patterns.

use vstd::prelude::*;

verus! {

pub open spec fn is_digit(b: u8) -> bool {
    48 <= b <= 57
}

pub open spec fn is_alpha(b: u8) -> bool {
    (65 <= b <= 90) || (97 <= b <= 122)
}

/// Whether a byte is printable ASCII (space to tilde).
pub open spec fn is_printable(b: u8) -> bool {
    0x20 <= b <= 0x7E
}

/// The end of the run of ASCII digits that starts at `i`.
pub open spec fn digits_end(b: Seq<u8>, i: int) -> int
    decreases b.len() - i,
{
    if 0 <= i < b.len() && is_digit(b[i]) {
        digits_end(b, i + 1)
    } else {
        i
    }
}

/// The end of the run of ASCII letters that starts at `i`.
pub open spec fn alpha_end(b: Seq<u8>, i: int) -> int
    decreases b.len() - i,
{
    if 0 <= i < b.len() && is_alpha(b[i]) {
        alpha_end(b, i + 1)
    } else {
        i
    }
}

/// Position `i`, moved past one space where one stands there.
pub open spec fn space_end(b: Seq<u8>, i: int) -> int {
    if 0 <= i < b.len() && b[i] == 32 {
        i + 1
    } else {
        i
    }
}

/// The value of the decimal digits `b[start..end]`.
pub open spec fn decimal_nat(b: Seq<u8>, start: int, end: int) -> nat
    decreases end - start,
{
    if end <= start {
        0
    } else {
        decimal_nat(b, start, end - 1) * 10 + (b[end - 1] - 48) as nat
    }
}

/// Where the digits of a numeric parameter at `i` begin: after an optional `-`.
pub open spec fn param_start(b: Seq<u8>, i: int) -> int {
    if 0 <= i < b.len() && b[i] == 45 {
        i + 1
    } else {
        i
    }
}

/// Where a numeric parameter that may start at `i` ends.
pub open spec fn param_end(b: Seq<u8>, i: int) -> int {
    digits_end(b, param_start(b, i))
}

/// Whether a numeric parameter at `i` has at least one digit.
pub open spec fn param_has_digits(b: Seq<u8>, i: int) -> bool {
    param_end(b, i) > param_start(b, i)
}

/// The magnitude of the numeric parameter at `i` (0 where it has no digits).
pub open spec fn param_magnitude(b: Seq<u8>, i: int) -> nat {
    decimal_nat(b, param_start(b, i), param_end(b, i))
}

/// Whether the magnitude of the numeric parameter at `i` fits in an `i32`.
pub open spec fn param_fits(b: Seq<u8>, i: int) -> bool {
    param_magnitude(b, i) <= i32::MAX
}

/// The value of the numeric parameter at `i` (0 where it has no digits).
pub open spec fn param_value(b: Seq<u8>, i: int) -> int {
    if param_start(b, i) > i {
        -param_magnitude(b, i)
    } else {
        param_magnitude(b, i) as int
    }
}

/// Whether `pat` stands in `b` at position `i`.
pub open spec fn occurs_at(b: Seq<u8>, i: int, pat: Seq<u8>) -> bool {
    0 <= i && i + pat.len() <= b.len() && b.subrange(i, i + pat.len()) == pat
}

/// The first position at or after `i` where `pat` stands in `b`.
pub open spec fn find_from(b: Seq<u8>, pat: Seq<u8>, i: int) -> Option<int>
    decreases b.len() + 1 - i,
{
    if i < 0 || i + pat.len() > b.len() {
        None
    } else if occurs_at(b, i, pat) {
        Some(i)
    } else {
        find_from(b, pat, i + 1)
    }
}

/// What `find_from` finds is an occurrence of the pattern, at or after `i`.
pub proof fn lemma_find_from_found(b: Seq<u8>, pat: Seq<u8>, i: int)
    ensures
        find_from(b, pat, i) matches Some(p) ==> i <= p && occurs_at(b, p, pat),
    decreases b.len() + 1 - i,
{
    if i >= 0 && i + pat.len() <= b.len() && !occurs_at(b, i, pat) {
        lemma_find_from_found(b, pat, i + 1);
    }
}

/// A run of digits from `s` to `e`, not followed by a digit, is what
/// `digits_end` skips from `s`.
pub proof fn lemma_digits_end_of_run(b: Seq<u8>, s: int, e: int)
    requires
        0 <= s <= e <= b.len(),
        forall|k: int| s <= k < e ==> is_digit(#[trigger] b[k]),
        e == b.len() || !is_digit(b[e]),
    ensures
        digits_end(b, s) == e,
    decreases e - s,
{
    if s < e {
        lemma_digits_end_of_run(b, s + 1, e);
    }
}

/// `find_from` finds the first occurrence at or after `i`, and `None` means
/// there is none.
pub proof fn lemma_find_from_least(b: Seq<u8>, pat: Seq<u8>, i: int)
    requires
        0 <= i,
    ensures
        find_from(b, pat, i) matches Some(p) ==> forall|k: int|
            i <= k < p ==> !#[trigger] occurs_at(b, k, pat),
        find_from(b, pat, i) is None ==> forall|k: int| i <= k ==> !#[trigger] occurs_at(b, k, pat),
    decreases b.len() + 1 - i,
{
    if i + pat.len() <= b.len() && !occurs_at(b, i, pat) {
        lemma_find_from_least(b, pat, i + 1);
    }
}

/// The value of a hex digit.
pub open spec fn hex_value(c: u8) -> Option<u8> {
    if 48 <= c <= 57 {
        Some((c - 48) as u8)
    } else if 97 <= c <= 102 {
        Some((c - 97 + 10) as u8)
    } else if 65 <= c <= 70 {
        Some((c - 65 + 10) as u8)
    } else {
        None
    }
}

/// The byte that two hex digits spell, high digit first.
pub open spec fn hex_byte(high: u8, low: u8) -> Option<u8> {
    match (hex_value(high), hex_value(low)) {
        (Some(h), Some(l)) => Some((h * 16 + l) as u8),
        _ => None,
    }
}

pub proof fn lemma_digits_end_bounds(b: Seq<u8>, i: int)
    ensures
        i <= digits_end(b, i),
        0 <= i <= b.len() ==> digits_end(b, i) <= b.len(),
        i > b.len() ==> digits_end(b, i) == i,
    decreases b.len() - i,
{
    if 0 <= i < b.len() && is_digit(b[i]) {
        lemma_digits_end_bounds(b, i + 1);
    }
}

pub proof fn lemma_alpha_end_bounds(b: Seq<u8>, i: int)
    ensures
        i <= alpha_end(b, i),
        0 <= i <= b.len() ==> alpha_end(b, i) <= b.len(),
        i > b.len() ==> alpha_end(b, i) == i,
    decreases b.len() - i,
{
    if 0 <= i < b.len() && is_alpha(b[i]) {
        lemma_alpha_end_bounds(b, i + 1);
    }
}

pub proof fn lemma_param_end_bounds(b: Seq<u8>, i: int)
    ensures
        i <= param_start(b, i) <= param_end(b, i),
        0 <= i <= b.len() ==> param_end(b, i) <= b.len(),
        i > b.len() ==> param_end(b, i) == i,
{
    lemma_digits_end_bounds(b, param_start(b, i));
}

pub fn is_ascii_digit(b: u8) -> (r: bool)
    ensures
        r == is_digit(b),
{
    48u8 <= b && b <= 57u8
}

pub fn is_ascii_alphabetic(b: u8) -> (r: bool)
    ensures
        r == is_alpha(b),
{
    (65u8 <= b && b <= 90u8) || (97u8 <= b && b <= 122u8)
}

pub fn is_printable_byte(b: u8) -> (r: bool)
    ensures
        r == is_printable(b),
{
    0x20u8 <= b && b <= 0x7Eu8
}

/// Moves past the digits that start at `i`.
pub fn scan_digits(buf: &[u8], i: usize) -> (r: usize)
    ensures
        r == digits_end(buf@, i as int),
{
    let mut j = i;
    while j < buf.len() && is_ascii_digit(buf[j])
        invariant
            i <= j,
            digits_end(buf@, i as int) == digits_end(buf@, j as int),
        decreases buf.len() - j,
    {
        j += 1;
    }
    j
}

/// Moves past the letters that start at `i`.
pub fn scan_alpha(buf: &[u8], i: usize) -> (r: usize)
    ensures
        r == alpha_end(buf@, i as int),
{
    let mut j = i;
    while j < buf.len() && is_ascii_alphabetic(buf[j])
        invariant
            i <= j,
            alpha_end(buf@, i as int) == alpha_end(buf@, j as int),
        decreases buf.len() - j,
    {
        j += 1;
    }
    j
}

/// Moves past one space at `i`, where there is one.
pub fn skip_space(buf: &[u8], i: usize) -> (r: usize)
    ensures
        r == space_end(buf@, i as int),
{
    if i < buf.len() && buf[i] == 32u8 {
        i + 1
    } else {
        i
    }
}

/// Moves past the optional signed numeric parameter at `i` without reading it.
pub fn skip_param(buf: &[u8], i: usize) -> (r: usize)
    ensures
        r == param_end(buf@, i as int),
{
    let start = if i < buf.len() && buf[i] == 45u8 {
        i + 1
    } else {
        i
    };
    scan_digits(buf, start)
}

/// Reads the optional signed numeric parameter at `i`: where it ends, its value
/// where its magnitude fits in an `i32`, and whether it has digits.
pub fn read_param(buf: &[u8], i: usize) -> (r: (usize, Option<i32>, bool))
    ensures
        r.0 == param_end(buf@, i as int),
        r.1 is Some <==> param_fits(buf@, i as int),
        r.1 matches Some(v) ==> v == param_value(buf@, i as int),
        r.2 == param_has_digits(buf@, i as int),
{
    let negative = i < buf.len() && buf[i] == 45u8;
    let start = if negative {
        i + 1
    } else {
        i
    };
    let (end, magnitude) = read_decimal_capped(buf, start, 0x7FFF_FFFFu64);
    let value = match magnitude {
        Some(m) => if negative {
            Some(-(m as i32))
        } else {
            Some(m as i32)
        },
        None => None,
    };
    (end, value, end > start)
}

/// Whether `pat` stands in `buf` at position `i`.
pub fn bytes_at(buf: &[u8], i: usize, pat: &[u8]) -> (r: bool)
    ensures
        r == occurs_at(buf@, i as int, pat@),
{
    if i > buf.len() || pat.len() > buf.len() - i {
        return false;
    }
    let mut k: usize = 0;
    while k < pat.len()
        invariant
            i + pat.len() <= buf.len(),
            k <= pat.len(),
            forall|m: int| 0 <= m < k ==> buf@[i + m] == pat@[m],
        decreases pat.len() - k,
    {
        if buf[i + k] != pat[k] {
            assert(buf@.subrange(i as int, i + pat.len())[k as int] != pat@[k as int]);
            return false;
        }
        k += 1;
    }
    assert(buf@.subrange(i as int, i + pat.len()) =~= pat@);
    true
}

/// The first position at or after `from` where `pat` stands in `buf`.
pub fn find_bytes(buf: &[u8], pat: &[u8], from: usize) -> (r: Option<usize>)
    ensures
        r matches Some(p) ==> find_from(buf@, pat@, from as int) == Some(p as int) && from <= p
            && p + pat@.len() <= buf@.len(),
        r is None ==> find_from(buf@, pat@, from as int) is None,
{
    if pat.len() > buf.len() {
        return None;
    }
    if pat.len() == 0 {
        if from <= buf.len() {
            assert(buf@.subrange(from as int, from as int) =~= pat@);
            return Some(from);
        }
        return None;
    }
    let mut i = from;
    while i <= buf.len() - pat.len()
        invariant
            from <= i,
            0 < pat.len() <= buf.len(),
            find_from(buf@, pat@, from as int) == find_from(buf@, pat@, i as int),
        decreases buf.len() - i,
    {
        if bytes_at(buf, i, pat) {
            proof {
                lemma_find_from_found(buf@, pat@, from as int);
            }
            return Some(i);
        }
        i += 1;
    }
    None
}

/// Convert a hex digit character to its numeric value.
pub fn hex_digit_to_value(c: u8) -> (r: Option<u8>)
    ensures
        r == hex_value(c),
{
    if 48u8 <= c && c <= 57u8 {
        Some(c - 48u8)
    } else if 97u8 <= c && c <= 102u8 {
        Some(c - 97u8 + 10)
    } else if 65u8 <= c && c <= 70u8 {
        Some(c - 65u8 + 10)
    } else {
        None
    }
}

/// Parse two hex digits into a byte value.
pub fn parse_hex_byte(high: u8, low: u8) -> (r: Option<u8>)
    ensures
        r == hex_byte(high, low),
{
    let h = hex_digit_to_value(high)?;
    let l = hex_digit_to_value(low)?;
    assert((h << 4) | l == h * 16 + l) by (bit_vector)
        requires
            h < 16,
            l < 16,
    ;
    Some((h << 4) | l)
}

/// Reads the digits that start at `start` as a decimal number, as long as it does
/// not exceed `cap`: where the digits end, and their value where it is at most `cap`.
pub fn read_decimal_capped(buf: &[u8], start: usize, cap: u64) -> (r: (usize, Option<u64>))
    requires
        cap <= u32::MAX,
    ensures
        r.0 == digits_end(buf@, start as int),
        r.1 == (if decimal_nat(buf@, start as int, r.0 as int) <= cap {
            Some(decimal_nat(buf@, start as int, r.0 as int) as u64)
        } else {
            None::<u64>
        }),
{
    let mut j = start;
    let mut value: u64 = 0;
    let mut fits = true;
    while j < buf.len() && is_ascii_digit(buf[j])
        invariant
            start <= j,
            cap <= u32::MAX,
            digits_end(buf@, start as int) == digits_end(buf@, j as int),
            fits ==> value == decimal_nat(buf@, start as int, j as int) && value <= cap,
            !fits ==> decimal_nat(buf@, start as int, j as int) > cap,
        decreases buf.len() - j,
    {
        if fits {
            value = value * 10 + (buf[j] - 48u8) as u64;
            if value > cap {
                fits = false;
            }
        }
        j += 1;
    }
    if fits {
        (j, Some(value))
    } else {
        (j, None)
    }
}

/// Exactly `0`-`9`, `a`-`f` and `A`-`F` are hex digits, each with a value
/// below 16.
pub proof fn lemma_hex_value_digits(c: u8)
    ensures
        hex_value(c) is Some <==> (48 <= c <= 57 || 97 <= c <= 102 || 65 <= c <= 70),
        hex_value(c) matches Some(v) ==> v < 16,
{
}

/// The hex digit for `n` (below 16), in upper or lower case.
pub open spec fn hex_digit_char(n: int, upper: bool) -> u8 {
    if n < 10 {
        (48 + n) as u8
    } else if upper {
        (55 + n) as u8
    } else {
        (87 + n) as u8
    }
}

/// Two hex digits of a byte, high digit first and in either case, read back as
/// that byte.
pub proof fn lemma_hex_byte_roundtrip(b: u8, upper: bool)
    ensures
        hex_byte(hex_digit_char(b as int / 16, upper), hex_digit_char(b as int % 16, upper)) == Some(
            b,
        ),
{
    let h = b / 16;
    let l = b % 16;
    assert(hex_value(hex_digit_char(h as int, upper)) == Some(h as u8));
    assert(hex_value(hex_digit_char(l as int, upper)) == Some(l as u8));
    assert(h * 16 + l == b);
}

} // verus!
