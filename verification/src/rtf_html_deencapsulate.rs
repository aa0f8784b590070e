//! Extraction of HTML encapsulated in Outlook RTF (the "fromhtml" form of RTF).
//!
//! Outlook RTF with encapsulated HTML carries the HTML tags in destination
//! groups `{\*\htmltagN ...}` and the text of the document between them.
//! `\htmlrtf` starts content that only the RTF form shows, `\htmlrtf0` ends
//! it. Inside the groups and in the text, `\'hh` stands for a byte in the
//! document's ANSI code page (`\ansicpgN`), `\uN` for a Unicode code point
//! (followed by fallback bytes to skip, as many as the last `\ucN` says), and
//! `\\`, `\{`, `\}` for the literal characters.

use vstd::prelude::*;
use vstd::string::StringSliceAdditionalSpecFns;
use crate::charset::{charset_codepage, charset_of_codepage, charset_texts, encoding_from_codepage, ByteTexts, Charset};
use crate::rtf_lex::{
    alpha_end, decimal_nat, digits_end, find_bytes, find_from, is_digit, lemma_digits_end_of_run, lemma_find_from_found, lemma_find_from_least,
    occurs_at, bytes_at, is_ascii_digit, read_decimal_capped, hex_byte, is_alpha, is_ascii_alphabetic,
    is_printable, is_printable_byte, lemma_alpha_end_bounds, lemma_digits_end_bounds, lemma_param_end_bounds,
    parse_hex_byte, param_end, param_fits, param_has_digits, param_value, read_param, scan_alpha, skip_param, scan_digits, skip_space,
    space_end,
};
use crate::text::{chars_of_code_point, push_char, push_code_point};
use vstd::string::StringExecFns;

verus! {

/// The byte pattern `\*\htmltag` that opens an HTML tag destination.
pub open spec fn htmltag_marker() -> Seq<u8> {
    seq![92u8, 42, 92, 104, 116, 109, 108, 116, 97, 103]
}

/// The control word name `uc`.
pub open spec fn uc_word() -> Seq<u8> {
    seq![117u8, 99]
}

/// Whether a `\uN` escape starts at `i` (just after the backslash): a `u` that
/// is a control word of its own, not the first letter of a longer one such as
/// `\ucN`.
pub open spec fn is_unicode_escape(b: Seq<u8>, i: int) -> bool {
    0 <= i < b.len() && b[i] == 117 && !(i + 1 < b.len() && is_alpha(b[i + 1]))
}

/// Where an escape whose first byte after the backslash is at `i` ends.
pub open spec fn skip_escape(b: Seq<u8>, i: int) -> int {
    if i < 0 || i >= b.len() {
        i
    } else if b[i] == 39 {
        i + 3
    } else if is_alpha(b[i]) {
        space_end(b, param_end(b, alpha_end(b, i)))
    } else {
        i + 1
    }
}

/// An escape always moves forward, and by at most three bytes past the end.
pub proof fn lemma_skip_escape_bounds(b: Seq<u8>, i: int)
    requires
        0 <= i < b.len(),
    ensures
        i < skip_escape(b, i) <= b.len() + 2,
{
    lemma_param_end_bounds(b, i + 1);
    lemma_alpha_end_bounds(b, i);
    lemma_alpha_end_bounds(b, i + 1);
    lemma_param_end_bounds(b, alpha_end(b, i));
}

/// Scanning a group from `i` with `depth` groups open: the position just after
/// the brace that closes the outermost one.
pub open spec fn group_close(b: Seq<u8>, i: int, depth: nat) -> Option<int>
    decreases b.len() + 3 - i,
{
    if i < 0 || i >= b.len() {
        None
    } else if b[i] == 123 {
        group_close(b, i + 1, depth + 1)
    } else if b[i] == 125 {
        if depth == 0 {
            None
        } else if depth == 1 {
            Some(i + 1)
        } else {
            group_close(b, i + 1, (depth - 1) as nat)
        }
    } else if b[i] == 92 {
        if i + 1 >= b.len() {
            None
        } else {
            proof {
                lemma_skip_escape_bounds(b, i + 1);
            }
            group_close(b, skip_escape(b, i + 1), depth)
        }
    } else {
        group_close(b, i + 1, depth)
    }
}

/// The end (exclusive) of the balanced group that opens at `start`.
pub open spec fn balanced_group_end(b: Seq<u8>, start: int) -> Option<int> {
    if 0 <= start < b.len() && b[start] == 123 {
        group_close(b, start, 0)
    } else {
        None
    }
}

/// The HTML text inside a `{\*\htmltagN ...}` group: the group without its
/// braces, its marker, the marker's number and one space after it.
pub open spec fn htmltag_content(group: Seq<u8>) -> Seq<u8> {
    if group.len() < 2 {
        Seq::empty()
    } else {
        let inner = group.subrange(1, group.len() - 1);
        match find_from(inner, htmltag_marker(), 0) {
            Some(p) => inner.subrange(
                space_end(inner, digits_end(inner, p + htmltag_marker().len())),
                inner.len() as int,
            ),
            None => inner,
        }
    }
}

/// How many fallback bytes follow a `\uN` when the last `\ucN` said `uc`.
pub open spec fn fallback_count(uc: i32) -> nat {
    if uc > 0 {
        uc as nat
    } else {
        0
    }
}

/// Skipping `n` fallback bytes from `i`; an escape counts as one byte.
pub open spec fn skip_fallback(b: Seq<u8>, i: int, n: nat) -> int
    decreases n,
{
    if n == 0 || i < 0 || i >= b.len() {
        i
    } else if b[i] == 92 {
        if i + 1 < b.len() {
            skip_fallback(b, skip_escape(b, i + 1), (n - 1) as nat)
        } else {
            skip_fallback(b, i + 1, (n - 1) as nat)
        }
    } else {
        skip_fallback(b, i + 1, (n - 1) as nat)
    }
}

pub proof fn lemma_skip_fallback_bounds(b: Seq<u8>, i: int, n: nat)
    requires
        0 <= i,
    ensures
        i <= skip_fallback(b, i, n),
        i <= b.len() + 2 ==> skip_fallback(b, i, n) <= b.len() + 2,
    decreases n,
{
    if n == 0 || i >= b.len() {
    } else if b[i] == 92 {
        if i + 1 < b.len() {
            lemma_skip_escape_bounds(b, i + 1);
            lemma_skip_fallback_bounds(b, skip_escape(b, i + 1), (n - 1) as nat);
        } else {
            lemma_skip_fallback_bounds(b, i + 1, (n - 1) as nat);
        }
    } else {
        lemma_skip_fallback_bounds(b, i + 1, (n - 1) as nat);
    }
}

/// The text of a `\'hh` escape: the decoded byte where `hh` is hex, else nothing.
pub open spec fn hex_escape_text(t: Seq<Seq<char>>, high: u8, low: u8) -> Seq<char> {
    match hex_byte(high, low) {
        Some(x) => t[x as int],
        None => Seq::empty(),
    }
}

/// One step of decoding the content of an HTML tag group at `i`: where the next
/// step starts, the fallback count after it, and the text it yields.
pub open spec fn decode_step(c: Seq<u8>, t: Seq<Seq<char>>, i: int, uc: i32) -> (int, i32, Seq<char>) {
    if c[i] != 92 {
        (i + 1, uc, if is_printable(c[i]) { seq![c[i] as char] } else { Seq::empty() })
    } else if i + 1 >= c.len() {
        (i + 1, uc, Seq::empty())
    } else {
        let j = i + 1;
        let ch = c[j];
        if ch == 92 || ch == 123 || ch == 125 {
            (j + 1, uc, seq![ch as char])
        } else if ch == 39 && j + 2 < c.len() {
            (j + 3, uc, hex_escape_text(t, c[j + 1], c[j + 2]))
        } else if is_unicode_escape(c, j) {
            if param_has_digits(c, j + 1) {
                (
                    skip_fallback(c, param_end(c, j + 1), fallback_count(uc)),
                    uc,
                    chars_of_code_point(param_value(c, j + 1) as u32),
                )
            } else {
                (param_end(c, j + 1), uc, Seq::empty())
            }
        } else if is_alpha(ch) {
            let we = alpha_end(c, j);
            let nuc = if c.subrange(j, we) == uc_word() && param_has_digits(c, we) {
                param_value(c, we) as i32
            } else {
                uc
            };
            (space_end(c, param_end(c, we)), nuc, Seq::empty())
        } else {
            (j + 1, uc, Seq::empty())
        }
    }
}

pub proof fn lemma_decode_step_bounds(c: Seq<u8>, t: Seq<Seq<char>>, i: int, uc: i32)
    requires
        0 <= i < c.len(),
    ensures
        i < decode_step(c, t, i, uc).0 <= c.len() + 2,
{
    let j = i + 1;
    if c[i] == 92 && j < c.len() {
        lemma_param_end_bounds(c, j + 1);
        lemma_alpha_end_bounds(c, j);
        lemma_param_end_bounds(c, alpha_end(c, j));
        lemma_skip_fallback_bounds(c, param_end(c, j + 1), fallback_count(uc));
    }
}

/// The text that the content of an HTML tag group yields from `i` on.
pub open spec fn decode_from(c: Seq<u8>, t: Seq<Seq<char>>, i: int, uc: i32) -> Seq<char>
    decreases c.len() + 3 - i,
{
    if i < 0 || i >= c.len() {
        Seq::empty()
    } else {
        proof {
            lemma_decode_step_bounds(c, t, i, uc);
        }
        let s = decode_step(c, t, i, uc);
        s.2 + decode_from(c, t, s.0, s.1)
    }
}

/// The text that the content of an HTML tag group yields.
pub open spec fn decoded_content(c: Seq<u8>, t: Seq<Seq<char>>) -> Seq<char> {
    decode_from(c, t, 0, 1)
}

/// Whether the decoding step at `i` reads only numeric parameters whose
/// magnitude fits in an `i32`.
pub open spec fn decode_step_fits(c: Seq<u8>, i: int) -> bool {
    if 0 <= i && c[i] == 92 && i + 1 < c.len() {
        let ch = c[i + 1];
        if ch == 92 || ch == 123 || ch == 125 || (ch == 39 && i + 3 < c.len()) {
            true
        } else if is_unicode_escape(c, i + 1) {
            param_fits(c, i + 2)
        } else if is_alpha(ch) {
            param_fits(c, alpha_end(c, i + 1))
        } else {
            true
        }
    } else {
        true
    }
}

/// Whether every step of decoding from `i` on reads only numeric parameters
/// whose magnitude fits in an `i32`.
pub open spec fn decode_fits(c: Seq<u8>, t: Seq<Seq<char>>, i: int, uc: i32) -> bool
    decreases c.len() + 3 - i,
{
    if i < 0 || i >= c.len() {
        true
    } else {
        proof {
            lemma_decode_step_bounds(c, t, i, uc);
        }
        let s = decode_step(c, t, i, uc);
        decode_step_fits(c, i) && decode_fits(c, t, s.0, s.1)
    }
}

/// Skip an RTF escape sequence and return the position after it.
pub fn skip_rtf_escape(buf: &[u8], i: usize) -> (r: usize)
    requires
        buf@.len() <= isize::MAX,
    ensures
        r == skip_escape(buf@, i as int),
{
    if i >= buf.len() {
        return i;
    }
    let ch = buf[i];
    if ch == 39u8 {
        return i + 3;
    }
    if is_ascii_alphabetic(ch) {
        let word_end = scan_alpha(buf, i);
        proof {
            lemma_alpha_end_bounds(buf@, i as int);
            lemma_param_end_bounds(buf@, word_end as int);
        }
        let end = skip_param(buf, word_end);
        return skip_space(buf, end);
    }
    i + 1
}

/// Extract a balanced RTF group starting at the given position: the group's
/// bytes and the position just after it.
pub fn extract_balanced_group(buf: &[u8], start: usize) -> (r: Option<(&[u8], usize)>)
    requires
        buf@.len() <= isize::MAX,
    ensures
        r matches Some((g, e)) ==> balanced_group_end(buf@, start as int) == Some(e as int)
            && g@ == buf@.subrange(start as int, e as int),
        r is None ==> balanced_group_end(buf@, start as int) is None,
{
    if start >= buf.len() || buf[start] != 123u8 {
        return None;
    }
    let mut depth: usize = 0;
    let mut i = start;
    while i < buf.len()
        invariant
            start <= i <= buf.len() + 2,
            depth <= i - start,
            buf@.len() <= isize::MAX,
            start < buf@.len(),
            buf@[start as int] == 123,
            group_close(buf@, start as int, 0) == group_close(buf@, i as int, depth as nat),
        decreases buf.len() + 3 - i,
    {
        let ch = buf[i];
        if ch == 123u8 {
            depth += 1;
            i += 1;
        } else if ch == 125u8 {
            if depth == 0 {
                return None;
            }
            depth -= 1;
            i += 1;
            if depth == 0 {
                return Some((&buf[start..i], i));
            }
        } else if ch == 92u8 {
            i += 1;
            if i >= buf.len() {
                return None;
            }
            proof {
                lemma_skip_escape_bounds(buf@, i as int);
            }
            i = skip_rtf_escape(buf, i);
        } else {
            i += 1;
        }
    }
    None
}

/// The marker `\*\htmltag`.
fn htmltag_marker_bytes() -> (v: Vec<u8>)
    ensures
        v@ == htmltag_marker(),
{
    vec![92u8, 42, 92, 104, 116, 109, 108, 116, 97, 103]
}

/// Extract the content from a `{\*\htmltagN ...}` group.
pub fn extract_htmltag_content(group: &[u8]) -> (r: &[u8])
    ensures
        r@ == htmltag_content(group@),
        r@.len() <= group@.len(),
{
    if group.len() < 2 {
        let empty: &[u8] = &[];
        assert(empty@ =~= Seq::<u8>::empty());
        return empty;
    }
    let inner = &group[1..group.len() - 1];
    let marker = htmltag_marker_bytes();
    if let Some(pos) = find_bytes(inner, marker.as_slice(), 0) {
        proof {
            lemma_digits_end_bounds(inner@, pos + 10);
        }
        let digits = scan_digits(inner, pos + 10);
        let i = skip_space(inner, digits);
        return &inner[i..inner.len()];
    }
    inner
}

/// Skips the fallback bytes of a `\uN` escape: `uc` of them, an escape
/// counting as one.
fn skip_fallback_bytes(buf: &[u8], i: usize, uc: i32) -> (r: usize)
    requires
        buf@.len() <= isize::MAX,
        i <= buf@.len() + 2,
    ensures
        r == skip_fallback(buf@, i as int, fallback_count(uc)),
        r <= buf@.len() + 2,
{
    let count: i32 = if uc > 0 { uc } else { 0 };
    let mut k: i32 = 0;
    let mut j = i;
    while k < count && j < buf.len()
        invariant
            0 <= k <= count,
            count == fallback_count(uc),
            buf@.len() <= isize::MAX,
            i <= j <= buf@.len() + 2,
            skip_fallback(buf@, i as int, fallback_count(uc)) == skip_fallback(
                buf@,
                j as int,
                (count - k) as nat,
            ),
        decreases count - k,
    {
        if buf[j] == 92u8 {
            j += 1;
            if j < buf.len() {
                proof {
                    lemma_skip_escape_bounds(buf@, j as int);
                }
                j = skip_rtf_escape(buf, j);
            }
        } else {
            j += 1;
        }
        k += 1;
    }
    j
}

/// Whether `buf[start..end]` is the control word name `uc`.
fn is_uc_word(buf: &[u8], start: usize, end: usize) -> (r: bool)
    requires
        start <= end <= buf@.len(),
    ensures
        r == (buf@.subrange(start as int, end as int) == uc_word()),
{
    if end - start == 2 && buf[start] == 117u8 && buf[start + 1] == 99u8 {
        assert(buf@.subrange(start as int, end as int) =~= uc_word());
        true
    } else {
        let ghost word = buf@.subrange(start as int, end as int);
        assert(uc_word().len() == 2 && uc_word()[0] == 117 && uc_word()[1] == 99);
        assert(word == uc_word() ==> word.len() == 2 && word[0] == buf@[start as int] && word[1]
            == buf@[start + 1]);
        false
    }
}

/// Whether a `\uN` escape starts at `i` (just after the backslash).
fn unicode_escape_at(buf: &[u8], i: usize) -> (r: bool)
    ensures
        r == is_unicode_escape(buf@, i as int),
{
    i < buf.len() && buf[i] == 117u8 && !(i + 1 < buf.len() && is_ascii_alphabetic(buf[i + 1]))
}

/// Performs one step of decoding the content of an HTML tag group at `i`,
/// appending its text to `out`; returns where the next step starts and the
/// fallback count after it, or `None` where the step reads a numeric parameter
/// whose magnitude does not fit in an `i32`.
fn decode_escape_step(content: &[u8], texts: &ByteTexts, i: usize, uc: i32, out: &mut String) -> (r:
    Option<(usize, i32)>)
    requires
        content@.len() <= isize::MAX,
        texts@.len() == 256,
        i < content@.len(),
    ensures
        r is Some <==> decode_step_fits(content@, i as int),
        r matches Some((next, nuc)) ==> {
            &&& next == decode_step(content@, texts@, i as int, uc).0
            &&& nuc == decode_step(content@, texts@, i as int, uc).1
            &&& final(out)@ == old(out)@ + decode_step(content@, texts@, i as int, uc).2
        },
{
    let c = content[i];
    if c != 92u8 {
        if is_printable_byte(c) {
            push_char(out, c as char);
        }
        return Some((i + 1, uc));
    }
    let j = i + 1;
    if j >= content.len() {
        return Some((j, uc));
    }
    let ch = content[j];
    if ch == 92u8 || ch == 123u8 || ch == 125u8 {
        push_char(out, ch as char);
        return Some((j + 1, uc));
    }
    if ch == 39u8 && j + 2 < content.len() {
        if let Some(byte) = parse_hex_byte(content[j + 1], content[j + 2]) {
            out.append(texts.text_of(byte));
        }
        return Some((j + 3, uc));
    }
    if unicode_escape_at(content, j) {
        proof {
            lemma_param_end_bounds(content@, j + 1);
        }
        let (end, value, has_digits) = read_param(content, j + 1);
        let value = match value {
            Some(v) => v,
            None => {
                return None;
            },
        };
        if has_digits {
            push_code_point(out, value as u32);
            let next = skip_fallback_bytes(content, end, uc);
            return Some((next, uc));
        }
        return Some((end, uc));
    }
    if is_ascii_alphabetic(ch) {
        let word_end = scan_alpha(content, j);
        proof {
            lemma_alpha_end_bounds(content@, j as int);
            lemma_param_end_bounds(content@, word_end as int);
        }
        let (end, value, has_digits) = read_param(content, word_end);
        let value = match value {
            Some(v) => v,
            None => {
                return None;
            },
        };
        let next = skip_space(content, end);
        let nuc = if is_uc_word(content, j, word_end) && has_digits {
            value
        } else {
            uc
        };
        return Some((next, nuc));
    }
    Some((j + 1, uc))
}

/// Decodes RTF escape sequences in HTML content bytes, or gives `None` where a
/// numeric parameter's magnitude does not fit in an `i32`.
pub fn try_decode_rtf_escapes(content: &[u8], texts: &ByteTexts) -> (r: Option<String>)
    requires
        content@.len() <= isize::MAX,
        texts@.len() == 256,
    ensures
        r is Some <==> decode_fits(content@, texts@, 0, 1),
        r matches Some(s) ==> s@ == decoded_content(content@, texts@),
{
    let mut result = String::new();
    let mut uc: i32 = 1;
    let mut i: usize = 0;
    while i < content.len()
        invariant
            i <= content@.len() + 2,
            content@.len() <= isize::MAX,
            texts@.len() == 256,
            decode_fits(content@, texts@, 0, 1) == decode_fits(content@, texts@, i as int, uc),
            result@ + decode_from(content@, texts@, i as int, uc) == decode_from(
                content@,
                texts@,
                0,
                1,
            ),
        decreases content.len() + 3 - i,
    {
        proof {
            lemma_decode_step_bounds(content@, texts@, i as int, uc);
        }
        let ghost before = result@;
        let step = decode_escape_step(content, texts, i, uc, &mut result);
        let (next, nuc) = match step {
            Some(s) => s,
            None => {
                return None;
            },
        };
        proof {
            let s = decode_step(content@, texts@, i as int, uc);
            assert(before + decode_from(content@, texts@, i as int, uc) == before + (s.2
                + decode_from(content@, texts@, s.0, s.1)));
            assert(before + (s.2 + decode_from(content@, texts@, s.0, s.1)) =~= (before + s.2)
                + decode_from(content@, texts@, s.0, s.1));
        }
        i = next;
        uc = nuc;
    }
    Some(result)
}

/// Decode RTF escape sequences in HTML content bytes.
pub fn decode_rtf_escapes(content: &[u8], texts: &ByteTexts) -> (r: String)
    requires
        content@.len() <= isize::MAX,
        texts@.len() == 256,
        decode_fits(content@, texts@, 0, 1),
    ensures
        r@ == decoded_content(content@, texts@),
{
    match try_decode_rtf_escapes(content, texts) {
        Some(decoded) => decoded,
        None => String::new(),
    }
}

/// Whether content is passed to the HTML output.
#[derive(Clone, Copy, PartialEq, Eq, Structural, Debug)]
pub enum ContentMode {
    /// Nothing has been output yet: waiting for the first HTML tag or `\htmlrtf0`.
    Waiting,
    /// Content goes to the HTML output.
    Html,
    /// Content only belongs to the RTF form and is skipped.
    Rtf,
}

/// Why no HTML came out of an RTF document.
#[derive(Clone, Copy, PartialEq, Eq, Structural, Debug)]
pub enum RtfError {
    /// The text does not begin with `{\rtf`.
    NotRtf,
    /// The document carries no `\fromhtml` marker.
    NotFromHtml,
    /// Parsing produced no output at all.
    NoOutput,
}

/// The bytes `{\*\htmltag` that open an HTML tag group.
pub open spec fn htmltag_group_open() -> Seq<u8> {
    seq![123u8, 92, 42, 92, 104, 116, 109, 108, 116, 97, 103]
}

/// The control word name `htmlrtf`.
pub open spec fn htmlrtf_word() -> Seq<u8> {
    seq![104u8, 116, 109, 108, 114, 116, 102]
}

/// The bytes `{\rtf` that every RTF document begins with.
pub open spec fn rtf_signature() -> Seq<u8> {
    seq![123u8, 92, 114, 116, 102]
}

/// The control word `\fromhtml`.
pub open spec fn fromhtml_word() -> Seq<u8> {
    seq![92u8, 102, 114, 111, 109, 104, 116, 109, 108]
}

/// The control word `\ansicpg`.
pub open spec fn ansicpg_word() -> Seq<u8> {
    seq![92u8, 97, 110, 115, 105, 99, 112, 103]
}

/// One step of the parser: where the next step starts, the content mode and
/// the fallback count after it, and the text it adds to the output.
pub type ParseStep = (int, ContentMode, i32, Seq<char>);

/// A `{`: an HTML tag group yields its decoded content, whatever the mode (and
/// ends the waiting); any other group is entered.
pub open spec fn open_brace_step(b: Seq<u8>, t: Seq<Seq<char>>, pos: int, mode: ContentMode, uc: i32) -> ParseStep {
    if occurs_at(b, pos, htmltag_group_open()) {
        let m = if mode == ContentMode::Waiting {
            ContentMode::Html
        } else {
            mode
        };
        match balanced_group_end(b, pos) {
            Some(e) => (e, m, uc, decoded_content(htmltag_content(b.subrange(pos, e)), t)),
            None => (pos + 1, m, uc, Seq::empty()),
        }
    } else {
        (pos + 1, mode, uc, Seq::empty())
    }
}

/// `\htmlrtf` with its parameter at `q`: where it ends and the mode it selects.
/// A parameter whose value is 0 selects HTML; any other parameter, or none,
/// selects RTF.
pub open spec fn htmlrtf_switch(b: Seq<u8>, q: int) -> (int, ContentMode) {
    if 0 <= q < b.len() && is_digit(b[q]) {
        let e = digits_end(b, q);
        let v = decimal_nat(b, q, e);
        (
            space_end(b, e),
            if v == 0 {
                ContentMode::Html
            } else {
                ContentMode::Rtf
            },
        )
    } else {
        (space_end(b, q), ContentMode::Rtf)
    }
}

/// A backslash at `pos`: a control word, a control symbol or an escape.
pub open spec fn backslash_step(b: Seq<u8>, t: Seq<Seq<char>>, pos: int, mode: ContentMode, uc: i32) -> ParseStep {
    let p = pos + 1;
    let html = mode == ContentMode::Html;
    if p >= b.len() {
        (p, mode, uc, Seq::empty())
    } else if occurs_at(b, p, htmlrtf_word()) {
        let (n, m) = htmlrtf_switch(b, p + 7);
        (n, m, uc, Seq::empty())
    } else {
        let ch = b[p];
        if ch == 92 || ch == 123 || ch == 125 {
            (p + 1, mode, uc, if html { seq![ch as char] } else { Seq::empty() })
        } else if ch == 39 && p + 2 < b.len() {
            (p + 3, mode, uc, if html { hex_escape_text(t, b[p + 1], b[p + 2]) } else { Seq::empty() })
        } else if is_unicode_escape(b, p) {
            if param_has_digits(b, p + 1) {
                (
                    space_end(b, skip_fallback(b, param_end(b, p + 1), fallback_count(uc))),
                    mode,
                    uc,
                    if html {
                        chars_of_code_point(param_value(b, p + 1) as u32)
                    } else {
                        Seq::empty()
                    },
                )
            } else {
                (space_end(b, param_end(b, p + 1)), mode, uc, Seq::empty())
            }
        } else if is_alpha(ch) {
            let we = alpha_end(b, p);
            let nuc = if b.subrange(p, we) == uc_word() && param_has_digits(b, we) {
                param_value(b, we) as i32
            } else {
                uc
            };
            (space_end(b, param_end(b, we)), mode, nuc, Seq::empty())
        } else {
            (p + 1, mode, uc, Seq::empty())
        }
    }
}

/// Any other byte: printable ASCII, tab, line feed and carriage return go to the
/// output in HTML mode; everything else is dropped.
pub open spec fn text_step(b: Seq<u8>, pos: int, mode: ContentMode, uc: i32) -> ParseStep {
    let ch = b[pos];
    let kept = mode == ContentMode::Html && (is_printable(ch) || ch == 9 || ch == 10 || ch == 13);
    (pos + 1, mode, uc, if kept { seq![ch as char] } else { Seq::empty() })
}

/// One step of the parser at `pos`.
pub open spec fn parse_step(b: Seq<u8>, t: Seq<Seq<char>>, pos: int, mode: ContentMode, uc: i32) -> ParseStep {
    if b[pos] == 123 {
        open_brace_step(b, t, pos, mode, uc)
    } else if b[pos] == 125 {
        (pos + 1, mode, uc, Seq::empty())
    } else if b[pos] == 92 {
        backslash_step(b, t, pos, mode, uc)
    } else {
        text_step(b, pos, mode, uc)
    }
}

pub proof fn lemma_group_close_bounds(b: Seq<u8>, i: int, depth: nat)
    ensures
        group_close(b, i, depth) matches Some(e) ==> i < e <= b.len(),
    decreases b.len() + 3 - i,
{
    if 0 <= i < b.len() {
        if b[i] == 123 {
            lemma_group_close_bounds(b, i + 1, depth + 1);
        } else if b[i] == 125 {
            if depth > 1 {
                lemma_group_close_bounds(b, i + 1, (depth - 1) as nat);
            }
        } else if b[i] == 92 {
            if i + 1 < b.len() {
                lemma_skip_escape_bounds(b, i + 1);
                lemma_group_close_bounds(b, skip_escape(b, i + 1), depth);
            }
        } else {
            lemma_group_close_bounds(b, i + 1, depth);
        }
    }
}

pub proof fn lemma_parse_step_bounds(b: Seq<u8>, t: Seq<Seq<char>>, pos: int, mode: ContentMode, uc: i32)
    requires
        0 <= pos < b.len(),
    ensures
        pos < parse_step(b, t, pos, mode, uc).0 <= b.len() + 2,
{
    let p = pos + 1;
    lemma_group_close_bounds(b, pos, 0);
    lemma_digits_end_bounds(b, p + 7);
    lemma_param_end_bounds(b, p + 1);
    lemma_alpha_end_bounds(b, p);
    lemma_param_end_bounds(b, alpha_end(b, p));
    if p < b.len() {
        lemma_skip_fallback_bounds(b, param_end(b, p + 1), fallback_count(uc));
    }
}

/// The output of the parser from `pos` on, in mode `mode` with fallback count `uc`.
pub open spec fn run_from(b: Seq<u8>, t: Seq<Seq<char>>, pos: int, mode: ContentMode, uc: i32) -> Seq<char>
    decreases b.len() + 3 - pos,
{
    if pos < 0 || pos >= b.len() {
        Seq::empty()
    } else {
        proof {
            lemma_parse_step_bounds(b, t, pos, mode, uc);
        }
        let s = parse_step(b, t, pos, mode, uc);
        s.3 + run_from(b, t, s.0, s.1, s.2)
    }
}

/// Whether the parser step at `pos` reads only numeric parameters whose
/// magnitude fits in an `i32`, in its control words and in the HTML tag group
/// that it decodes.
pub open spec fn parse_step_fits(b: Seq<u8>, t: Seq<Seq<char>>, pos: int) -> bool {
    if b[pos] == 123 {
        if occurs_at(b, pos, htmltag_group_open()) {
            match balanced_group_end(b, pos) {
                Some(e) => decode_fits(htmltag_content(b.subrange(pos, e)), t, 0, 1),
                None => true,
            }
        } else {
            true
        }
    } else if b[pos] == 92 && pos + 1 < b.len() && !occurs_at(b, pos + 1, htmlrtf_word()) {
        let p = pos + 1;
        let ch = b[p];
        if ch == 92 || ch == 123 || ch == 125 || (ch == 39 && p + 2 < b.len()) {
            true
        } else if is_unicode_escape(b, p) {
            param_fits(b, p + 1)
        } else if is_alpha(ch) {
            param_fits(b, alpha_end(b, p))
        } else {
            true
        }
    } else {
        true
    }
}

/// Whether every step of the parser from `pos` on reads only numeric
/// parameters whose magnitude fits in an `i32`.
pub open spec fn run_fits(b: Seq<u8>, t: Seq<Seq<char>>, pos: int, mode: ContentMode, uc: i32) -> bool
    decreases b.len() + 3 - pos,
{
    if pos < 0 || pos >= b.len() {
        true
    } else {
        proof {
            lemma_parse_step_bounds(b, t, pos, mode, uc);
        }
        let s = parse_step(b, t, pos, mode, uc);
        parse_step_fits(b, t, pos) && run_fits(b, t, s.0, s.1, s.2)
    }
}

/// Searching for `\ansicpgN` from `i`: the first such N that is a `u16`.
/// After an occurrence that yields none, the search goes on one byte past the
/// end of the control word.
pub open spec fn ansicpg_scan(b: Seq<u8>, i: int) -> Option<u16>
    decreases b.len() + 1 - i,
{
    if i < 0 || i > b.len() {
        None
    } else {
        match find_from(b, ansicpg_word(), i) {
            None => None,
            Some(p) => {
                let s = p + 8;
                let e = digits_end(b, s);
                if s < b.len() && e > s && decimal_nat(b, s, e) <= 65535 {
                    Some(decimal_nat(b, s, e) as u16)
                } else {
                    proof {
                        lemma_find_from_found(b, ansicpg_word(), i);
                    }
                    ansicpg_scan(b, s + 1)
                }
            },
        }
    }
}

/// The character set that an RTF document selects: that of its first
/// `\ansicpgN`, with Windows-1252 where there is none or it is not known.
pub open spec fn document_charset(b: Seq<u8>) -> Charset {
    let codepage = match ansicpg_scan(b, 0) {
        Some(cp) => cp,
        None => 1252u16,
    };
    match charset_of_codepage(codepage) {
        Some(c) => c,
        None => Charset::Windows1252,
    }
}

/// The HTML that an Outlook RTF document (its UTF-8 bytes `b`) encapsulates.
pub open spec fn html_from_rtf(b: Seq<u8>) -> Result<Seq<char>, RtfError> {
    if !occurs_at(b, 0, rtf_signature()) {
        Err(RtfError::NotRtf)
    } else if find_from(b, fromhtml_word(), 0) is None {
        Err(RtfError::NotFromHtml)
    } else {
        let out = run_from(b, charset_texts(document_charset(b)), 0, ContentMode::Waiting, 1);
        if out.len() == 0 {
            Err(RtfError::NoOutput)
        } else {
            Ok(out)
        }
    }
}

/// Whether extracting HTML from `b` stays within its limits: every numeric
/// parameter that the parser reads has a magnitude that fits in an `i32`.
pub open spec fn rtf_within_limits(b: Seq<u8>) -> bool {
    occurs_at(b, 0, rtf_signature()) && find_from(b, fromhtml_word(), 0) is Some ==> run_fits(
        b,
        charset_texts(document_charset(b)),
        0,
        ContentMode::Waiting,
        1,
    )
}

/// The byte pattern `{\*\htmltag`.
fn htmltag_group_open_bytes() -> (v: Vec<u8>)
    ensures
        v@ == htmltag_group_open(),
{
    vec![123u8, 92, 42, 92, 104, 116, 109, 108, 116, 97, 103]
}

/// The control word name `htmlrtf`.
fn htmlrtf_word_bytes() -> (v: Vec<u8>)
    ensures
        v@ == htmlrtf_word(),
{
    vec![104u8, 116, 109, 108, 114, 116, 102]
}

/// The signature `{\rtf`.
fn rtf_signature_bytes() -> (v: Vec<u8>)
    ensures
        v@ == rtf_signature(),
{
    vec![123u8, 92, 114, 116, 102]
}

/// The control word `\fromhtml`.
fn fromhtml_word_bytes() -> (v: Vec<u8>)
    ensures
        v@ == fromhtml_word(),
{
    vec![92u8, 102, 114, 111, 109, 104, 116, 109, 108]
}

/// The control word `\ansicpg`.
fn ansicpg_word_bytes() -> (v: Vec<u8>)
    ensures
        v@ == ansicpg_word(),
{
    vec![92u8, 97, 110, 115, 105, 99, 112, 103]
}

/// Parser state for RTF HTML de-encapsulation.
struct RtfHtmlParser<'a> {
    bytes: &'a [u8],
    pos: usize,
    texts: &'a ByteTexts,
    output: String,
    mode: ContentMode,
    uc: i32,
}

/// The parser's state fits its input.
spec fn parser_inv(p: RtfHtmlParser) -> bool {
    p.bytes@.len() <= isize::MAX && p.pos <= p.bytes@.len() + 2 && p.texts@.len() == 256
}

/// `new` parses the same input with the same byte texts as `old`.
spec fn parser_same_input<'a>(new: RtfHtmlParser<'a>, old: RtfHtmlParser<'a>) -> bool {
    new.bytes@ == old.bytes@ && new.texts@ == old.texts@
}

/// `new` is `old` after the step `s`.
spec fn parser_stepped<'a>(new: RtfHtmlParser<'a>, old: RtfHtmlParser<'a>, s: ParseStep) -> bool {
    &&& parser_same_input(new, old)
    &&& new.pos == s.0
    &&& new.mode == s.1
    &&& new.uc == s.2
    &&& new.output@ =~= old.output@ + s.3
}

impl<'a> RtfHtmlParser<'a> {
    /// Main parsing loop; `false` where a numeric parameter's magnitude does not
    /// fit in an `i32`.
    fn parse(&mut self) -> (ok: bool)
        requires
            parser_inv(*old(self)),
        ensures
            parser_same_input(*final(self), *old(self)),
            ok == run_fits(
                old(self).bytes@,
                old(self).texts@,
                old(self).pos as int,
                old(self).mode,
                old(self).uc,
            ),
            ok ==> final(self).output@ == old(self).output@ + run_from(
                old(self).bytes@,
                old(self).texts@,
                old(self).pos as int,
                old(self).mode,
                old(self).uc,
            ),
            ok ==> final(self).pos >= final(self).bytes@.len(),
            ok ==> (old(self).mode != ContentMode::Waiting ==> final(self).mode
                != ContentMode::Waiting),
            ok ==> (final(self).mode == ContentMode::Waiting ==> final(self).output@ == old(
                self,
            ).output@),
    {
        while self.pos < self.bytes.len()
            invariant
                parser_inv(*self),
                parser_same_input(*self, *old(self)),
                run_fits(
                    old(self).bytes@,
                    old(self).texts@,
                    old(self).pos as int,
                    old(self).mode,
                    old(self).uc,
                ) == run_fits(self.bytes@, self.texts@, self.pos as int, self.mode, self.uc),
                old(self).output@ + run_from(
                    old(self).bytes@,
                    old(self).texts@,
                    old(self).pos as int,
                    old(self).mode,
                    old(self).uc,
                ) == self.output@ + run_from(
                    self.bytes@,
                    self.texts@,
                    self.pos as int,
                    self.mode,
                    self.uc,
                ),
                old(self).mode != ContentMode::Waiting ==> self.mode != ContentMode::Waiting,
                self.mode == ContentMode::Waiting ==> self.output@ == old(self).output@,
            decreases self.bytes.len() + 3 - self.pos,
        {
            let ghost before = *self;
            proof {
                lemma_parse_step_bounds(self.bytes@, self.texts@, self.pos as int, self.mode, self.uc);
                lemma_parse_step_mode(self.bytes@, self.texts@, self.pos as int, self.mode, self.uc);
            }
            let ch = self.bytes[self.pos];
            let ok = if ch == 123u8 {
                self.handle_open_brace()
            } else if ch == 125u8 {
                self.handle_close_brace();
                true
            } else if ch == 92u8 {
                self.handle_backslash()
            } else {
                self.handle_text_char();
                true
            };
            if !ok {
                return false;
            }
            proof {
                let s = parse_step(before.bytes@, before.texts@, before.pos as int, before.mode, before.uc);
                assert(before.output@ + (s.3 + run_from(before.bytes@, before.texts@, s.0, s.1, s.2))
                    =~= (before.output@ + s.3) + run_from(before.bytes@, before.texts@, s.0, s.1, s.2));
                if self.mode == ContentMode::Waiting {
                    assert(self.output@ =~= before.output@);
                }
            }
        }
        true
    }

    /// Handle opening brace - check for `{\*\htmltagN}` groups.
    fn handle_open_brace(&mut self) -> (ok: bool)
        requires
            parser_inv(*old(self)),
            old(self).pos < old(self).bytes@.len(),
            old(self).bytes@[old(self).pos as int] == 123,
        ensures
            parser_same_input(*final(self), *old(self)),
            ok == parse_step_fits(old(self).bytes@, old(self).texts@, old(self).pos as int),
            ok ==> parser_stepped(
                *final(self),
                *old(self),
                open_brace_step(
                    old(self).bytes@,
                    old(self).texts@,
                    old(self).pos as int,
                    old(self).mode,
                    old(self).uc,
                ),
            ),
    {
        let marker = htmltag_group_open_bytes();
        if bytes_at(self.bytes, self.pos, marker.as_slice()) {
            if self.mode == ContentMode::Waiting {
                self.mode = ContentMode::Html;
            }
            self.extract_htmltag_group()
        } else {
            self.pos += 1;
            true
        }
    }

    /// Handle closing brace.
    fn handle_close_brace(&mut self)
        requires
            parser_inv(*old(self)),
            old(self).pos < old(self).bytes@.len(),
        ensures
            parser_stepped(
                *final(self),
                *old(self),
                (old(self).pos + 1, old(self).mode, old(self).uc, Seq::empty()),
            ),
    {
        self.pos += 1;
    }

    /// Handle backslash - control word or escape sequence; `false` where a
    /// numeric parameter's magnitude does not fit in an `i32`.
    fn handle_backslash(&mut self) -> (ok: bool)
        requires
            parser_inv(*old(self)),
            old(self).pos < old(self).bytes@.len(),
            old(self).bytes@[old(self).pos as int] == 92,
        ensures
            parser_same_input(*final(self), *old(self)),
            ok == parse_step_fits(old(self).bytes@, old(self).texts@, old(self).pos as int),
            ok ==> parser_stepped(
                *final(self),
                *old(self),
                backslash_step(
                    old(self).bytes@,
                    old(self).texts@,
                    old(self).pos as int,
                    old(self).mode,
                    old(self).uc,
                ),
            ),
    {
        let bytes = self.bytes;
        self.pos += 1;
        let p = self.pos;
        if p >= bytes.len() {
            return true;
        }
        let ch = bytes[p];
        let htmlrtf = htmlrtf_word_bytes();
        if bytes_at(bytes, p, htmlrtf.as_slice()) {
            let q = p + 7;
            if q < bytes.len() && is_ascii_digit(bytes[q]) {
                let (end, value) = read_decimal_capped(bytes, q, 0xFFFF_FFFFu64);
                self.mode = match value {
                    Some(v) => if v == 0 {
                        ContentMode::Html
                    } else {
                        ContentMode::Rtf
                    },
                    None => ContentMode::Rtf,
                };
                self.pos = skip_space(bytes, end);
            } else {
                self.mode = ContentMode::Rtf;
                self.pos = skip_space(bytes, q);
            }
            return true;
        }
        if ch == 92u8 || ch == 123u8 || ch == 125u8 {
            if self.mode == ContentMode::Html {
                push_char(&mut self.output, ch as char);
            }
            self.pos = p + 1;
            return true;
        }
        if ch == 39u8 && p + 2 < bytes.len() {
            if let Some(byte) = parse_hex_byte(bytes[p + 1], bytes[p + 2]) {
                if self.mode == ContentMode::Html {
                    self.output.append(self.texts.text_of(byte));
                }
            }
            self.pos = p + 3;
            return true;
        }
        if unicode_escape_at(bytes, p) {
            proof {
                lemma_param_end_bounds(bytes@, p + 1);
            }
            let (end, codepoint, has_digits) = read_param(bytes, p + 1);
            let codepoint = match codepoint {
                Some(v) => v,
                None => {
                    return false;
                },
            };
            let mut next = end;
            if has_digits {
                if self.mode == ContentMode::Html {
                    push_code_point(&mut self.output, codepoint as u32);
                }
                next = skip_fallback_bytes(bytes, end, self.uc);
            }
            self.pos = skip_space(bytes, next);
            return true;
        }
        if is_ascii_alphabetic(ch) {
            let word_end = scan_alpha(bytes, p);
            proof {
                lemma_alpha_end_bounds(bytes@, p as int);
                lemma_param_end_bounds(bytes@, word_end as int);
            }
            let (end, param, has_digits) = read_param(bytes, word_end);
            let param = match param {
                Some(v) => v,
                None => {
                    return false;
                },
            };
            self.pos = skip_space(bytes, end);
            if is_uc_word(bytes, p, word_end) && has_digits {
                self.uc = param;
            }
            return true;
        }
        self.pos = p + 1;
        true
    }

    /// Handle regular text character.
    fn handle_text_char(&mut self)
        requires
            parser_inv(*old(self)),
            old(self).pos < old(self).bytes@.len(),
        ensures
            parser_stepped(
                *final(self),
                *old(self),
                text_step(old(self).bytes@, old(self).pos as int, old(self).mode, old(self).uc),
            ),
    {
        if self.mode == ContentMode::Html {
            let ch = self.bytes[self.pos];
            if is_printable_byte(ch) || ch == 9u8 || ch == 10u8 || ch == 13u8 {
                push_char(&mut self.output, ch as char);
            }
        }
        self.pos += 1;
    }

    /// Extract content from a `{\*\htmltagN ...}` group; `false` where a numeric
    /// parameter in it has a magnitude that does not fit in an `i32`.
    fn extract_htmltag_group(&mut self) -> (ok: bool)
        requires
            parser_inv(*old(self)),
            old(self).pos < old(self).bytes@.len(),
        ensures
            parser_same_input(*final(self), *old(self)),
            ok == match balanced_group_end(old(self).bytes@, old(self).pos as int) {
                Some(e) => decode_fits(
                    htmltag_content(old(self).bytes@.subrange(old(self).pos as int, e)),
                    old(self).texts@,
                    0,
                    1,
                ),
                None => true,
            },
            ok ==> final(self).mode == old(self).mode,
            ok ==> final(self).uc == old(self).uc,
            ok ==> match balanced_group_end(old(self).bytes@, old(self).pos as int) {
                Some(e) => final(self).pos == e && final(self).output@ == old(self).output@
                    + decoded_content(
                    htmltag_content(old(self).bytes@.subrange(old(self).pos as int, e)),
                    old(self).texts@,
                ),
                None => final(self).pos == old(self).pos + 1 && final(self).output@ == old(
                    self,
                ).output@,
            },
    {
        let bytes = self.bytes;
        proof {
            lemma_group_close_bounds(bytes@, self.pos as int, 0);
        }
        if let Some((group_bytes, next_pos)) = extract_balanced_group(bytes, self.pos) {
            let content = extract_htmltag_content(group_bytes);
            match try_decode_rtf_escapes(content, self.texts) {
                Some(decoded) => {
                    self.output.append(decoded.as_str());
                    self.pos = next_pos;
                    true
                },
                None => false,
            }
        } else {
            self.pos += 1;
            true
        }
    }
}

/// Parse the `\ansicpgN` control word to get the ANSI codepage number.
pub fn parse_ansicpg(rtf_header: &str) -> (r: Option<u16>)
    ensures
        r == ansicpg_scan(rtf_header.spec_bytes(), 0),
{
    let bytes = rtf_header.as_bytes();
    let needle = ansicpg_word_bytes();
    let mut i: usize = 0;
    loop
        invariant
            i <= bytes@.len(),
            bytes@ == rtf_header.spec_bytes(),
            needle@ == ansicpg_word(),
            ansicpg_scan(bytes@, 0) == ansicpg_scan(bytes@, i as int),
        decreases bytes.len() + 1 - i,
    {
        match find_bytes(bytes, needle.as_slice(), i) {
            None => {
                return None;
            },
            Some(offset) => {
                proof {
                    lemma_find_from_found(bytes@, needle@, i as int);
                }
                let start = offset + 8;
                if start < bytes.len() {
                    let (end, value) = read_decimal_capped(bytes, start, 65535);
                    if end > start {
                        if let Some(cp) = value {
                            return Some(cp as u16);
                        }
                    }
                }
                proof {
                    assert(ansicpg_scan(bytes@, i as int) == ansicpg_scan(bytes@, start + 1));
                }
                if start >= bytes.len() {
                    return None;
                }
                i = start + 1;
            },
        }
    }
}

/// Parses the bytes of an Outlook RTF document, with `texts` giving the text of
/// each byte in the document's code page: the decoded HTML tag groups and the
/// text in HTML mode, in order. `None` where a numeric parameter that the parser
/// reads has a magnitude that does not fit in an `i32`.
pub fn deencapsulate_html(bytes: &[u8], texts: &ByteTexts) -> (r: Option<String>)
    requires
        bytes@.len() <= isize::MAX,
        texts@.len() == 256,
    ensures
        r is Some <==> run_fits(bytes@, texts@, 0, ContentMode::Waiting, 1),
        r matches Some(s) ==> s@ == run_from(bytes@, texts@, 0, ContentMode::Waiting, 1),
{
    let mut parser = RtfHtmlParser {
        bytes,
        pos: 0,
        texts,
        output: String::new(),
        mode: ContentMode::Waiting,
        uc: 1,
    };
    if parser.parse() {
        Some(parser.output)
    } else {
        None
    }
}

/// Extracts HTML from Outlook RTF as `rtf_to_html_outlook` does, for any text:
/// `None` where a numeric parameter that the parser reads has a magnitude that
/// does not fit in an `i32`.
pub fn try_rtf_to_html_outlook(rtf: &str) -> (r: Option<Result<String, RtfError>>)
    requires
        rtf.spec_bytes().len() <= isize::MAX,
    ensures
        r is None <==> !rtf_within_limits(rtf.spec_bytes()),
        !occurs_at(rtf.spec_bytes(), 0, rtf_signature()) || find_from(
            rtf.spec_bytes(),
            fromhtml_word(),
            0,
        ) is None ==> r matches Some(Err(_)),
        r matches Some(Ok(s)) ==> s@.len() > 0 && occurs_at(rtf.spec_bytes(), 0, rtf_signature())
            && find_from(rtf.spec_bytes(), fromhtml_word(), 0) is Some,
        r matches Some(res) ==> match res {
            Ok(s) => html_from_rtf(rtf.spec_bytes()) == Ok::<Seq<char>, RtfError>(s@),
            Err(e) => html_from_rtf(rtf.spec_bytes()) == Err::<Seq<char>, RtfError>(e),
        },
{
    let bytes = rtf.as_bytes();
    if !bytes_at(bytes, 0, rtf_signature_bytes().as_slice()) {
        return Some(Err(RtfError::NotRtf));
    }
    if find_bytes(bytes, fromhtml_word_bytes().as_slice(), 0).is_none() {
        return Some(Err(RtfError::NotFromHtml));
    }
    let codepage = match parse_ansicpg(rtf) {
        Some(cp) => cp,
        None => 1252u16,
    };
    let charset = match encoding_from_codepage(codepage) {
        Some(c) => c,
        None => Charset::Windows1252,
    };
    let texts = ByteTexts::for_charset(charset);
    match deencapsulate_html(bytes, &texts) {
        Some(output) => if output.as_str().is_empty() {
            Some(Err(RtfError::NoOutput))
        } else {
            Some(Ok(output))
        },
        None => None,
    }
}

/// Extract HTML from Outlook RTF per MS-OXRTFEX.
///
/// The text must begin with `{\rtf` and carry the `\fromhtml` marker. The
/// code page comes from `\ansicpgN` (Windows-1252 where there is none or it is
/// not known). The HTML is what the tag groups hold, with the text outside
/// them in HTML mode; parsing that yields nothing is an error.
pub fn rtf_to_html_outlook(rtf: &str) -> (r: Result<String, RtfError>)
    requires
        rtf.spec_bytes().len() <= isize::MAX,
        rtf_within_limits(rtf.spec_bytes()),
    ensures
        !occurs_at(rtf.spec_bytes(), 0, rtf_signature()) || find_from(
            rtf.spec_bytes(),
            fromhtml_word(),
            0,
        ) is None ==> r is Err,
        r matches Ok(s) ==> s@.len() > 0 && occurs_at(rtf.spec_bytes(), 0, rtf_signature())
            && find_from(rtf.spec_bytes(), fromhtml_word(), 0) is Some,
        match r {
            Ok(s) => html_from_rtf(rtf.spec_bytes()) == Ok::<Seq<char>, RtfError>(s@),
            Err(e) => html_from_rtf(rtf.spec_bytes()) == Err::<Seq<char>, RtfError>(e),
        },
{
    match try_rtf_to_html_outlook(rtf) {
        Some(result) => result,
        None => Err(RtfError::NoOutput),
    }
}

/// A parser step never goes back to waiting, and a step that leaves the parser
/// waiting adds nothing to the output.
pub proof fn lemma_parse_step_mode(b: Seq<u8>, t: Seq<Seq<char>>, pos: int, mode: ContentMode, uc: i32)
    requires
        0 <= pos < b.len(),
    ensures
        mode != ContentMode::Waiting ==> parse_step(b, t, pos, mode, uc).1 != ContentMode::Waiting,
        parse_step(b, t, pos, mode, uc).1 == ContentMode::Waiting ==> mode == ContentMode::Waiting
            && parse_step(b, t, pos, mode, uc).3 == Seq::<char>::empty(),
{
}

proof fn lemma_group_close_ends_with_brace(b: Seq<u8>, i: int, depth: nat)
    ensures
        group_close(b, i, depth) matches Some(e) ==> 0 < e <= b.len() && b[e - 1] == 125,
    decreases b.len() + 3 - i,
{
    if 0 <= i < b.len() {
        if b[i] == 123 {
            lemma_group_close_ends_with_brace(b, i + 1, depth + 1);
        } else if b[i] == 125 {
            if depth > 1 {
                lemma_group_close_ends_with_brace(b, i + 1, (depth - 1) as nat);
            }
        } else if b[i] == 92 {
            if i + 1 < b.len() {
                lemma_skip_escape_bounds(b, i + 1);
                lemma_group_close_ends_with_brace(b, skip_escape(b, i + 1), depth);
            }
        } else {
            lemma_group_close_ends_with_brace(b, i + 1, depth);
        }
    }
}

/// A balanced group opens with `{` at its start and ends with the `}` that
/// closes it, within the text.
pub proof fn lemma_balanced_group_braces(b: Seq<u8>, start: int)
    ensures
        balanced_group_end(b, start) matches Some(e) ==> {
            &&& 0 <= start < e <= b.len()
            &&& b[start] == 123
            &&& b[e - 1] == 125
        },
{
    lemma_group_close_bounds(b, start, 0);
    lemma_group_close_ends_with_brace(b, start, 0);
}

/// Whether content holds only printable ASCII and no backslash: text without
/// any escape.
pub open spec fn is_plain_text(c: Seq<u8>) -> bool {
    forall|k: int| 0 <= k < c.len() ==> is_printable(#[trigger] c[k]) && c[k] != 92
}

/// The chars of ASCII bytes.
pub open spec fn ascii_chars(c: Seq<u8>) -> Seq<char> {
    c.map_values(|x: u8| x as char)
}

proof fn lemma_decode_plain_from(c: Seq<u8>, t: Seq<Seq<char>>, i: int, uc: i32)
    requires
        is_plain_text(c),
        0 <= i <= c.len(),
    ensures
        decode_from(c, t, i, uc) == ascii_chars(c.subrange(i, c.len() as int)),
    decreases c.len() - i,
{
    if i < c.len() {
        lemma_decode_plain_from(c, t, i + 1, uc);
        assert(ascii_chars(c.subrange(i, c.len() as int)) =~= seq![c[i] as char] + ascii_chars(
            c.subrange(i + 1, c.len() as int),
        ));
    } else {
        assert(ascii_chars(c.subrange(i, c.len() as int)) =~= Seq::<char>::empty());
    }
}

/// Tag content without escapes decodes to itself, whatever the byte texts.
pub proof fn lemma_decode_plain_text(c: Seq<u8>, t: Seq<Seq<char>>)
    requires
        is_plain_text(c),
    ensures
        decoded_content(c, t) == ascii_chars(c),
{
    lemma_decode_plain_from(c, t, 0, 1);
    assert(c.subrange(0, c.len() as int) =~= c);
}

/// Outside HTML mode, nothing but an HTML tag group adds to the output: RTF-only
/// content, and whatever precedes the first tag group or `\htmlrtf0`, is dropped.
pub proof fn lemma_only_tag_groups_outside_html_mode(
    b: Seq<u8>,
    t: Seq<Seq<char>>,
    pos: int,
    mode: ContentMode,
    uc: i32,
)
    requires
        0 <= pos < b.len(),
        mode != ContentMode::Html,
        !occurs_at(b, pos, htmltag_group_open()),
    ensures
        parse_step(b, t, pos, mode, uc).3 == Seq::<char>::empty(),
{
}

/// `\htmlrtf0` switches to HTML mode, and `\htmlrtfN` with N > 0 (however many
/// digits) or `\htmlrtf` without a parameter to RTF mode, whatever the mode before.
pub proof fn lemma_htmlrtf_switches_mode(
    b: Seq<u8>,
    t: Seq<Seq<char>>,
    pos: int,
    mode: ContentMode,
    uc: i32,
)
    requires
        0 <= pos < b.len(),
        b[pos] == 92,
        occurs_at(b, pos + 1, htmlrtf_word()),
    ensures
        pos + 8 < b.len() && is_digit(b[pos + 8]) ==> parse_step(b, t, pos, mode, uc).1 == (if decimal_nat(
            b,
            pos + 8,
            digits_end(b, pos + 8),
        ) == 0 {
            ContentMode::Html
        } else {
            ContentMode::Rtf
        }),
        !(pos + 8 < b.len() && is_digit(b[pos + 8])) ==> parse_step(b, t, pos, mode, uc).1
            == ContentMode::Rtf,
        parse_step(b, t, pos, mode, uc).3 == Seq::<char>::empty(),
        parse_step(b, t, pos, mode, uc).2 == uc,
{
}

/// `\ucN` sets the number of fallback bytes to skip after each `\uN`, in the
/// text that the parser reads and in the content of tag groups.
pub proof fn lemma_uc_sets_fallback_count(
    b: Seq<u8>,
    t: Seq<Seq<char>>,
    pos: int,
    mode: ContentMode,
    uc: i32,
)
    requires
        0 <= pos,
        pos + 3 <= b.len(),
        b[pos] == 92,
        b[pos + 1] == 117,
        b[pos + 2] == 99,
        !(pos + 3 < b.len() && is_alpha(b[pos + 3])),
        param_has_digits(b, pos + 3),
    ensures
        parse_step(b, t, pos, mode, uc).2 == param_value(b, pos + 3) as i32,
        decode_step(b, t, pos, uc).1 == param_value(b, pos + 3) as i32,
{
    assert(alpha_end(b, pos + 3) == pos + 3);
    assert(alpha_end(b, pos + 2) == pos + 3);
    assert(alpha_end(b, pos + 1) == pos + 3);
    assert(b.subrange(pos + 1, pos + 3) =~= uc_word());
    assert(!occurs_at(b, pos + 1, htmlrtf_word())) by {
        if occurs_at(b, pos + 1, htmlrtf_word()) {
            assert(b.subrange(pos + 1, pos + 8)[0] == b[pos + 1]);
        }
    }
}

/// Whether a `\ansicpgN` with a `u16` number N stands at `k`.
pub open spec fn ansicpg_valid_at(b: Seq<u8>, k: int) -> bool {
    &&& occurs_at(b, k, ansicpg_word())
    &&& k + 8 < b.len()
    &&& digits_end(b, k + 8) > k + 8
    &&& decimal_nat(b, k + 8, digits_end(b, k + 8)) <= 65535
}

/// The number of the `\ansicpgN` at `k`.
pub open spec fn ansicpg_value_at(b: Seq<u8>, k: int) -> u16 {
    decimal_nat(b, k + 8, digits_end(b, k + 8)) as u16
}

/// Whether `\ansicpg` ever follows directly on a `\ansicpg` without a number.
pub open spec fn has_doubled_ansicpg(b: Seq<u8>) -> bool {
    exists|k: int| #[trigger] occurs_at(b, k, ansicpg_word()) && occurs_at(b, k + 8, ansicpg_word())
}

proof fn lemma_ansicpg_scan_first_from(b: Seq<u8>, i: int)
    requires
        0 <= i,
        !has_doubled_ansicpg(b),
    ensures
        ansicpg_scan(b, i) matches Some(n) ==> exists|k: int|
            i <= k && #[trigger] ansicpg_valid_at(b, k) && ansicpg_value_at(b, k) == n && forall|
                j: int,
            |
                i <= j < k ==> !#[trigger] ansicpg_valid_at(b, j),
        ansicpg_scan(b, i) is None ==> forall|k: int| i <= k ==> !#[trigger] ansicpg_valid_at(b, k),
    decreases b.len() + 1 - i,
{
    lemma_find_from_least(b, ansicpg_word(), i);
    lemma_find_from_found(b, ansicpg_word(), i);
    if i <= b.len() {
        if let Some(p) = find_from(b, ansicpg_word(), i) {
            let s = p + 8;
            let e = digits_end(b, s);
            if s < b.len() && e > s && decimal_nat(b, s, e) <= 65535 {
                assert(ansicpg_valid_at(b, p));
            } else {
                assert(!ansicpg_valid_at(b, p));
                assert(!occurs_at(b, s, ansicpg_word()));
                assert forall|k: int| p < k < s implies !#[trigger] occurs_at(b, k, ansicpg_word()) by {
                    if occurs_at(b, k, ansicpg_word()) {
                        assert(b.subrange(p, p + 8)[k - p] == b[k]);
                        assert(b.subrange(k, k + 8)[0] == b[k]);
                    }
                }
                lemma_ansicpg_scan_first_from(b, s + 1);
            }
        }
    }
}

/// The code page search gives the number of the first `\ansicpgN` whose N is a
/// `u16`, and `None` where there is none; it skips nothing where no `\ansicpg`
/// follows directly on another.
pub proof fn lemma_ansicpg_scan_first(b: Seq<u8>)
    requires
        !has_doubled_ansicpg(b),
    ensures
        ansicpg_scan(b, 0) matches Some(n) ==> exists|k: int|
            0 <= k && #[trigger] ansicpg_valid_at(b, k) && ansicpg_value_at(b, k) == n && forall|
                j: int,
            |
                0 <= j < k ==> !#[trigger] ansicpg_valid_at(b, j),
        ansicpg_scan(b, 0) is None ==> forall|k: int| 0 <= k ==> !#[trigger] ansicpg_valid_at(b, k),
{
    lemma_ansicpg_scan_first_from(b, 0);
}

/// `\uN` yields the char of code point N (nothing where N is no Unicode scalar
/// value) and then skips as many fallback bytes as the last `\ucN` said; in the
/// text that the parser reads this holds in HTML mode.
pub proof fn lemma_unicode_escape_yields_char(
    b: Seq<u8>,
    t: Seq<Seq<char>>,
    pos: int,
    uc: i32,
)
    requires
        0 <= pos,
        pos + 1 < b.len(),
        b[pos] == 92,
        is_unicode_escape(b, pos + 1),
        param_has_digits(b, pos + 2),
    ensures
        decode_step(b, t, pos, uc).2 == chars_of_code_point(param_value(b, pos + 2) as u32),
        decode_step(b, t, pos, uc).0 == skip_fallback(b, param_end(b, pos + 2), fallback_count(uc)),
        parse_step(b, t, pos, ContentMode::Html, uc).3 == chars_of_code_point(
            param_value(b, pos + 2) as u32,
        ),
{
    assert(!occurs_at(b, pos + 1, htmlrtf_word())) by {
        if occurs_at(b, pos + 1, htmlrtf_word()) {
            assert(b.subrange(pos + 1, pos + 8)[0] == b[pos + 1]);
        }
    }
}

/// The first HTML tag group ends the waiting: a `{\*\htmltag` met while
/// waiting leaves the parser in HTML mode, so the text after it is output. In
/// any other mode a tag group keeps the mode.
pub proof fn lemma_tag_group_ends_waiting(
    b: Seq<u8>,
    t: Seq<Seq<char>>,
    pos: int,
    mode: ContentMode,
    uc: i32,
)
    requires
        0 <= pos < b.len(),
        b.subrange(pos, pos + 11) == seq![123u8, 92, 42, 92, 104, 116, 109, 108, 116, 97, 103],
        pos + 11 <= b.len(),
    ensures
        parse_step(b, t, pos, ContentMode::Waiting, uc).1 == ContentMode::Html,
        mode != ContentMode::Waiting ==> parse_step(b, t, pos, mode, uc).1 == mode,
{
    assert(occurs_at(b, pos, htmltag_group_open()));
}

/// In HTML mode a text byte that is printable ASCII, a tab, a line feed or a
/// carriage return is output as that char.
pub proof fn lemma_html_text_passes_through(b: Seq<u8>, t: Seq<Seq<char>>, pos: int, uc: i32)
    requires
        0 <= pos < b.len(),
        b[pos] != 123 && b[pos] != 125 && b[pos] != 92,
        (0x20 <= b[pos] <= 0x7E) || b[pos] == 9 || b[pos] == 10 || b[pos] == 13,
    ensures
        parse_step(b, t, pos, ContentMode::Html, uc) == (
            pos + 1,
            ContentMode::Html,
            uc,
            seq![b[pos] as char],
        ),
{
}

/// Any other text byte (a control character, DEL, or a byte of a multi-byte
/// sequence) is dropped, in every mode, and so is a non-printable byte in tag
/// content.
pub proof fn lemma_other_bytes_dropped(b: Seq<u8>, t: Seq<Seq<char>>, pos: int, mode: ContentMode, uc: i32)
    requires
        0 <= pos < b.len(),
        b[pos] != 123 && b[pos] != 125 && b[pos] != 92,
        !(0x20 <= b[pos] <= 0x7E),
    ensures
        b[pos] != 9 && b[pos] != 10 && b[pos] != 13 ==> parse_step(b, t, pos, mode, uc) == (
            pos + 1,
            mode,
            uc,
            Seq::<char>::empty(),
        ),
        decode_step(b, t, pos, uc) == (pos + 1, uc, Seq::<char>::empty()),
{
}

/// Fallback bytes without escapes are skipped one by one: `n` of them from `i`,
/// as far as the text goes.
pub proof fn lemma_plain_fallback_skip(b: Seq<u8>, i: int, n: nat)
    requires
        0 <= i,
        forall|k: int| i <= k < i + n && k < b.len() ==> #[trigger] b[k] != 92,
    ensures
        skip_fallback(b, i, n) == if i + n <= b.len() {
            i + n
        } else if i <= b.len() {
            b.len() as int
        } else {
            i
        },
    decreases n,
{
    if n > 0 && i < b.len() {
        lemma_plain_fallback_skip(b, i + 1, (n - 1) as nat);
    }
}

/// A backslash before a backslash, `{` or `}` stands for that character: in tag
/// content and in HTML-mode text it yields exactly that char and consumes the
/// two bytes.
pub proof fn lemma_escaped_literals(b: Seq<u8>, t: Seq<Seq<char>>, i: int, uc: i32)
    requires
        0 <= i,
        i + 1 < b.len(),
        b[i] == 92,
        b[i + 1] == 92 || b[i + 1] == 123 || b[i + 1] == 125,
    ensures
        decode_step(b, t, i, uc) == (i + 2, uc, seq![b[i + 1] as char]),
        parse_step(b, t, i, ContentMode::Html, uc) == (
            i + 2,
            ContentMode::Html,
            uc,
            seq![b[i + 1] as char],
        ),
        decode_step_fits(b, i),
{
    assert(!occurs_at(b, i + 1, htmlrtf_word())) by {
        if occurs_at(b, i + 1, htmlrtf_word()) {
            assert(b.subrange(i + 1, i + 8)[0] == b[i + 1]);
        }
    }
}

/// The content of a tag group `{\*\htmltagN c}` is `c`: the marker, the whole
/// number N (any run of digits) and the one space after it are removed.
pub proof fn lemma_htmltag_content_is_the_tag(d: Seq<u8>, c: Seq<u8>)
    requires
        forall|k: int| 0 <= k < d.len() ==> is_digit(#[trigger] d[k]),
    ensures
        htmltag_content(
            seq![123u8, 92, 42, 92, 104, 116, 109, 108, 116, 97, 103] + d + seq![32u8] + c
                + seq![125u8],
        ) == c,
        c.len() == 0 || (!is_digit(c[0]) && c[0] != 32) ==> htmltag_content(
            seq![123u8, 92, 42, 92, 104, 116, 109, 108, 116, 97, 103] + d + c + seq![125u8],
        ) == c,
{
    let open = seq![123u8, 92, 42, 92, 104, 116, 109, 108, 116, 97, 103];
    let m = htmltag_marker();
    let n = d.len() as int;
    let g1 = open + d + seq![32u8] + c + seq![125u8];
    let inner1 = g1.subrange(1, g1.len() - 1);
    assert(inner1 =~= m + d + seq![32u8] + c);
    assert(inner1.subrange(0, 10) =~= m);
    assert(find_from(inner1, m, 0) == Some(0int));
    assert forall|k: int| 10 <= k < 10 + n implies is_digit(#[trigger] inner1[k]) by {
        assert(inner1[k] == d[k - 10]);
    }
    lemma_digits_end_of_run(inner1, 10, 10 + n);
    assert(inner1.subrange(11 + n, inner1.len() as int) =~= c);
    if c.len() == 0 || (!is_digit(c[0]) && c[0] != 32) {
        let g2 = open + d + c + seq![125u8];
        let inner2 = g2.subrange(1, g2.len() - 1);
        assert(inner2 =~= m + d + c);
        assert(inner2.subrange(0, 10) =~= m);
        assert(find_from(inner2, m, 0) == Some(0int));
        assert forall|k: int| 10 <= k < 10 + n implies is_digit(#[trigger] inner2[k]) by {
            assert(inner2[k] == d[k - 10]);
        }
        if c.len() > 0 {
            assert(inner2[10 + n] == c[0]);
        }
        lemma_digits_end_of_run(inner2, 10, 10 + n);
        assert(inner2.subrange(10 + n, inner2.len() as int) =~= c);
    }
}

/// `\'hh` with two hex digits stands for the byte 16 * h + l: in tag content
/// and in HTML-mode text it yields that byte's text and consumes four bytes.
pub proof fn lemma_hex_escape_yields_byte_text(b: Seq<u8>, t: Seq<Seq<char>>, i: int, uc: i32)
    requires
        0 <= i,
        i + 3 < b.len(),
        b[i] == 92,
        b[i + 1] == 39,
        hex_byte(b[i + 2], b[i + 3]) is Some,
    ensures
        decode_step(b, t, i, uc) == (i + 4, uc, t[hex_byte(b[i + 2], b[i + 3]).unwrap() as int]),
        parse_step(b, t, i, ContentMode::Html, uc) == (
            i + 4,
            ContentMode::Html,
            uc,
            t[hex_byte(b[i + 2], b[i + 3]).unwrap() as int],
        ),
{
    assert(!occurs_at(b, i + 1, htmlrtf_word())) by {
        if occurs_at(b, i + 1, htmlrtf_word()) {
            assert(b.subrange(i + 1, i + 8)[0] == b[i + 1]);
        }
    }
}

/// A document is decoded in the code page of its first `\ansicpgN` when that
/// code page is known, and in Windows-1252 otherwise.
pub proof fn lemma_document_charset_follows_ansicpg(b: Seq<u8>)
    ensures
        match ansicpg_scan(b, 0) {
            Some(cp) => if charset_of_codepage(cp) is Some {
                charset_codepage(document_charset(b)) == cp
            } else {
                document_charset(b) == Charset::Windows1252
            },
            None => document_charset(b) == Charset::Windows1252,
        },
{
    crate::charset::lemma_codepage_mapping_keeps_the_number(0, Charset::Windows1252);
    if let Some(cp) = ansicpg_scan(b, 0) {
        if let Some(c) = charset_of_codepage(cp) {
            crate::charset::lemma_codepage_mapping_keeps_the_number(cp, c);
        }
    }
}

/// A group that holds no brace and no backslash ends at its closing brace.
pub proof fn lemma_flat_group_is_balanced(b: Seq<u8>, start: int, e: int)
    requires
        0 <= start,
        start + 1 < e <= b.len(),
        b[start] == 123,
        b[e - 1] == 125,
        forall|k: int| start < k < e - 1 ==> #[trigger] b[k] != 123 && b[k] != 125 && b[k] != 92,
    ensures
        balanced_group_end(b, start) == Some(e),
{
    lemma_flat_group_close(b, start + 1, e);
}

proof fn lemma_flat_group_close(b: Seq<u8>, i: int, e: int)
    requires
        0 <= i < e <= b.len(),
        b[e - 1] == 125,
        forall|k: int| i <= k < e - 1 ==> #[trigger] b[k] != 123 && b[k] != 125 && b[k] != 92,
    ensures
        group_close(b, i, 1) == Some(e),
    decreases e - i,
{
    if i < e - 1 {
        lemma_flat_group_close(b, i + 1, e);
    }
}

/// What extraction gives: an error exactly where the text is not RTF, carries
/// no `\fromhtml` marker, or yields no output; otherwise output that is not empty.
pub proof fn lemma_html_from_rtf_outcomes(b: Seq<u8>)
    ensures
        html_from_rtf(b) == Err::<Seq<char>, RtfError>(RtfError::NotRtf) <==> !occurs_at(
            b,
            0,
            rtf_signature(),
        ),
        html_from_rtf(b) == Err::<Seq<char>, RtfError>(RtfError::NotFromHtml) <==> occurs_at(
            b,
            0,
            rtf_signature(),
        ) && find_from(b, fromhtml_word(), 0) is None,
        html_from_rtf(b) matches Ok(s) ==> s.len() > 0,
{
}

} // verus!
