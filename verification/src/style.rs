//! Parsing a tile's inline style: find the first `background-color:
//! rgb(r, g, b)` declaration in the attribute text and read its three
//! decimal channel values.
//!
//! The declaration's shape is the literal `background-color:`, optional
//! whitespace, the literal `rgb(`, then three runs of decimal digits, the
//! first two each followed directly by a comma and optional whitespace,
//! the last followed directly by a closing parenthesis. A digit run is
//! maximal, and the declaration may start anywhere in the text; the
//! leftmost occurrence wins. Each channel must denote a value in
//! `[0, 255]`.

use vstd::prelude::*;
use crate::board::Rgb;
use crate::error::Error;

verus! {

/// The whitespace characters allowed after the property name and after
/// each comma.
pub open spec fn is_ws(c: char) -> bool {
    c == ' ' || c == '\t' || c == '\n' || c == '\r' || c == '\u{0b}' || c == '\u{0c}'
}

/// A decimal digit.
pub open spec fn is_digit(c: char) -> bool {
    '0' <= c && c <= '9'
}

/// The numeric value of a digit character.
pub open spec fn digit_val(c: char) -> int {
    c as int - '0' as int
}

/// The value of a run of decimal digits, most significant first.
pub open spec fn dec_val(s: Seq<char>) -> int
    decreases s.len(),
{
    if s.len() == 0 {
        0
    } else {
        dec_val(s.drop_last()) * 10 + digit_val(s.last())
    }
}

/// The property-name literal every declaration starts with.
pub open spec fn header_lit() -> Seq<char> {
    "background-color:"@
}

/// The literal that opens the colour function.
pub open spec fn rgb_open_lit() -> Seq<char> {
    "rgb("@
}

/// Whether the literal `lit` occurs in `s` starting at position `i`.
pub open spec fn lit_at(s: Seq<char>, i: int, lit: Seq<char>) -> bool {
    0 <= i && i + lit.len() <= s.len() && s.subrange(i, i + lit.len()) == lit
}

/// The first position at or after `i` holding a non-whitespace character
/// (or the end of the text).
pub open spec fn skip_ws_from(s: Seq<char>, i: int) -> int
    decreases s.len() - i,
{
    if 0 <= i < s.len() && is_ws(s[i]) {
        skip_ws_from(s, i + 1)
    } else {
        i
    }
}

/// The first position at or after `i` holding a non-digit character (or
/// the end of the text).
pub open spec fn skip_digits_from(s: Seq<char>, i: int) -> int
    decreases s.len() - i,
{
    if 0 <= i < s.len() && is_digit(s[i]) {
        skip_digits_from(s, i + 1)
    } else {
        i
    }
}

/// Where the first channel's digits start, for a declaration at `i`.
pub open spec fn d1_of(s: Seq<char>, i: int) -> int {
    skip_ws_from(s, i + header_lit().len()) + rgb_open_lit().len()
}

/// Where the first channel's digits end.
pub open spec fn e1_of(s: Seq<char>, i: int) -> int {
    skip_digits_from(s, d1_of(s, i))
}

/// Where the second channel's digits start.
pub open spec fn d2_of(s: Seq<char>, i: int) -> int {
    skip_ws_from(s, e1_of(s, i) + 1)
}

/// Where the second channel's digits end.
pub open spec fn e2_of(s: Seq<char>, i: int) -> int {
    skip_digits_from(s, d2_of(s, i))
}

/// Where the third channel's digits start.
pub open spec fn d3_of(s: Seq<char>, i: int) -> int {
    skip_ws_from(s, e2_of(s, i) + 1)
}

/// Where the third channel's digits end.
pub open spec fn e3_of(s: Seq<char>, i: int) -> int {
    skip_digits_from(s, d3_of(s, i))
}

/// Whether a colour declaration occurs in `s` starting exactly at `i`.
/// Digit runs are maximal, which is what a greedy pattern matches here:
/// giving back a digit would leave a digit where a comma or parenthesis
/// is required, and giving back whitespace would leave whitespace where
/// `rgb(` or a digit is required.
pub open spec fn matches_at(s: Seq<char>, i: int) -> bool {
    &&& lit_at(s, i, header_lit())
    &&& lit_at(s, skip_ws_from(s, i + header_lit().len()), rgb_open_lit())
    &&& e1_of(s, i) > d1_of(s, i)
    &&& e1_of(s, i) < s.len()
    &&& s[e1_of(s, i)] == ','
    &&& e2_of(s, i) > d2_of(s, i)
    &&& e2_of(s, i) < s.len()
    &&& s[e2_of(s, i)] == ','
    &&& e3_of(s, i) > d3_of(s, i)
    &&& e3_of(s, i) < s.len()
    &&& s[e3_of(s, i)] == ')'
}

/// The position of the first declaration at or after `i`, if any.
pub open spec fn match_from(s: Seq<char>, i: int) -> Option<int>
    decreases s.len() - i,
{
    if i >= s.len() {
        None
    } else if matches_at(s, i) {
        Some(i)
    } else {
        match_from(s, i + 1)
    }
}

/// The position of the leftmost declaration in `s`, if any.
pub open spec fn first_match(s: Seq<char>) -> Option<int> {
    match_from(s, 0)
}

/// The first channel's digit text, for a declaration at `i`.
pub open spec fn cap1(s: Seq<char>, i: int) -> Seq<char> {
    s.subrange(d1_of(s, i), e1_of(s, i))
}

/// The second channel's digit text.
pub open spec fn cap2(s: Seq<char>, i: int) -> Seq<char> {
    s.subrange(d2_of(s, i), e2_of(s, i))
}

/// The third channel's digit text.
pub open spec fn cap3(s: Seq<char>, i: int) -> Seq<char> {
    s.subrange(d3_of(s, i), e3_of(s, i))
}

/// Whether every channel of the declaration at `i` denotes a value in
/// `[0, 255]`.
pub open spec fn channels_ok_at(s: Seq<char>, i: int) -> bool {
    dec_val(cap1(s, i)) <= 255 && dec_val(cap2(s, i)) <= 255 && dec_val(cap3(s, i)) <= 255
}

/// The colour the declaration at `i` denotes, when its channels are in
/// range.
pub open spec fn rgb_at(s: Seq<char>, i: int) -> Rgb {
    Rgb(dec_val(cap1(s, i)) as u8, dec_val(cap2(s, i)) as u8, dec_val(cap3(s, i)) as u8)
}

/// The digit text of the first channel (in r, g, b order) whose value
/// exceeds 255, for the declaration at `i`.
pub open spec fn first_bad_channel(s: Seq<char>, i: int) -> Seq<char> {
    if dec_val(cap1(s, i)) > 255 {
        cap1(s, i)
    } else if dec_val(cap2(s, i)) > 255 {
        cap2(s, i)
    } else {
        cap3(s, i)
    }
}

/// What `parse_style` returns for the text `s`: the relation between the
/// text and the reported result.
pub open spec fn style_outcome(s: Seq<char>, r: Result<Rgb, Error>) -> bool {
    match r {
        Ok(rgb) => first_match(s) matches Some(i) && channels_ok_at(s, i) && rgb == rgb_at(s, i),
        Err(Error::MalformedColor { raw_text }) => first_match(s) is None && raw_text@ == s,
        Err(Error::InvalidChannelValue { raw_text }) => first_match(s) matches Some(i)
            && !channels_ok_at(s, i) && raw_text@ == first_bad_channel(s, i),
        Err(_) => false,
    }
}

/// Skipping digits stays within the text and skips only digits.
pub proof fn lemma_skip_digits_props(s: Seq<char>, i: int)
    requires
        0 <= i <= s.len(),
    ensures
        i <= skip_digits_from(s, i) <= s.len(),
        forall|k: int| i <= k < skip_digits_from(s, i) ==> is_digit(s[k]),
    decreases s.len() - i,
{
    if 0 <= i < s.len() && is_digit(s[i]) {
        lemma_skip_digits_props(s, i + 1);
    }
}

/// A run of digits denotes a nonnegative value.
pub proof fn lemma_dec_val_nonneg(s: Seq<char>)
    requires
        forall|k: int| 0 <= k < s.len() ==> is_digit(s[k]),
    ensures
        dec_val(s) >= 0,
    decreases s.len(),
{
    if s.len() > 0 {
        lemma_dec_val_nonneg(s.drop_last());
        assert(is_digit(s[s.len() - 1]));
    }
}

/// Extending a run of digits never lowers its value: the whole run's
/// value is at least any prefix's value.
pub proof fn lemma_dec_val_prefix(s: Seq<char>, m: int)
    requires
        forall|k: int| 0 <= k < s.len() ==> is_digit(s[k]),
        0 <= m <= s.len(),
    ensures
        dec_val(s) >= dec_val(s.take(m)),
    decreases s.len(),
{
    if m == s.len() {
        assert(s.take(m) =~= s);
    } else {
        assert(forall|k: int| 0 <= k < s.drop_last().len() ==> is_digit(s.drop_last()[k]));
        lemma_dec_val_prefix(s.drop_last(), m);
        assert(s.drop_last().take(m) =~= s.take(m));
        lemma_dec_val_nonneg(s.drop_last());
        assert(is_digit(s[s.len() - 1]));
    }
}

/// If no declaration starts anywhere in `[i, len)`, the search from `i`
/// finds none.
pub proof fn lemma_match_from_none(s: Seq<char>, i: int)
    requires
        forall|j: int| i <= j < s.len() ==> !matches_at(s, j),
    ensures
        match_from(s, i) is None,
    decreases s.len() - i,
{
    if i < s.len() {
        lemma_match_from_none(s, i + 1);
    }
}

/// If a declaration starts at `i` and none starts earlier (at or after
/// `k`), the search from `k` finds exactly `i`.
pub proof fn lemma_match_from_finds(s: Seq<char>, k: int, i: int)
    requires
        0 <= k <= i < s.len(),
        matches_at(s, i),
        forall|j: int| k <= j < i ==> !matches_at(s, j),
    ensures
        match_from(s, k) == Some(i),
    decreases i - k,
{
    if k < i {
        lemma_match_from_finds(s, k + 1, i);
    }
}

/// A whitespace test for one character.
fn is_ws_char(c: char) -> (b: bool)
    ensures
        b == is_ws(c),
{
    c == ' ' || c == '\t' || c == '\n' || c == '\r' || c == '\u{0b}' || c == '\u{0c}'
}

/// A digit test for one character.
fn is_digit_char(c: char) -> (b: bool)
    ensures
        b == is_digit(c),
{
    '0' <= c && c <= '9'
}

/// The first non-whitespace position at or after `i`.
fn skip_ws(s: &str, i: usize) -> (j: usize)
    requires
        i <= s@.len(),
    ensures
        j == skip_ws_from(s@, i as int),
        i <= j <= s@.len(),
{
    let n = s.unicode_len();
    let mut j = i;
    while j < n
        invariant
            i <= j <= n,
            n == s@.len(),
            skip_ws_from(s@, i as int) == skip_ws_from(s@, j as int),
        decreases n - j,
    {
        let c = s.get_char(j);
        if !is_ws_char(c) {
            return j;
        }
        j = j + 1;
    }
    j
}

/// The first non-digit position at or after `i`.
fn skip_digits(s: &str, i: usize) -> (j: usize)
    requires
        i <= s@.len(),
    ensures
        j == skip_digits_from(s@, i as int),
        i <= j <= s@.len(),
{
    let n = s.unicode_len();
    let mut j = i;
    while j < n
        invariant
            i <= j <= n,
            n == s@.len(),
            skip_digits_from(s@, i as int) == skip_digits_from(s@, j as int),
        decreases n - j,
    {
        let c = s.get_char(j);
        if !is_digit_char(c) {
            return j;
        }
        j = j + 1;
    }
    j
}

/// Whether `lit` occurs in `s` starting at `i`.
fn has_lit_at(s: &str, i: usize, lit: &str) -> (b: bool)
    requires
        i <= s@.len(),
    ensures
        b == lit_at(s@, i as int, lit@),
{
    let n = s.unicode_len();
    let m = lit.unicode_len();
    if m > n - i {
        return false;
    }
    let mut k: usize = 0;
    while k < m
        invariant
            0 <= k <= m,
            n == s@.len(),
            m == lit@.len(),
            i + m <= n,
            forall|l: int| 0 <= l < k ==> s@[i + l] == lit@[l],
        decreases m - k,
    {
        if s.get_char(i + k) != lit.get_char(k) {
            proof {
                assert(s@.subrange(i as int, i + m)[k as int] == s@[i + k]);
            }
            return false;
        }
        k = k + 1;
    }
    proof {
        assert(s@.subrange(i as int, i + m) =~= lit@);
    }
    true
}

/// The capture positions of a declaration: where each channel's digits
/// start and end.
struct Caps {
    d1: usize,
    e1: usize,
    d2: usize,
    e2: usize,
    d3: usize,
    e3: usize,
}

/// Whether a declaration starts exactly at `i`, and where its channel
/// digits lie if so.
fn try_match(s: &str, i: usize) -> (r: Option<Caps>)
    requires
        i <= s@.len(),
    ensures
        match r {
            Some(c) => matches_at(s@, i as int) && c.d1 == d1_of(s@, i as int) && c.e1 == e1_of(
                s@,
                i as int,
            ) && c.d2 == d2_of(s@, i as int) && c.e2 == e2_of(s@, i as int) && c.d3 == d3_of(
                s@,
                i as int,
            ) && c.e3 == e3_of(s@, i as int),
            None => !matches_at(s@, i as int),
        },
{
    let n = s.unicode_len();
    let header = "background-color:";
    let rgb_open = "rgb(";
    proof {
        assert(header@ == header_lit());
        assert(rgb_open@ == rgb_open_lit());
    }
    if !has_lit_at(s, i, header) {
        return None;
    }
    let hl = header.unicode_len();
    let a = i + hl;
    let b = skip_ws(s, a);
    if !has_lit_at(s, b, rgb_open) {
        return None;
    }
    let rl = rgb_open.unicode_len();
    let d1 = b + rl;
    let e1 = skip_digits(s, d1);
    if e1 == d1 || e1 == n || s.get_char(e1) != ',' {
        return None;
    }
    let d2 = skip_ws(s, e1 + 1);
    let e2 = skip_digits(s, d2);
    if e2 == d2 || e2 == n || s.get_char(e2) != ',' {
        return None;
    }
    let d3 = skip_ws(s, e2 + 1);
    let e3 = skip_digits(s, d3);
    if e3 == d3 || e3 == n || s.get_char(e3) != ')' {
        return None;
    }
    Some(Caps { d1, e1, d2, e2, d3, e3 })
}

/// The value of the digit run in `s` at `[start, end)`, if it is at most
/// 255.
fn channel_value(s: &str, start: usize, end: usize) -> (r: Option<u8>)
    requires
        start < end <= s@.len(),
        forall|k: int| start <= k < end ==> is_digit(s@[k]),
    ensures
        match r {
            Some(v) => v == dec_val(s@.subrange(start as int, end as int)) && dec_val(
                s@.subrange(start as int, end as int),
            ) <= 255,
            None => dec_val(s@.subrange(start as int, end as int)) > 255,
        },
{
    let ghost whole = s@.subrange(start as int, end as int);
    let mut val: u32 = 0;
    let mut j = start;
    while j < end
        invariant
            start <= j <= end <= s@.len(),
            forall|k: int| start <= k < end ==> is_digit(s@[k]),
            whole == s@.subrange(start as int, end as int),
            val <= 255,
            val == dec_val(s@.subrange(start as int, j as int)),
        decreases end - j,
    {
        let c = s.get_char(j);
        let d = (c as u32) - 48;
        proof {
            assert(is_digit(s@[j as int]));
            assert(s@.subrange(start as int, j + 1).drop_last() =~= s@.subrange(
                start as int,
                j as int,
            ));
            assert(s@.subrange(start as int, j + 1).last() == s@[j as int]);
        }
        let next = val * 10 + d;
        if next > 255 {
            proof {
                assert(forall|k: int|
                    0 <= k < whole.len() ==> is_digit(whole[k]) && whole[k] == s@[start + k]);
                lemma_dec_val_prefix(whole, j + 1 - start);
                assert(whole.take(j + 1 - start) =~= s@.subrange(start as int, j + 1));
            }
            return None;
        }
        val = next;
        j = j + 1;
    }
    proof {
        assert(s@.subrange(start as int, end as int) =~= s@.subrange(start as int, j as int));
    }
    Some(val as u8)
}

/// Parse a style attribute's text: the colour of the leftmost
/// `background-color: rgb(r, g, b)` declaration. Text holding no such
/// declaration is reported as `MalformedColor` (carrying the whole
/// text); a declaration whose first out-of-range channel is `c` is
/// reported as `InvalidChannelValue` (carrying `c`'s digits).
pub fn parse_style(s: &str) -> (r: Result<Rgb, Error>)
    ensures
        style_outcome(s@, r),
{
    let n = s.unicode_len();
    let mut i: usize = 0;
    while i < n
        invariant
            0 <= i <= n,
            n == s@.len(),
            forall|j: int| 0 <= j < i ==> !matches_at(s@, j),
        decreases n - i,
    {
        if let Some(caps) = try_match(s, i) {
            proof {
                lemma_match_from_finds(s@, 0, i as int);
                lemma_skip_digits_props(s@, caps.d1 as int);
                lemma_skip_digits_props(s@, caps.d2 as int);
                lemma_skip_digits_props(s@, caps.d3 as int);
            }
            let v1 = match channel_value(s, caps.d1, caps.e1) {
                Some(v) => v,
                None => {
                    let raw_text = s.substring_char(caps.d1, caps.e1).to_owned();
                    return Err(Error::InvalidChannelValue { raw_text });
                },
            };
            let v2 = match channel_value(s, caps.d2, caps.e2) {
                Some(v) => v,
                None => {
                    let raw_text = s.substring_char(caps.d2, caps.e2).to_owned();
                    return Err(Error::InvalidChannelValue { raw_text });
                },
            };
            let v3 = match channel_value(s, caps.d3, caps.e3) {
                Some(v) => v,
                None => {
                    let raw_text = s.substring_char(caps.d3, caps.e3).to_owned();
                    return Err(Error::InvalidChannelValue { raw_text });
                },
            };
            return Ok(Rgb(v1, v2, v3));
        }
        i = i + 1;
    }
    proof {
        lemma_match_from_none(s@, 0);
    }
    Err(Error::MalformedColor { raw_text: s.to_owned() })
}

} // verus!
