//! Extraction of (status, domain) events from raw log lines.
//!
//! A line carries an event when it contains, at its leftmost possible
//! position, the shape `<digits>=<status-digits> http[s]://<domain>/`,
//! where `<status-digits>` is a run of decimal digits and `<domain>` is a
//! non-empty run of bytes without `/`, ended by a `/`. The status run must
//! name a value that fits in sixteen bits and the domain bytes must be
//! valid UTF-8; a line that fails either test carries no event.

use vstd::prelude::*;
use vstd::slice::{slice_subrange, slice_to_vec};
use vstd::utf8::{decode_utf8, encode_utf8, valid_utf8};

verus! {

/// One metric event extracted from a log line.
pub struct LogEvent {
    pub domain: String,
    pub status: u16,
}

/// ASCII codes the line shape is written in.
pub const B_EQ: u8 = 61;

pub const B_SPACE: u8 = 32;

pub const B_COLON: u8 = 58;

pub const B_SLASH: u8 = 47;

pub const B_H: u8 = 104;

pub const B_T: u8 = 116;

pub const B_P: u8 = 112;

pub const B_S: u8 = 115;

/// Whether a byte is an ASCII decimal digit.
pub open spec fn is_digit(b: u8) -> bool {
    48 <= b <= 57
}

/// The least index `j >= i` at which the line ends or a non-digit stands.
pub open spec fn digit_run_end(s: Seq<u8>, i: int) -> int
    decreases s.len() - i,
{
    if i < s.len() && is_digit(s[i]) {
        digit_run_end(s, i + 1)
    } else {
        i
    }
}

/// The least index `j >= i` at which the line ends or a `/` stands.
pub open spec fn nonslash_run_end(s: Seq<u8>, i: int) -> int
    decreases s.len() - i,
{
    if i < s.len() && s[i] != B_SLASH {
        nonslash_run_end(s, i + 1)
    } else {
        i
    }
}

/// The bytes `http://` stand at `j`.
pub open spec fn has_http_at(s: Seq<u8>, j: int) -> bool {
    &&& j + 7 <= s.len()
    &&& s[j] == B_H
    &&& s[j + 1] == B_T
    &&& s[j + 2] == B_T
    &&& s[j + 3] == B_P
    &&& s[j + 4] == B_COLON
    &&& s[j + 5] == B_SLASH
    &&& s[j + 6] == B_SLASH
}

/// The bytes `https://` stand at `j`.
pub open spec fn has_https_at(s: Seq<u8>, j: int) -> bool {
    &&& j + 8 <= s.len()
    &&& s[j] == B_H
    &&& s[j + 1] == B_T
    &&& s[j + 2] == B_T
    &&& s[j + 3] == B_P
    &&& s[j + 4] == B_S
    &&& s[j + 5] == B_COLON
    &&& s[j + 6] == B_SLASH
    &&& s[j + 7] == B_SLASH
}

/// Index just past the scheme that stands at `j`.
pub open spec fn scheme_end(s: Seq<u8>, j: int) -> int {
    if has_https_at(s, j) {
        j + 8
    } else {
        j + 7
    }
}

/// A full match of the line shape starts at `i`.
pub open spec fn match_at(s: Seq<u8>, i: int) -> bool {
    let d1 = digit_run_end(s, i);
    let d2 = digit_run_end(s, d1 + 1);
    let h0 = scheme_end(s, d2 + 1);
    let h1 = nonslash_run_end(s, h0);
    &&& d1 > i
    &&& d1 < s.len() && s[d1] == B_EQ
    &&& d2 > d1 + 1
    &&& d2 < s.len() && s[d2] == B_SPACE
    &&& (has_http_at(s, d2 + 1) || has_https_at(s, d2 + 1))
    &&& h1 > h0
    &&& h1 < s.len() && s[h1] == B_SLASH
}

/// The status digits of the match that starts at `i`.
pub open spec fn status_bytes_at(s: Seq<u8>, i: int) -> Seq<u8> {
    let d1 = digit_run_end(s, i);
    s.subrange(d1 + 1, digit_run_end(s, d1 + 1))
}

/// The domain bytes of the match that starts at `i`.
pub open spec fn domain_bytes_at(s: Seq<u8>, i: int) -> Seq<u8> {
    let d1 = digit_run_end(s, i);
    let d2 = digit_run_end(s, d1 + 1);
    let h0 = scheme_end(s, d2 + 1);
    s.subrange(h0, nonslash_run_end(s, h0))
}

/// The leftmost match position at or after `i`, if any.
pub open spec fn first_match_from(s: Seq<u8>, i: int) -> Option<int>
    decreases s.len() - i,
{
    if i >= s.len() {
        None
    } else if match_at(s, i) {
        Some(i)
    } else {
        first_match_from(s, i + 1)
    }
}

/// Numeric value of a run of ASCII digits, most significant first.
pub open spec fn digits_val(s: Seq<u8>) -> int
    decreases s.len(),
{
    if s.len() == 0 {
        0
    } else {
        digits_val(s.drop_last()) * 10 + (s.last() - 48)
    }
}

/// The event a whole line carries, if any: the captures of the leftmost
/// match, kept only when the status fits in a `u16` and the domain bytes
/// are valid UTF-8.
pub open spec fn event_spec(s: Seq<u8>) -> Option<(Seq<char>, u16)> {
    match first_match_from(s, 0) {
        None => None,
        Some(i) => {
            let st = status_bytes_at(s, i);
            let dom = domain_bytes_at(s, i);
            if digits_val(st) <= 0xffff && valid_utf8(dom) {
                Some((decode_utf8(dom), digits_val(st) as u16))
            } else {
                None
            }
        },
    }
}

proof fn lemma_digit_run_end(s: Seq<u8>, i: int)
    requires
        0 <= i <= s.len(),
    ensures
        i <= digit_run_end(s, i) <= s.len(),
        forall|k: int| i <= k < digit_run_end(s, i) ==> is_digit(s[k]),
        digit_run_end(s, i) < s.len() ==> !is_digit(s[digit_run_end(s, i)]),
    decreases s.len() - i,
{
    if i < s.len() && is_digit(s[i]) {
        lemma_digit_run_end(s, i + 1);
    }
}

/// Spans of the two captures of a match, as byte offsets into the line.
struct Spans {
    status_lo: usize,
    status_hi: usize,
    dom_lo: usize,
    dom_hi: usize,
}

/// End of the digit run that starts at `i`.
fn digit_run_end_exec(s: &[u8], i: usize) -> (j: usize)
    requires
        i <= s@.len(),
    ensures
        j == digit_run_end(s@, i as int),
        i <= j <= s@.len(),
{
    let n = s.len();
    let mut j = i;
    while j < n && 48 <= s[j] && s[j] <= 57
        invariant
            i <= j <= n == s@.len(),
            digit_run_end(s@, i as int) == digit_run_end(s@, j as int),
        decreases n - j,
    {
        j = j + 1;
    }
    j
}

/// End of the run of non-`/` bytes that starts at `i`.
fn nonslash_run_end_exec(s: &[u8], i: usize) -> (j: usize)
    requires
        i <= s@.len(),
    ensures
        j == nonslash_run_end(s@, i as int),
        i <= j <= s@.len(),
{
    let n = s.len();
    let mut j = i;
    while j < n && s[j] != B_SLASH
        invariant
            i <= j <= n == s@.len(),
            nonslash_run_end(s@, i as int) == nonslash_run_end(s@, j as int),
        decreases n - j,
    {
        j = j + 1;
    }
    j
}

/// Try the full line shape at position `i`.
fn try_match_at(s: &[u8], i: usize) -> (r: Option<Spans>)
    requires
        i < s@.len(),
    ensures
        r is Some <==> match_at(s@, i as int),
        r is Some ==> {
            let sp = r->0;
            &&& sp.status_lo <= sp.status_hi <= s@.len()
            &&& sp.dom_lo <= sp.dom_hi <= s@.len()
            &&& s@.subrange(sp.status_lo as int, sp.status_hi as int) == status_bytes_at(
                s@,
                i as int,
            )
            &&& s@.subrange(sp.dom_lo as int, sp.dom_hi as int) == domain_bytes_at(s@, i as int)
        },
{
    let n = s.len();
    let d1 = digit_run_end_exec(s, i);
    if !(d1 > i && d1 < n && s[d1] == B_EQ) {
        return None;
    }
    let d2 = digit_run_end_exec(s, d1 + 1);
    if !(d2 > d1 + 1 && d2 < n && s[d2] == B_SPACE) {
        return None;
    }
    let j = d2 + 1;
    // scheme: `http://` or `https://`
    if n - j < 7 {
        return None;
    }
    if !(s[j] == B_H && s[j + 1] == B_T && s[j + 2] == B_T && s[j + 3] == B_P) {
        return None;
    }
    let h0: usize = if s[j + 4] == B_S {
        if !(n - j >= 8 && s[j + 5] == B_COLON && s[j + 6] == B_SLASH && s[j + 7] == B_SLASH) {
            return None;
        }
        assert(has_https_at(s@, j as int));
        j + 8
    } else {
        if !(s[j + 4] == B_COLON && s[j + 5] == B_SLASH && s[j + 6] == B_SLASH) {
            return None;
        }
        assert(has_http_at(s@, j as int) && !has_https_at(s@, j as int));
        j + 7
    };
    let h1 = nonslash_run_end_exec(s, h0);
    if !(h1 > h0 && h1 < n && s[h1] == B_SLASH) {
        return None;
    }
    Some(Spans { status_lo: d1 + 1, status_hi: d2, dom_lo: h0, dom_hi: h1 })
}

proof fn lemma_digits_val_bounds(s: Seq<u8>)
    requires
        forall|k: int| 0 <= k < s.len() ==> is_digit(s[k]),
    ensures
        digits_val(s) >= 0,
        s.len() > 0 ==> digits_val(s) >= digits_val(s.drop_last()),
    decreases s.len(),
{
    if s.len() > 0 {
        assert(forall|k: int| 0 <= k < s.drop_last().len() ==> is_digit(s.drop_last()[k]));
        lemma_digits_val_bounds(s.drop_last());
    }
}

proof fn lemma_digits_val_prefix_le(s: Seq<u8>, i: int)
    requires
        forall|k: int| 0 <= k < s.len() ==> is_digit(s[k]),
        0 <= i <= s.len(),
    ensures
        digits_val(s.subrange(0, i)) <= digits_val(s),
    decreases s.len() - i,
{
    if i < s.len() {
        lemma_digits_val_prefix_le(s, i + 1);
        let t = s.subrange(0, i + 1);
        assert(t.drop_last() =~= s.subrange(0, i));
        assert(forall|k: int| 0 <= k < t.len() ==> is_digit(t[k]));
        lemma_digits_val_bounds(t);
    } else {
        assert(s.subrange(0, i) =~= s);
    }
}

/// Parse a non-empty run of ASCII digits as a status code; `None` when the
/// value does not fit in sixteen bits.
fn parse_status(digits: &[u8]) -> (r: Option<u16>)
    requires
        digits@.len() > 0,
        forall|k: int| 0 <= k < digits@.len() ==> is_digit(digits@[k]),
    ensures
        r is Some <==> digits_val(digits@) <= 0xffff,
        r is Some ==> r->0 == digits_val(digits@),
{
    let n = digits.len();
    let mut acc: u32 = 0;
    let mut i: usize = 0;
    while i < n
        invariant
            0 <= i <= n == digits@.len(),
            forall|k: int| 0 <= k < digits@.len() ==> is_digit(digits@[k]),
            acc == digits_val(digits@.subrange(0, i as int)),
            acc <= 0xffff,
        decreases n - i,
    {
        let d = digits[i];
        let nv: u32 = acc * 10 + ((d - 48) as u32);
        assert(digits@.subrange(0, i + 1 as int).drop_last() =~= digits@.subrange(0, i as int));
        if nv > 0xffff {
            proof {
                lemma_digits_val_prefix_le(digits@, i + 1 as int);
            }
            return None;
        }
        acc = nv;
        i = i + 1;
    }
    assert(digits@.subrange(0, n as int) =~= digits@);
    Some(acc as u16)
}

/// Relies on `String::from_utf8`: it returns the string decoded from the
/// bytes exactly when they are valid UTF-8 (so the string's encoding is
/// those very bytes), and fails otherwise.
#[verifier::external_body]
fn bytes_to_string(b: Vec<u8>) -> (r: Option<String>)
    ensures
        r is Some <==> valid_utf8(b@),
        r is Some ==> r->0@ == decode_utf8(b@),
        r is Some ==> encode_utf8(r->0@) == b@,
{
    match String::from_utf8(b) {
        Ok(s) => Some(s),
        Err(_) => None,
    }
}

/// Extract the event a log line carries, if any: the leftmost match of the
/// line shape, with its status parsed and its domain decoded.
pub fn extract_event(line: &[u8]) -> (r: Option<LogEvent>)
    ensures
        r is Some <==> event_spec(line@) is Some,
        r is Some ==> r->0.domain@ == (event_spec(line@)->0).0,
        r is Some ==> r->0.status == (event_spec(line@)->0).1,
{
    let n = line.len();
    let mut i: usize = 0;
    while i < n
        invariant
            0 <= i <= n == line@.len(),
            first_match_from(line@, 0) == first_match_from(line@, i as int),
        decreases n - i,
    {
        match try_match_at(line, i) {
            Some(sp) => {
                assert(first_match_from(line@, i as int) == Some(i as int));
                proof {
                    let d1 = digit_run_end(line@, i as int);
                    lemma_digit_run_end(line@, i as int);
                    lemma_digit_run_end(line@, d1 + 1);
                }
                let status_slice = slice_subrange(line, sp.status_lo, sp.status_hi);
                let status = match parse_status(status_slice) {
                    Some(v) => v,
                    None => {
                        return None;
                    },
                };
                let dom_slice = slice_subrange(line, sp.dom_lo, sp.dom_hi);
                let dom_vec = slice_to_vec(dom_slice);
                let domain = match bytes_to_string(dom_vec) {
                    Some(d) => d,
                    None => {
                        return None;
                    },
                };
                return Some(LogEvent { domain, status });
            },
            None => {
                assert(first_match_from(line@, i as int) == first_match_from(line@, i + 1 as int));
                i = i + 1;
            },
        }
    }
    assert(first_match_from(line@, i as int) is None);
    None
}

} // verus!
