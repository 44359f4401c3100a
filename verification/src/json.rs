//! The byte-level JSON codec for the message vocabulary.
//!
//! Every message is one JSON object whose `tag` member names the variant
//! and whose remaining members carry the payload, in a fixed member order
//! with no whitespace.  `encode_netmessage` produces exactly that canonical
//! form; `decode_netmessage` parses it back, and the round-trip lemma shows
//! that every message survives the trip unchanged.
//!
//! The module runs from the small to the large: printing and parsing
//! primitives (decimal numbers, booleans, fixed byte strings) with their
//! lemmas; the variant tags and member-name literals, each also available
//! as a runtime byte vector; the encoding of each message shape and the
//! executable encoder; the parser, member by member, and the executable
//! decoder, which picks the variant from the tag's first byte, its
//! length, and one distinguishing byte before confirming the whole tag;
//! and finally the round-trip proofs, one per variant.

use vstd::prelude::*;
use crate::msg::{EndPoint, Netmessage, Point, WorldPiece};

verus! {

// ---------------------------------------------------------------------
// Printing primitives.
// ---------------------------------------------------------------------

/// A decimal digit byte.
pub open spec fn is_digit(b: u8) -> bool {
    48 <= b <= 57
}

/// The byte for one decimal digit value.
pub open spec fn digit_byte(d: int) -> u8 {
    (d + 48) as u8
}

/// The canonical decimal form of a number: no sign, no leading zeros.
pub open spec fn dec_u32(n: u32) -> Seq<u8>
    decreases n,
{
    if n < 10 {
        seq![digit_byte(n as int)]
    } else {
        dec_u32((n as int / 10) as u32).push(digit_byte(n as int % 10))
    }
}

/// The JSON form of a boolean.
pub open spec fn lit_true() -> Seq<u8> {
    seq![116u8, 114, 117, 101]
}

pub open spec fn lit_false() -> Seq<u8> {
    seq![102u8, 97, 108, 115, 101]
}

pub open spec fn enc_bool(b: bool) -> Seq<u8> {
    if b {
        lit_true()
    } else {
        lit_false()
    }
}

/// The opening of every message object, up to the first byte of the tag.
pub open spec fn lit_tag_open() -> Seq<u8> {
    seq![123u8, 34, 116u8, 97, 103, 34, 58, 34]
}

/// The closing quote of a tag or kind name.
pub open spec fn lit_q() -> Seq<u8> {
    seq![34]
}

/// The closing brace of an object.
pub open spec fn lit_rb() -> Seq<u8> {
    seq![125]
}

// ---------------------------------------------------------------------
// Parsing primitives.
// ---------------------------------------------------------------------

/// The bytes of `lit` stand in `s` at position `i`.
pub open spec fn has_lit(s: Seq<u8>, i: int, lit: Seq<u8>) -> bool {
    &&& 0 <= i
    &&& i + lit.len() <= s.len()
    &&& s.subrange(i, i + lit.len() as int) == lit
}

/// The position of the first double quote at or after `i`, or the length
/// of `s` if there is none.
pub open spec fn quote_end(s: Seq<u8>, i: int) -> int
    decreases s.len() - i,
{
    if i < 0 || i >= s.len() {
        s.len() as int
    } else if s[i] == 34 {
        i
    } else {
        quote_end(s, i + 1)
    }
}

/// The position of the first non-digit byte at or after `i`, or the
/// length of `s` if every byte from `i` on is a digit.
pub open spec fn digits_end(s: Seq<u8>, i: int) -> int
    decreases s.len() - i,
{
    if i < 0 || i >= s.len() {
        s.len() as int
    } else if !is_digit(s[i]) {
        i
    } else {
        digits_end(s, i + 1)
    }
}

/// The value of the digit run `s[i..j]`.
pub open spec fn digits_val(s: Seq<u8>, i: int, j: int) -> int
    decreases j - i,
{
    if j <= i {
        0
    } else {
        digits_val(s, i, j - 1) * 10 + (s[j - 1] - 48)
    }
}

/// Parse an unsigned decimal number at `i`: the digit run must be
/// non-empty and its value must fit in 32 bits.
pub open spec fn parse_u32(s: Seq<u8>, i: int) -> Option<(u32, int)> {
    let j = digits_end(s, i);
    if j == i || digits_val(s, i, j) > u32::MAX {
        None
    } else {
        Some((digits_val(s, i, j) as u32, j))
    }
}

/// Parse a JSON boolean at `i`.
pub open spec fn parse_bool(s: Seq<u8>, i: int) -> Option<(bool, int)> {
    if has_lit(s, i, lit_true()) {
        Some((true, i + 4))
    } else if has_lit(s, i, lit_false()) {
        Some((false, i + 5))
    } else {
        None
    }
}

/// Position `j` holds the closing brace of the whole message: the object
/// ends there and nothing follows it.
pub open spec fn end_at(s: Seq<u8>, j: int) -> bool {
    &&& 0 <= j
    &&& j + 1 == s.len()
    &&& s[j] == 125
}

// ---------------------------------------------------------------------
// Lemmas about the primitives.
// ---------------------------------------------------------------------

/// A byte-for-byte match makes `has_lit` hold.
pub proof fn lemma_has_lit(s: Seq<u8>, i: int, lit: Seq<u8>)
    requires
        0 <= i,
        i + lit.len() <= s.len(),
        forall|t: int| 0 <= t < lit.len() ==> s[i + t] == lit[t],
    ensures
        has_lit(s, i, lit),
{
    assert(s.subrange(i, i + lit.len() as int) =~= lit);
}

/// The first quote after `i` is at `j` when everything before it in the
/// range is not a quote.
pub proof fn lemma_quote_end_here(s: Seq<u8>, i: int, j: int)
    requires
        0 <= i <= j < s.len(),
        s[j] == 34,
        forall|t: int| i <= t < j ==> s[t] != 34,
    ensures
        quote_end(s, i) == j,
    decreases j - i,
{
    if i < j {
        lemma_quote_end_here(s, i + 1, j);
    }
}

/// The digit run starting at `i` ends at `j` when `s[i..j]` are all
/// digits and `j` is the end of the buffer or a non-digit.
pub proof fn lemma_digits_end_here(s: Seq<u8>, i: int, j: int)
    requires
        0 <= i <= j <= s.len(),
        forall|t: int| i <= t < j ==> is_digit(s[t]),
        j == s.len() || !is_digit(s[j]),
    ensures
        digits_end(s, i) == j,
    decreases j - i,
{
    if i < j {
        lemma_digits_end_here(s, i + 1, j);
    }
}

/// Every byte after `i` up to the digit run's end is a digit, and the end
/// does not precede `i`.
pub proof fn lemma_digits_end_range(s: Seq<u8>, i: int)
    requires
        0 <= i <= s.len(),
    ensures
        i <= digits_end(s, i) <= s.len(),
        forall|t: int| i <= t < digits_end(s, i) ==> is_digit(s[t]),
        digits_end(s, i) == s.len() || !is_digit(s[digits_end(s, i)]),
    decreases s.len() - i,
{
    if i < s.len() && is_digit(s[i]) {
        lemma_digits_end_range(s, i + 1);
    }
}

/// The canonical decimal form is one to ten digit bytes.
pub proof fn lemma_dec_u32_digits(n: u32)
    ensures
        1 <= dec_u32(n).len() <= 10,
        forall|t: int| 0 <= t < dec_u32(n).len() ==> is_digit(#[trigger] dec_u32(n)[t]),
    decreases n,
{
    if n >= 10 {
        lemma_dec_u32_digits((n as int / 10) as u32);
        assert(n as int / 10 <= 429496729) by {
            assert(n <= 4294967295);
        }
        lemma_pow10_nine();
        lemma_dec_u32_len_by_bound((n as int / 10) as u32, 429496730, 9);
    }
}

/// The ninth power of ten, written out.
pub proof fn lemma_pow10_nine()
    ensures
        pow10(9) == 1000000000,
{
    assert(pow10(0) == 1);
    assert(pow10(1) == 10);
    assert(pow10(2) == 100);
    assert(pow10(3) == 1000);
    assert(pow10(4) == 10000);
    assert(pow10(5) == 100000);
    assert(pow10(6) == 1000000);
    assert(pow10(7) == 10000000);
    assert(pow10(8) == 100000000);
    assert(pow10(9) == 1000000000);
}

/// Ten divides down: a bound on the number bounds the length of its
/// decimal form.  `bound` must be at most `10^k`.
pub proof fn lemma_dec_u32_len_by_bound(n: u32, bound: int, k: int)
    requires
        1 <= k,
        n < bound,
        bound <= pow10(k as nat),
    ensures
        dec_u32(n).len() <= k,
    decreases k,
{
    if n >= 10 {
        assert(pow10(k as nat) == 10 * pow10((k - 1) as nat));
        assert(n as int == 10 * (n as int / 10) + n as int % 10) by {
            vstd::arithmetic::div_mod::lemma_fundamental_div_mod(n as int, 10);
        }
        lemma_dec_u32_len_by_bound((n as int / 10) as u32, pow10((k - 1) as nat), k - 1);
    } else {
        assert(pow10(k as nat) >= 10) by {
            lemma_pow10_positive(k as nat);
        }
    }
}

/// Powers of ten.
pub open spec fn pow10(k: nat) -> int
    decreases k,
{
    if k == 0 {
        1
    } else {
        10 * pow10((k - 1) as nat)
    }
}

pub proof fn lemma_pow10_positive(k: nat)
    ensures
        pow10(k) >= 1,
        k >= 1 ==> pow10(k) >= 10,
    decreases k,
{
    if k >= 1 {
        lemma_pow10_positive((k - 1) as nat);
    }
}

/// Reading back the digit run of a canonical decimal form yields the
/// number it was printed from.
pub proof fn lemma_digits_val_of_dec(s: Seq<u8>, i: int, n: u32)
    requires
        0 <= i,
        i + dec_u32(n).len() <= s.len(),
        forall|t: int| 0 <= t < dec_u32(n).len() ==> s[i + t] == #[trigger] dec_u32(n)[t],
    ensures
        digits_val(s, i, i + dec_u32(n).len() as int) == n,
    decreases n,
{
    let l = dec_u32(n).len() as int;
    if n < 10 {
        assert(dec_u32(n)[0] == digit_byte(n as int));
        assert(s[i + 0] == digit_byte(n as int));
        assert(digits_val(s, i, i + 1) == digits_val(s, i, i) * 10 + (s[i] - 48));
    } else {
        let m = (n as int / 10) as u32;
        assert(dec_u32(n) == dec_u32(m).push(digit_byte(n as int % 10)));
        assert forall|t: int| 0 <= t < dec_u32(m).len() implies s[i + t] == #[trigger] dec_u32(
            m,
        )[t] by {
            assert(dec_u32(n)[t] == dec_u32(m)[t]);
            assert(s[i + t] == dec_u32(n)[t]);
        }
        lemma_digits_val_of_dec(s, i, m);
        assert(dec_u32(n)[l - 1] == digit_byte(n as int % 10));
        assert(s[i + l - 1] == digit_byte(n as int % 10));
        assert(digits_val(s, i, i + l) == digits_val(s, i, i + l - 1) * 10 + (s[i + l - 1] - 48));
        assert(n as int == 10 * (n as int / 10) + n as int % 10) by {
            vstd::arithmetic::div_mod::lemma_fundamental_div_mod(n as int, 10);
        }
    }
}

/// A canonical decimal form embedded at `i`, followed by the buffer's end
/// or a non-digit, parses back to its number.
pub proof fn lemma_parse_u32_at(s: Seq<u8>, i: int, n: u32)
    requires
        0 <= i,
        i + dec_u32(n).len() <= s.len(),
        forall|t: int| 0 <= t < dec_u32(n).len() ==> s[i + t] == #[trigger] dec_u32(n)[t],
        i + dec_u32(n).len() == s.len() || !is_digit(s[i + dec_u32(n).len()]),
    ensures
        parse_u32(s, i) == Some((n, i + dec_u32(n).len() as int)),
{
    let l = dec_u32(n).len() as int;
    lemma_dec_u32_digits(n);
    assert forall|t: int| i <= t < i + l implies is_digit(s[t]) by {
        assert(s[t] == dec_u32(n)[t - i]);
        assert(is_digit(dec_u32(n)[t - i]));
    }
    lemma_digits_end_here(s, i, i + l);
    lemma_digits_val_of_dec(s, i, n);
}

/// A JSON boolean embedded at `i` parses back to its value.
pub proof fn lemma_parse_bool_at(s: Seq<u8>, i: int, b: bool)
    requires
        0 <= i,
        i + enc_bool(b).len() <= s.len(),
        forall|t: int| 0 <= t < enc_bool(b).len() ==> s[i + t] == #[trigger] enc_bool(b)[t],
    ensures
        parse_bool(s, i) == Some((b, i + enc_bool(b).len() as int)),
{
    if b {
        lemma_has_lit(s, i, lit_true());
    } else {
        lemma_has_lit(s, i, lit_false());
        if has_lit(s, i, lit_true()) {
            assert(s.subrange(i, i + 4)[0] == s[i]);
            assert(s[i] == 102u8);
            assert(lit_true()[0] == 116u8);
            assert(false);
        }
    }
}

// ---------------------------------------------------------------------
// Executable primitives.
// ---------------------------------------------------------------------

/// Compare the bytes of `buf` at `i` against `pat`.
pub fn bytes_at(buf: &[u8], i: usize, pat: &[u8]) -> (r: bool)
    ensures
        r == has_lit(buf@, i as int, pat@),
        buf@.len() <= usize::MAX,
{
    if i > buf.len() || pat.len() > buf.len() - i {
        return false;
    }
    let mut k: usize = 0;
    while k < pat.len()
        invariant
            0 <= k <= pat.len(),
            i + pat.len() <= buf.len(),
            forall|t: int| 0 <= t < k ==> buf@[i + t] == pat@[t],
        decreases pat.len() - k,
    {
        if buf[i + k] != pat[k] {
            proof {
                let sub = buf@.subrange(i as int, i as int + pat@.len() as int);
                assert(sub[k as int] == buf@[i + k]);
                assert(sub != pat@);
            }
            return false;
        }
        k = k + 1;
    }
    proof {
        lemma_has_lit(buf@, i as int, pat@);
    }
    true
}

/// Compare the byte range `buf[i..j]` against `pat`.
pub fn range_is(buf: &[u8], i: usize, j: usize, pat: &[u8]) -> (r: bool)
    requires
        i <= j <= buf@.len(),
    ensures
        r == (buf@.subrange(i as int, j as int) == pat@),
{
    if j - i != pat.len() {
        proof {
            assert(buf@.subrange(i as int, j as int).len() == j - i);
        }
        return false;
    }
    let r = bytes_at(buf, i, pat);
    proof {
        if r {
            assert(buf@.subrange(i as int, j as int) == pat@);
        } else {
            assert(!has_lit(buf@, i as int, pat@));
            assert(buf@.subrange(i as int, j as int) != pat@);
        }
    }
    r
}

/// Find the first double quote at or after `start`.
pub fn find_quote(buf: &[u8], start: usize) -> (r: usize)
    requires
        start <= buf@.len(),
    ensures
        r as int == quote_end(buf@, start as int),
        start <= r <= buf@.len(),
{
    let mut k: usize = start;
    while k < buf.len()
        invariant
            start <= k <= buf.len(),
            quote_end(buf@, start as int) == quote_end(buf@, k as int),
        decreases buf.len() - k,
    {
        if buf[k] == 34 {
            return k;
        }
        k = k + 1;
    }
    buf.len()
}

/// Find the end of the digit run at or after `start`.
pub fn find_digits_end(buf: &[u8], start: usize) -> (r: usize)
    requires
        start <= buf@.len(),
    ensures
        r as int == digits_end(buf@, start as int),
        start <= r <= buf@.len(),
{
    let mut k: usize = start;
    while k < buf.len()
        invariant
            start <= k <= buf.len(),
            digits_end(buf@, start as int) == digits_end(buf@, k as int),
        decreases buf.len() - k,
    {
        if buf[k] < 48 || buf[k] > 57 {
            return k;
        }
        k = k + 1;
    }
    buf.len()
}

/// Parse an unsigned decimal number, as `parse_u32` describes.
pub fn parse_u32_exec(buf: &[u8], i: usize) -> (r: Option<(u32, usize)>)
    requires
        i <= buf@.len(),
    ensures
        match r {
            Some(p) => parse_u32(buf@, i as int) == Some((p.0, p.1 as int)) && i <= p.1
                <= buf@.len(),
            None => parse_u32(buf@, i as int) is None,
        },
{
    let j = find_digits_end(buf, i);
    if j == i {
        return None;
    }
    proof {
        lemma_digits_end_range(buf@, i as int);
    }
    let mut acc: u64 = 0;
    let mut over: bool = false;
    let mut k: usize = i;
    while k < j
        invariant
            i <= k <= j <= buf@.len(),
            j as int == digits_end(buf@, i as int),
            forall|t: int| i <= t < j ==> is_digit(buf@[t]),
            !over ==> acc == digits_val(buf@, i as int, k as int) && acc <= u32::MAX,
            over ==> digits_val(buf@, i as int, k as int) > u32::MAX,
        decreases j - k,
    {
        let d: u64 = (buf[k] - 48) as u64;
        proof {
            assert(digits_val(buf@, i as int, k + 1) == digits_val(buf@, i as int, k as int) * 10
                + (buf@[k as int] - 48));
        }
        if over {
            proof {
                let v = digits_val(buf@, i as int, k as int);
                assert(v * 10 + (buf@[k as int] - 48) >= v);
            }
        } else {
            acc = acc * 10 + d;
            if acc > 0xFFFF_FFFF {
                over = true;
            }
        }
        k = k + 1;
    }
    if over {
        None
    } else {
        Some((acc as u32, j))
    }
}


// ---------------------------------------------------------------------
// Variant tags and member-name literals.
// ---------------------------------------------------------------------

/// `"Heartbeat"`
pub open spec fn tag_heartbeat() -> Seq<u8> {
    seq![72u8, 101, 97, 114, 116, 98, 101, 97, 116]
}

/// `"ReqNetstats"`
pub open spec fn tag_req_netstats() -> Seq<u8> {
    seq![82u8, 101, 113, 78, 101, 116, 115, 116, 97, 116, 115]
}

/// `"ReqName"`
pub open spec fn tag_req_name() -> Seq<u8> {
    seq![82u8, 101, 113, 78, 97, 109, 101]
}

/// `"NameGeordon"`
pub open spec fn tag_name_geordon() -> Seq<u8> {
    seq![78u8, 97, 109, 101, 71, 101, 111, 114, 100, 111, 110]
}

/// `"NameJosh"`
pub open spec fn tag_name_josh() -> Seq<u8> {
    seq![78u8, 97, 109, 101, 74, 111, 115, 104]
}

/// `"NameJoe"`
pub open spec fn tag_name_joe() -> Seq<u8> {
    seq![78u8, 97, 109, 101, 74, 111, 101]
}

/// `"NameZach"`
pub open spec fn tag_name_zach() -> Seq<u8> {
    seq![78u8, 97, 109, 101, 90, 97, 99, 104]
}

/// `"NameDebugGeordon"`
pub open spec fn tag_name_debug_geordon() -> Seq<u8> {
    seq![78u8, 97, 109, 101, 68, 101, 98, 117, 103, 71, 101, 111, 114, 100, 111, 110]
}

/// `"NameDebugJosh"`
pub open spec fn tag_name_debug_josh() -> Seq<u8> {
    seq![78u8, 97, 109, 101, 68, 101, 98, 117, 103, 74, 111, 115, 104]
}

/// `"NameDebugJoe"`
pub open spec fn tag_name_debug_joe() -> Seq<u8> {
    seq![78u8, 97, 109, 101, 68, 101, 98, 117, 103, 74, 111, 101]
}

/// `"NameDebugZach"`
pub open spec fn tag_name_debug_zach() -> Seq<u8> {
    seq![78u8, 97, 109, 101, 68, 101, 98, 117, 103, 90, 97, 99, 104]
}

/// `"ReqMovement"`
pub open spec fn tag_req_movement() -> Seq<u8> {
    seq![82u8, 101, 113, 77, 111, 118, 101, 109, 101, 110, 116]
}

/// `"ReqInPosition"`
pub open spec fn tag_req_in_position() -> Seq<u8> {
    seq![82u8, 101, 113, 73, 110, 80, 111, 115, 105, 116, 105, 111, 110]
}

/// `"JoeReqPoints"`
pub open spec fn tag_joe_req_points() -> Seq<u8> {
    seq![74u8, 111, 101, 82, 101, 113, 80, 111, 105, 110, 116, 115]
}

/// `"JoshReqPoints"`
pub open spec fn tag_josh_req_points() -> Seq<u8> {
    seq![74u8, 111, 115, 104, 82, 101, 113, 80, 111, 105, 110, 116, 115]
}

/// `"ReqStopped"`
pub open spec fn tag_req_stopped() -> Seq<u8> {
    seq![82u8, 101, 113, 83, 116, 111, 112, 112, 101, 100]
}

/// `"ReqEdgeDetect"`
pub open spec fn tag_req_edge_detect() -> Seq<u8> {
    seq![82u8, 101, 113, 69, 100, 103, 101, 68, 101, 116, 101, 99, 116]
}

/// `"ReqEdgeDropped"`
pub open spec fn tag_req_edge_dropped() -> Seq<u8> {
    seq![82u8, 101, 113, 69, 100, 103, 101, 68, 114, 111, 112, 112, 101, 100]
}

/// `"ReqDistance"`
pub open spec fn tag_req_distance() -> Seq<u8> {
    seq![82u8, 101, 113, 68, 105, 115, 116, 97, 110, 99, 101]
}

/// `"ReqGrabbed"`
pub open spec fn tag_req_grabbed() -> Seq<u8> {
    seq![82u8, 101, 113, 71, 114, 97, 98, 98, 101, 100]
}

/// `"ReqDropped"`
pub open spec fn tag_req_dropped() -> Seq<u8> {
    seq![82u8, 101, 113, 68, 114, 111, 112, 112, 101, 100]
}

/// `"JF"`
pub open spec fn tag_jf() -> Seq<u8> {
    seq![74u8, 70]
}

/// `"JE"`
pub open spec fn tag_je() -> Seq<u8> {
    seq![74u8, 69]
}

/// `"CF"`
pub open spec fn tag_cf() -> Seq<u8> {
    seq![67u8, 70]
}

/// `"CE"`
pub open spec fn tag_ce() -> Seq<u8> {
    seq![67u8, 69]
}

/// `"CT"`
pub open spec fn tag_ct() -> Seq<u8> {
    seq![67u8, 84]
}

/// `"Distance"`
pub open spec fn tag_distance() -> Seq<u8> {
    seq![68u8, 105, 115, 116, 97, 110, 99, 101]
}

/// `"Stopped"`
pub open spec fn tag_stopped() -> Seq<u8> {
    seq![83u8, 116, 111, 112, 112, 101, 100]
}

/// `"EdgeDetect"`
pub open spec fn tag_edge_detect() -> Seq<u8> {
    seq![69u8, 100, 103, 101, 68, 101, 116, 101, 99, 116]
}

/// `"EdgeDropped"`
pub open spec fn tag_edge_dropped() -> Seq<u8> {
    seq![69u8, 100, 103, 101, 68, 114, 111, 112, 112, 101, 100]
}

/// `"Grabbed"`
pub open spec fn tag_grabbed() -> Seq<u8> {
    seq![71u8, 114, 97, 98, 98, 101, 100]
}

/// `"Dropped"`
pub open spec fn tag_dropped() -> Seq<u8> {
    seq![68u8, 114, 111, 112, 112, 101, 100]
}

/// `"InPosition"`
pub open spec fn tag_in_position() -> Seq<u8> {
    seq![73u8, 110, 80, 111, 115, 105, 116, 105, 111, 110]
}

/// `"Movement"`
pub open spec fn tag_movement() -> Seq<u8> {
    seq![77u8, 111, 118, 101, 109, 101, 110, 116]
}

/// `"Netstats"`
pub open spec fn tag_netstats() -> Seq<u8> {
    seq![78u8, 101, 116, 115, 116, 97, 116, 115]
}

/// `"World"`
pub open spec fn tag_world() -> Seq<u8> {
    seq![87u8, 111, 114, 108, 100]
}

/// `"Total"`
pub open spec fn ptag_total() -> Seq<u8> {
    seq![84u8, 111, 116, 97, 108]
}

/// `"ArenaBorder"`
pub open spec fn ptag_arena_border() -> Seq<u8> {
    seq![65u8, 114, 101, 110, 97, 66, 111, 114, 100, 101, 114]
}

/// `"VisibilityBorder"`
pub open spec fn ptag_visibility_border() -> Seq<u8> {
    seq![86u8, 105, 115, 105, 98, 105, 108, 105, 116, 121, 66, 111, 114, 100, 101, 114]
}

/// `"ObjectBorder"`
pub open spec fn ptag_object_border() -> Seq<u8> {
    seq![79u8, 98, 106, 101, 99, 116, 66, 111, 114, 100, 101, 114]
}

/// `"Target"`
pub open spec fn ptag_target() -> Seq<u8> {
    seq![84u8, 97, 114, 103, 101, 116]
}

/// `"RoverA"`
pub open spec fn ptag_rover_a() -> Seq<u8> {
    seq![82u8, 111, 118, 101, 114, 65]
}

/// `"RoverB"`
pub open spec fn ptag_rover_b() -> Seq<u8> {
    seq![82u8, 111, 118, 101, 114, 66]
}

/// `,"v":`
pub open spec fn lit_f_v() -> Seq<u8> {
    seq![44u8, 34, 118, 34, 58]
}

/// `,"x":`
pub open spec fn lit_f_x() -> Seq<u8> {
    seq![44u8, 34, 120, 34, 58]
}

/// `,"y":`
pub open spec fn lit_f_y() -> Seq<u8> {
    seq![44u8, 34, 121, 34, 58]
}

/// `,"n":`
pub open spec fn lit_f_n() -> Seq<u8> {
    seq![44u8, 34, 110, 34, 58]
}

/// `,"sent":`
pub open spec fn lit_f_sent() -> Seq<u8> {
    seq![44u8, 34, 115, 101, 110, 116, 34, 58]
}

/// `,"recv":`
pub open spec fn lit_f_recv() -> Seq<u8> {
    seq![44u8, 34, 114, 101, 99, 118, 34, 58]
}

/// `,"frame":`
pub open spec fn lit_f_frame() -> Seq<u8> {
    seq![44u8, 34, 102, 114, 97, 109, 101, 34, 58]
}

/// `,"open":`
pub open spec fn lit_f_open() -> Seq<u8> {
    seq![44u8, 34, 111, 112, 101, 110, 34, 58]
}

/// `,"piece":{"kind":"`
pub open spec fn lit_f_piece() -> Seq<u8> {
    seq![44u8, 34, 112, 105, 101, 99, 101, 34, 58, 123, 34, 107, 105, 110, 100, 34, 58, 34]
}

/// `,"ax":`
pub open spec fn lit_f_ax() -> Seq<u8> {
    seq![44u8, 34, 97, 120, 34, 58]
}

/// `,"ay":`
pub open spec fn lit_f_ay() -> Seq<u8> {
    seq![44u8, 34, 97, 121, 34, 58]
}

/// `,"av":`
pub open spec fn lit_f_av() -> Seq<u8> {
    seq![44u8, 34, 97, 118, 34, 58]
}

/// `,"ao":`
pub open spec fn lit_f_ao() -> Seq<u8> {
    seq![44u8, 34, 97, 111, 34, 58]
}

/// `,"bx":`
pub open spec fn lit_f_bx() -> Seq<u8> {
    seq![44u8, 34, 98, 120, 34, 58]
}

/// `,"by":`
pub open spec fn lit_f_by() -> Seq<u8> {
    seq![44u8, 34, 98, 121, 34, 58]
}

/// `,"bv":`
pub open spec fn lit_f_bv() -> Seq<u8> {
    seq![44u8, 34, 98, 118, 34, 58]
}

/// `,"bo":`
pub open spec fn lit_f_bo() -> Seq<u8> {
    seq![44u8, 34, 98, 111, 34, 58]
}

// ---------------------------------------------------------------------
// The same byte strings as runtime values.
// ---------------------------------------------------------------------

fn tag_heartbeat_vec() -> (v: Vec<u8>)
    ensures
        v@ == tag_heartbeat(),
{
    let mut v: Vec<u8> = Vec::new();
    v.push(72);
    v.push(101);
    v.push(97);
    v.push(114);
    v.push(116);
    v.push(98);
    v.push(101);
    v.push(97);
    v.push(116);
    assert(v@ =~= tag_heartbeat());
    v
}

fn tag_req_netstats_vec() -> (v: Vec<u8>)
    ensures
        v@ == tag_req_netstats(),
{
    let mut v: Vec<u8> = Vec::new();
    v.push(82);
    v.push(101);
    v.push(113);
    v.push(78);
    v.push(101);
    v.push(116);
    v.push(115);
    v.push(116);
    v.push(97);
    v.push(116);
    v.push(115);
    assert(v@ =~= tag_req_netstats());
    v
}

fn tag_req_name_vec() -> (v: Vec<u8>)
    ensures
        v@ == tag_req_name(),
{
    let mut v: Vec<u8> = Vec::new();
    v.push(82);
    v.push(101);
    v.push(113);
    v.push(78);
    v.push(97);
    v.push(109);
    v.push(101);
    assert(v@ =~= tag_req_name());
    v
}

fn tag_name_geordon_vec() -> (v: Vec<u8>)
    ensures
        v@ == tag_name_geordon(),
{
    let mut v: Vec<u8> = Vec::new();
    v.push(78);
    v.push(97);
    v.push(109);
    v.push(101);
    v.push(71);
    v.push(101);
    v.push(111);
    v.push(114);
    v.push(100);
    v.push(111);
    v.push(110);
    assert(v@ =~= tag_name_geordon());
    v
}

fn tag_name_josh_vec() -> (v: Vec<u8>)
    ensures
        v@ == tag_name_josh(),
{
    let mut v: Vec<u8> = Vec::new();
    v.push(78);
    v.push(97);
    v.push(109);
    v.push(101);
    v.push(74);
    v.push(111);
    v.push(115);
    v.push(104);
    assert(v@ =~= tag_name_josh());
    v
}

fn tag_name_joe_vec() -> (v: Vec<u8>)
    ensures
        v@ == tag_name_joe(),
{
    let mut v: Vec<u8> = Vec::new();
    v.push(78);
    v.push(97);
    v.push(109);
    v.push(101);
    v.push(74);
    v.push(111);
    v.push(101);
    assert(v@ =~= tag_name_joe());
    v
}

fn tag_name_zach_vec() -> (v: Vec<u8>)
    ensures
        v@ == tag_name_zach(),
{
    let mut v: Vec<u8> = Vec::new();
    v.push(78);
    v.push(97);
    v.push(109);
    v.push(101);
    v.push(90);
    v.push(97);
    v.push(99);
    v.push(104);
    assert(v@ =~= tag_name_zach());
    v
}

fn tag_name_debug_geordon_vec() -> (v: Vec<u8>)
    ensures
        v@ == tag_name_debug_geordon(),
{
    let mut v: Vec<u8> = Vec::new();
    v.push(78);
    v.push(97);
    v.push(109);
    v.push(101);
    v.push(68);
    v.push(101);
    v.push(98);
    v.push(117);
    v.push(103);
    v.push(71);
    v.push(101);
    v.push(111);
    v.push(114);
    v.push(100);
    v.push(111);
    v.push(110);
    assert(v@ =~= tag_name_debug_geordon());
    v
}

fn tag_name_debug_josh_vec() -> (v: Vec<u8>)
    ensures
        v@ == tag_name_debug_josh(),
{
    let mut v: Vec<u8> = Vec::new();
    v.push(78);
    v.push(97);
    v.push(109);
    v.push(101);
    v.push(68);
    v.push(101);
    v.push(98);
    v.push(117);
    v.push(103);
    v.push(74);
    v.push(111);
    v.push(115);
    v.push(104);
    assert(v@ =~= tag_name_debug_josh());
    v
}

fn tag_name_debug_joe_vec() -> (v: Vec<u8>)
    ensures
        v@ == tag_name_debug_joe(),
{
    let mut v: Vec<u8> = Vec::new();
    v.push(78);
    v.push(97);
    v.push(109);
    v.push(101);
    v.push(68);
    v.push(101);
    v.push(98);
    v.push(117);
    v.push(103);
    v.push(74);
    v.push(111);
    v.push(101);
    assert(v@ =~= tag_name_debug_joe());
    v
}

fn tag_name_debug_zach_vec() -> (v: Vec<u8>)
    ensures
        v@ == tag_name_debug_zach(),
{
    let mut v: Vec<u8> = Vec::new();
    v.push(78);
    v.push(97);
    v.push(109);
    v.push(101);
    v.push(68);
    v.push(101);
    v.push(98);
    v.push(117);
    v.push(103);
    v.push(90);
    v.push(97);
    v.push(99);
    v.push(104);
    assert(v@ =~= tag_name_debug_zach());
    v
}

fn tag_req_movement_vec() -> (v: Vec<u8>)
    ensures
        v@ == tag_req_movement(),
{
    let mut v: Vec<u8> = Vec::new();
    v.push(82);
    v.push(101);
    v.push(113);
    v.push(77);
    v.push(111);
    v.push(118);
    v.push(101);
    v.push(109);
    v.push(101);
    v.push(110);
    v.push(116);
    assert(v@ =~= tag_req_movement());
    v
}

fn tag_req_in_position_vec() -> (v: Vec<u8>)
    ensures
        v@ == tag_req_in_position(),
{
    let mut v: Vec<u8> = Vec::new();
    v.push(82);
    v.push(101);
    v.push(113);
    v.push(73);
    v.push(110);
    v.push(80);
    v.push(111);
    v.push(115);
    v.push(105);
    v.push(116);
    v.push(105);
    v.push(111);
    v.push(110);
    assert(v@ =~= tag_req_in_position());
    v
}

fn tag_joe_req_points_vec() -> (v: Vec<u8>)
    ensures
        v@ == tag_joe_req_points(),
{
    let mut v: Vec<u8> = Vec::new();
    v.push(74);
    v.push(111);
    v.push(101);
    v.push(82);
    v.push(101);
    v.push(113);
    v.push(80);
    v.push(111);
    v.push(105);
    v.push(110);
    v.push(116);
    v.push(115);
    assert(v@ =~= tag_joe_req_points());
    v
}

fn tag_josh_req_points_vec() -> (v: Vec<u8>)
    ensures
        v@ == tag_josh_req_points(),
{
    let mut v: Vec<u8> = Vec::new();
    v.push(74);
    v.push(111);
    v.push(115);
    v.push(104);
    v.push(82);
    v.push(101);
    v.push(113);
    v.push(80);
    v.push(111);
    v.push(105);
    v.push(110);
    v.push(116);
    v.push(115);
    assert(v@ =~= tag_josh_req_points());
    v
}

fn tag_req_stopped_vec() -> (v: Vec<u8>)
    ensures
        v@ == tag_req_stopped(),
{
    let mut v: Vec<u8> = Vec::new();
    v.push(82);
    v.push(101);
    v.push(113);
    v.push(83);
    v.push(116);
    v.push(111);
    v.push(112);
    v.push(112);
    v.push(101);
    v.push(100);
    assert(v@ =~= tag_req_stopped());
    v
}

fn tag_req_edge_detect_vec() -> (v: Vec<u8>)
    ensures
        v@ == tag_req_edge_detect(),
{
    let mut v: Vec<u8> = Vec::new();
    v.push(82);
    v.push(101);
    v.push(113);
    v.push(69);
    v.push(100);
    v.push(103);
    v.push(101);
    v.push(68);
    v.push(101);
    v.push(116);
    v.push(101);
    v.push(99);
    v.push(116);
    assert(v@ =~= tag_req_edge_detect());
    v
}

fn tag_req_edge_dropped_vec() -> (v: Vec<u8>)
    ensures
        v@ == tag_req_edge_dropped(),
{
    let mut v: Vec<u8> = Vec::new();
    v.push(82);
    v.push(101);
    v.push(113);
    v.push(69);
    v.push(100);
    v.push(103);
    v.push(101);
    v.push(68);
    v.push(114);
    v.push(111);
    v.push(112);
    v.push(112);
    v.push(101);
    v.push(100);
    assert(v@ =~= tag_req_edge_dropped());
    v
}

fn tag_req_distance_vec() -> (v: Vec<u8>)
    ensures
        v@ == tag_req_distance(),
{
    let mut v: Vec<u8> = Vec::new();
    v.push(82);
    v.push(101);
    v.push(113);
    v.push(68);
    v.push(105);
    v.push(115);
    v.push(116);
    v.push(97);
    v.push(110);
    v.push(99);
    v.push(101);
    assert(v@ =~= tag_req_distance());
    v
}

fn tag_req_grabbed_vec() -> (v: Vec<u8>)
    ensures
        v@ == tag_req_grabbed(),
{
    let mut v: Vec<u8> = Vec::new();
    v.push(82);
    v.push(101);
    v.push(113);
    v.push(71);
    v.push(114);
    v.push(97);
    v.push(98);
    v.push(98);
    v.push(101);
    v.push(100);
    assert(v@ =~= tag_req_grabbed());
    v
}

fn tag_req_dropped_vec() -> (v: Vec<u8>)
    ensures
        v@ == tag_req_dropped(),
{
    let mut v: Vec<u8> = Vec::new();
    v.push(82);
    v.push(101);
    v.push(113);
    v.push(68);
    v.push(114);
    v.push(111);
    v.push(112);
    v.push(112);
    v.push(101);
    v.push(100);
    assert(v@ =~= tag_req_dropped());
    v
}

fn tag_jf_vec() -> (v: Vec<u8>)
    ensures
        v@ == tag_jf(),
{
    let mut v: Vec<u8> = Vec::new();
    v.push(74);
    v.push(70);
    assert(v@ =~= tag_jf());
    v
}

fn tag_je_vec() -> (v: Vec<u8>)
    ensures
        v@ == tag_je(),
{
    let mut v: Vec<u8> = Vec::new();
    v.push(74);
    v.push(69);
    assert(v@ =~= tag_je());
    v
}

fn tag_cf_vec() -> (v: Vec<u8>)
    ensures
        v@ == tag_cf(),
{
    let mut v: Vec<u8> = Vec::new();
    v.push(67);
    v.push(70);
    assert(v@ =~= tag_cf());
    v
}

fn tag_ce_vec() -> (v: Vec<u8>)
    ensures
        v@ == tag_ce(),
{
    let mut v: Vec<u8> = Vec::new();
    v.push(67);
    v.push(69);
    assert(v@ =~= tag_ce());
    v
}

fn tag_ct_vec() -> (v: Vec<u8>)
    ensures
        v@ == tag_ct(),
{
    let mut v: Vec<u8> = Vec::new();
    v.push(67);
    v.push(84);
    assert(v@ =~= tag_ct());
    v
}

fn tag_distance_vec() -> (v: Vec<u8>)
    ensures
        v@ == tag_distance(),
{
    let mut v: Vec<u8> = Vec::new();
    v.push(68);
    v.push(105);
    v.push(115);
    v.push(116);
    v.push(97);
    v.push(110);
    v.push(99);
    v.push(101);
    assert(v@ =~= tag_distance());
    v
}

fn tag_stopped_vec() -> (v: Vec<u8>)
    ensures
        v@ == tag_stopped(),
{
    let mut v: Vec<u8> = Vec::new();
    v.push(83);
    v.push(116);
    v.push(111);
    v.push(112);
    v.push(112);
    v.push(101);
    v.push(100);
    assert(v@ =~= tag_stopped());
    v
}

fn tag_edge_detect_vec() -> (v: Vec<u8>)
    ensures
        v@ == tag_edge_detect(),
{
    let mut v: Vec<u8> = Vec::new();
    v.push(69);
    v.push(100);
    v.push(103);
    v.push(101);
    v.push(68);
    v.push(101);
    v.push(116);
    v.push(101);
    v.push(99);
    v.push(116);
    assert(v@ =~= tag_edge_detect());
    v
}

fn tag_edge_dropped_vec() -> (v: Vec<u8>)
    ensures
        v@ == tag_edge_dropped(),
{
    let mut v: Vec<u8> = Vec::new();
    v.push(69);
    v.push(100);
    v.push(103);
    v.push(101);
    v.push(68);
    v.push(114);
    v.push(111);
    v.push(112);
    v.push(112);
    v.push(101);
    v.push(100);
    assert(v@ =~= tag_edge_dropped());
    v
}

fn tag_grabbed_vec() -> (v: Vec<u8>)
    ensures
        v@ == tag_grabbed(),
{
    let mut v: Vec<u8> = Vec::new();
    v.push(71);
    v.push(114);
    v.push(97);
    v.push(98);
    v.push(98);
    v.push(101);
    v.push(100);
    assert(v@ =~= tag_grabbed());
    v
}

fn tag_dropped_vec() -> (v: Vec<u8>)
    ensures
        v@ == tag_dropped(),
{
    let mut v: Vec<u8> = Vec::new();
    v.push(68);
    v.push(114);
    v.push(111);
    v.push(112);
    v.push(112);
    v.push(101);
    v.push(100);
    assert(v@ =~= tag_dropped());
    v
}

fn tag_in_position_vec() -> (v: Vec<u8>)
    ensures
        v@ == tag_in_position(),
{
    let mut v: Vec<u8> = Vec::new();
    v.push(73);
    v.push(110);
    v.push(80);
    v.push(111);
    v.push(115);
    v.push(105);
    v.push(116);
    v.push(105);
    v.push(111);
    v.push(110);
    assert(v@ =~= tag_in_position());
    v
}

fn tag_movement_vec() -> (v: Vec<u8>)
    ensures
        v@ == tag_movement(),
{
    let mut v: Vec<u8> = Vec::new();
    v.push(77);
    v.push(111);
    v.push(118);
    v.push(101);
    v.push(109);
    v.push(101);
    v.push(110);
    v.push(116);
    assert(v@ =~= tag_movement());
    v
}

fn tag_netstats_vec() -> (v: Vec<u8>)
    ensures
        v@ == tag_netstats(),
{
    let mut v: Vec<u8> = Vec::new();
    v.push(78);
    v.push(101);
    v.push(116);
    v.push(115);
    v.push(116);
    v.push(97);
    v.push(116);
    v.push(115);
    assert(v@ =~= tag_netstats());
    v
}

fn tag_world_vec() -> (v: Vec<u8>)
    ensures
        v@ == tag_world(),
{
    let mut v: Vec<u8> = Vec::new();
    v.push(87);
    v.push(111);
    v.push(114);
    v.push(108);
    v.push(100);
    assert(v@ =~= tag_world());
    v
}

fn ptag_total_vec() -> (v: Vec<u8>)
    ensures
        v@ == ptag_total(),
{
    let mut v: Vec<u8> = Vec::new();
    v.push(84);
    v.push(111);
    v.push(116);
    v.push(97);
    v.push(108);
    assert(v@ =~= ptag_total());
    v
}

fn ptag_arena_border_vec() -> (v: Vec<u8>)
    ensures
        v@ == ptag_arena_border(),
{
    let mut v: Vec<u8> = Vec::new();
    v.push(65);
    v.push(114);
    v.push(101);
    v.push(110);
    v.push(97);
    v.push(66);
    v.push(111);
    v.push(114);
    v.push(100);
    v.push(101);
    v.push(114);
    assert(v@ =~= ptag_arena_border());
    v
}

fn ptag_visibility_border_vec() -> (v: Vec<u8>)
    ensures
        v@ == ptag_visibility_border(),
{
    let mut v: Vec<u8> = Vec::new();
    v.push(86);
    v.push(105);
    v.push(115);
    v.push(105);
    v.push(98);
    v.push(105);
    v.push(108);
    v.push(105);
    v.push(116);
    v.push(121);
    v.push(66);
    v.push(111);
    v.push(114);
    v.push(100);
    v.push(101);
    v.push(114);
    assert(v@ =~= ptag_visibility_border());
    v
}

fn ptag_object_border_vec() -> (v: Vec<u8>)
    ensures
        v@ == ptag_object_border(),
{
    let mut v: Vec<u8> = Vec::new();
    v.push(79);
    v.push(98);
    v.push(106);
    v.push(101);
    v.push(99);
    v.push(116);
    v.push(66);
    v.push(111);
    v.push(114);
    v.push(100);
    v.push(101);
    v.push(114);
    assert(v@ =~= ptag_object_border());
    v
}

fn ptag_target_vec() -> (v: Vec<u8>)
    ensures
        v@ == ptag_target(),
{
    let mut v: Vec<u8> = Vec::new();
    v.push(84);
    v.push(97);
    v.push(114);
    v.push(103);
    v.push(101);
    v.push(116);
    assert(v@ =~= ptag_target());
    v
}

fn ptag_rover_a_vec() -> (v: Vec<u8>)
    ensures
        v@ == ptag_rover_a(),
{
    let mut v: Vec<u8> = Vec::new();
    v.push(82);
    v.push(111);
    v.push(118);
    v.push(101);
    v.push(114);
    v.push(65);
    assert(v@ =~= ptag_rover_a());
    v
}

fn ptag_rover_b_vec() -> (v: Vec<u8>)
    ensures
        v@ == ptag_rover_b(),
{
    let mut v: Vec<u8> = Vec::new();
    v.push(82);
    v.push(111);
    v.push(118);
    v.push(101);
    v.push(114);
    v.push(66);
    assert(v@ =~= ptag_rover_b());
    v
}

fn lit_f_v_vec() -> (v: Vec<u8>)
    ensures
        v@ == lit_f_v(),
{
    let mut v: Vec<u8> = Vec::new();
    v.push(44);
    v.push(34);
    v.push(118);
    v.push(34);
    v.push(58);
    assert(v@ =~= lit_f_v());
    v
}

fn lit_f_x_vec() -> (v: Vec<u8>)
    ensures
        v@ == lit_f_x(),
{
    let mut v: Vec<u8> = Vec::new();
    v.push(44);
    v.push(34);
    v.push(120);
    v.push(34);
    v.push(58);
    assert(v@ =~= lit_f_x());
    v
}

fn lit_f_y_vec() -> (v: Vec<u8>)
    ensures
        v@ == lit_f_y(),
{
    let mut v: Vec<u8> = Vec::new();
    v.push(44);
    v.push(34);
    v.push(121);
    v.push(34);
    v.push(58);
    assert(v@ =~= lit_f_y());
    v
}

fn lit_f_n_vec() -> (v: Vec<u8>)
    ensures
        v@ == lit_f_n(),
{
    let mut v: Vec<u8> = Vec::new();
    v.push(44);
    v.push(34);
    v.push(110);
    v.push(34);
    v.push(58);
    assert(v@ =~= lit_f_n());
    v
}

fn lit_f_sent_vec() -> (v: Vec<u8>)
    ensures
        v@ == lit_f_sent(),
{
    let mut v: Vec<u8> = Vec::new();
    v.push(44);
    v.push(34);
    v.push(115);
    v.push(101);
    v.push(110);
    v.push(116);
    v.push(34);
    v.push(58);
    assert(v@ =~= lit_f_sent());
    v
}

fn lit_f_recv_vec() -> (v: Vec<u8>)
    ensures
        v@ == lit_f_recv(),
{
    let mut v: Vec<u8> = Vec::new();
    v.push(44);
    v.push(34);
    v.push(114);
    v.push(101);
    v.push(99);
    v.push(118);
    v.push(34);
    v.push(58);
    assert(v@ =~= lit_f_recv());
    v
}

fn lit_f_frame_vec() -> (v: Vec<u8>)
    ensures
        v@ == lit_f_frame(),
{
    let mut v: Vec<u8> = Vec::new();
    v.push(44);
    v.push(34);
    v.push(102);
    v.push(114);
    v.push(97);
    v.push(109);
    v.push(101);
    v.push(34);
    v.push(58);
    assert(v@ =~= lit_f_frame());
    v
}

fn lit_f_open_vec() -> (v: Vec<u8>)
    ensures
        v@ == lit_f_open(),
{
    let mut v: Vec<u8> = Vec::new();
    v.push(44);
    v.push(34);
    v.push(111);
    v.push(112);
    v.push(101);
    v.push(110);
    v.push(34);
    v.push(58);
    assert(v@ =~= lit_f_open());
    v
}

fn lit_f_piece_vec() -> (v: Vec<u8>)
    ensures
        v@ == lit_f_piece(),
{
    let mut v: Vec<u8> = Vec::new();
    v.push(44);
    v.push(34);
    v.push(112);
    v.push(105);
    v.push(101);
    v.push(99);
    v.push(101);
    v.push(34);
    v.push(58);
    v.push(123);
    v.push(34);
    v.push(107);
    v.push(105);
    v.push(110);
    v.push(100);
    v.push(34);
    v.push(58);
    v.push(34);
    assert(v@ =~= lit_f_piece());
    v
}

fn lit_f_ax_vec() -> (v: Vec<u8>)
    ensures
        v@ == lit_f_ax(),
{
    let mut v: Vec<u8> = Vec::new();
    v.push(44);
    v.push(34);
    v.push(97);
    v.push(120);
    v.push(34);
    v.push(58);
    assert(v@ =~= lit_f_ax());
    v
}

fn lit_f_ay_vec() -> (v: Vec<u8>)
    ensures
        v@ == lit_f_ay(),
{
    let mut v: Vec<u8> = Vec::new();
    v.push(44);
    v.push(34);
    v.push(97);
    v.push(121);
    v.push(34);
    v.push(58);
    assert(v@ =~= lit_f_ay());
    v
}

fn lit_f_av_vec() -> (v: Vec<u8>)
    ensures
        v@ == lit_f_av(),
{
    let mut v: Vec<u8> = Vec::new();
    v.push(44);
    v.push(34);
    v.push(97);
    v.push(118);
    v.push(34);
    v.push(58);
    assert(v@ =~= lit_f_av());
    v
}

fn lit_f_ao_vec() -> (v: Vec<u8>)
    ensures
        v@ == lit_f_ao(),
{
    let mut v: Vec<u8> = Vec::new();
    v.push(44);
    v.push(34);
    v.push(97);
    v.push(111);
    v.push(34);
    v.push(58);
    assert(v@ =~= lit_f_ao());
    v
}

fn lit_f_bx_vec() -> (v: Vec<u8>)
    ensures
        v@ == lit_f_bx(),
{
    let mut v: Vec<u8> = Vec::new();
    v.push(44);
    v.push(34);
    v.push(98);
    v.push(120);
    v.push(34);
    v.push(58);
    assert(v@ =~= lit_f_bx());
    v
}

fn lit_f_by_vec() -> (v: Vec<u8>)
    ensures
        v@ == lit_f_by(),
{
    let mut v: Vec<u8> = Vec::new();
    v.push(44);
    v.push(34);
    v.push(98);
    v.push(121);
    v.push(34);
    v.push(58);
    assert(v@ =~= lit_f_by());
    v
}

fn lit_f_bv_vec() -> (v: Vec<u8>)
    ensures
        v@ == lit_f_bv(),
{
    let mut v: Vec<u8> = Vec::new();
    v.push(44);
    v.push(34);
    v.push(98);
    v.push(118);
    v.push(34);
    v.push(58);
    assert(v@ =~= lit_f_bv());
    v
}

fn lit_f_bo_vec() -> (v: Vec<u8>)
    ensures
        v@ == lit_f_bo(),
{
    let mut v: Vec<u8> = Vec::new();
    v.push(44);
    v.push(34);
    v.push(98);
    v.push(111);
    v.push(34);
    v.push(58);
    assert(v@ =~= lit_f_bo());
    v
}

fn lit_tag_open_vec() -> (v: Vec<u8>)
    ensures
        v@ == lit_tag_open(),
{
    let mut v: Vec<u8> = Vec::new();
    v.push(123);
    v.push(34);
    v.push(116);
    v.push(97);
    v.push(103);
    v.push(34);
    v.push(58);
    v.push(34);
    assert(v@ =~= lit_tag_open());
    v
}

fn lit_true_vec() -> (v: Vec<u8>)
    ensures
        v@ == lit_true(),
{
    let mut v: Vec<u8> = Vec::new();
    v.push(116);
    v.push(114);
    v.push(117);
    v.push(101);
    assert(v@ =~= lit_true());
    v
}

fn lit_false_vec() -> (v: Vec<u8>)
    ensures
        v@ == lit_false(),
{
    let mut v: Vec<u8> = Vec::new();
    v.push(102);
    v.push(97);
    v.push(108);
    v.push(115);
    v.push(101);
    assert(v@ =~= lit_false());
    v
}

// ---------------------------------------------------------------------
// Tags hold no quote byte, so the tag scan stops exactly after them.
// ---------------------------------------------------------------------

proof fn lemma_tag_heartbeat_bytes()
    ensures
        tag_heartbeat().len() == 9,
        forall|t: int| 0 <= t < tag_heartbeat().len() ==> #[trigger] tag_heartbeat()[t] != 34,
{
    assert(tag_heartbeat()[0] == 72);
    assert(tag_heartbeat()[1] == 101);
    assert(tag_heartbeat()[2] == 97);
    assert(tag_heartbeat()[3] == 114);
    assert(tag_heartbeat()[4] == 116);
    assert(tag_heartbeat()[5] == 98);
    assert(tag_heartbeat()[6] == 101);
    assert(tag_heartbeat()[7] == 97);
    assert(tag_heartbeat()[8] == 116);
    assert forall|t: int| 0 <= t < tag_heartbeat().len() implies #[trigger] tag_heartbeat()[t] != 34 by {
    }
}

proof fn lemma_tag_req_netstats_bytes()
    ensures
        tag_req_netstats().len() == 11,
        forall|t: int| 0 <= t < tag_req_netstats().len() ==> #[trigger] tag_req_netstats()[t] != 34,
{
    assert(tag_req_netstats()[0] == 82);
    assert(tag_req_netstats()[1] == 101);
    assert(tag_req_netstats()[2] == 113);
    assert(tag_req_netstats()[3] == 78);
    assert(tag_req_netstats()[4] == 101);
    assert(tag_req_netstats()[5] == 116);
    assert(tag_req_netstats()[6] == 115);
    assert(tag_req_netstats()[7] == 116);
    assert(tag_req_netstats()[8] == 97);
    assert(tag_req_netstats()[9] == 116);
    assert(tag_req_netstats()[10] == 115);
    assert forall|t: int| 0 <= t < tag_req_netstats().len() implies #[trigger] tag_req_netstats()[t] != 34 by {
    }
}

proof fn lemma_tag_req_name_bytes()
    ensures
        tag_req_name().len() == 7,
        forall|t: int| 0 <= t < tag_req_name().len() ==> #[trigger] tag_req_name()[t] != 34,
{
    assert(tag_req_name()[0] == 82);
    assert(tag_req_name()[1] == 101);
    assert(tag_req_name()[2] == 113);
    assert(tag_req_name()[3] == 78);
    assert(tag_req_name()[4] == 97);
    assert(tag_req_name()[5] == 109);
    assert(tag_req_name()[6] == 101);
    assert forall|t: int| 0 <= t < tag_req_name().len() implies #[trigger] tag_req_name()[t] != 34 by {
    }
}

proof fn lemma_tag_name_geordon_bytes()
    ensures
        tag_name_geordon().len() == 11,
        forall|t: int| 0 <= t < tag_name_geordon().len() ==> #[trigger] tag_name_geordon()[t] != 34,
{
    assert(tag_name_geordon()[0] == 78);
    assert(tag_name_geordon()[1] == 97);
    assert(tag_name_geordon()[2] == 109);
    assert(tag_name_geordon()[3] == 101);
    assert(tag_name_geordon()[4] == 71);
    assert(tag_name_geordon()[5] == 101);
    assert(tag_name_geordon()[6] == 111);
    assert(tag_name_geordon()[7] == 114);
    assert(tag_name_geordon()[8] == 100);
    assert(tag_name_geordon()[9] == 111);
    assert(tag_name_geordon()[10] == 110);
    assert forall|t: int| 0 <= t < tag_name_geordon().len() implies #[trigger] tag_name_geordon()[t] != 34 by {
    }
}

proof fn lemma_tag_name_josh_bytes()
    ensures
        tag_name_josh().len() == 8,
        forall|t: int| 0 <= t < tag_name_josh().len() ==> #[trigger] tag_name_josh()[t] != 34,
{
    assert(tag_name_josh()[0] == 78);
    assert(tag_name_josh()[1] == 97);
    assert(tag_name_josh()[2] == 109);
    assert(tag_name_josh()[3] == 101);
    assert(tag_name_josh()[4] == 74);
    assert(tag_name_josh()[5] == 111);
    assert(tag_name_josh()[6] == 115);
    assert(tag_name_josh()[7] == 104);
    assert forall|t: int| 0 <= t < tag_name_josh().len() implies #[trigger] tag_name_josh()[t] != 34 by {
    }
}

proof fn lemma_tag_name_joe_bytes()
    ensures
        tag_name_joe().len() == 7,
        forall|t: int| 0 <= t < tag_name_joe().len() ==> #[trigger] tag_name_joe()[t] != 34,
{
    assert(tag_name_joe()[0] == 78);
    assert(tag_name_joe()[1] == 97);
    assert(tag_name_joe()[2] == 109);
    assert(tag_name_joe()[3] == 101);
    assert(tag_name_joe()[4] == 74);
    assert(tag_name_joe()[5] == 111);
    assert(tag_name_joe()[6] == 101);
    assert forall|t: int| 0 <= t < tag_name_joe().len() implies #[trigger] tag_name_joe()[t] != 34 by {
    }
}

proof fn lemma_tag_name_zach_bytes()
    ensures
        tag_name_zach().len() == 8,
        forall|t: int| 0 <= t < tag_name_zach().len() ==> #[trigger] tag_name_zach()[t] != 34,
{
    assert(tag_name_zach()[0] == 78);
    assert(tag_name_zach()[1] == 97);
    assert(tag_name_zach()[2] == 109);
    assert(tag_name_zach()[3] == 101);
    assert(tag_name_zach()[4] == 90);
    assert(tag_name_zach()[5] == 97);
    assert(tag_name_zach()[6] == 99);
    assert(tag_name_zach()[7] == 104);
    assert forall|t: int| 0 <= t < tag_name_zach().len() implies #[trigger] tag_name_zach()[t] != 34 by {
    }
}

proof fn lemma_tag_name_debug_geordon_bytes()
    ensures
        tag_name_debug_geordon().len() == 16,
        forall|t: int| 0 <= t < tag_name_debug_geordon().len() ==> #[trigger] tag_name_debug_geordon()[t] != 34,
{
    assert(tag_name_debug_geordon()[0] == 78);
    assert(tag_name_debug_geordon()[1] == 97);
    assert(tag_name_debug_geordon()[2] == 109);
    assert(tag_name_debug_geordon()[3] == 101);
    assert(tag_name_debug_geordon()[4] == 68);
    assert(tag_name_debug_geordon()[5] == 101);
    assert(tag_name_debug_geordon()[6] == 98);
    assert(tag_name_debug_geordon()[7] == 117);
    assert(tag_name_debug_geordon()[8] == 103);
    assert(tag_name_debug_geordon()[9] == 71);
    assert(tag_name_debug_geordon()[10] == 101);
    assert(tag_name_debug_geordon()[11] == 111);
    assert(tag_name_debug_geordon()[12] == 114);
    assert(tag_name_debug_geordon()[13] == 100);
    assert(tag_name_debug_geordon()[14] == 111);
    assert(tag_name_debug_geordon()[15] == 110);
    assert forall|t: int| 0 <= t < tag_name_debug_geordon().len() implies #[trigger] tag_name_debug_geordon()[t] != 34 by {
    }
}

proof fn lemma_tag_name_debug_josh_bytes()
    ensures
        tag_name_debug_josh().len() == 13,
        forall|t: int| 0 <= t < tag_name_debug_josh().len() ==> #[trigger] tag_name_debug_josh()[t] != 34,
{
    assert(tag_name_debug_josh()[0] == 78);
    assert(tag_name_debug_josh()[1] == 97);
    assert(tag_name_debug_josh()[2] == 109);
    assert(tag_name_debug_josh()[3] == 101);
    assert(tag_name_debug_josh()[4] == 68);
    assert(tag_name_debug_josh()[5] == 101);
    assert(tag_name_debug_josh()[6] == 98);
    assert(tag_name_debug_josh()[7] == 117);
    assert(tag_name_debug_josh()[8] == 103);
    assert(tag_name_debug_josh()[9] == 74);
    assert(tag_name_debug_josh()[10] == 111);
    assert(tag_name_debug_josh()[11] == 115);
    assert(tag_name_debug_josh()[12] == 104);
    assert forall|t: int| 0 <= t < tag_name_debug_josh().len() implies #[trigger] tag_name_debug_josh()[t] != 34 by {
    }
}

proof fn lemma_tag_name_debug_joe_bytes()
    ensures
        tag_name_debug_joe().len() == 12,
        forall|t: int| 0 <= t < tag_name_debug_joe().len() ==> #[trigger] tag_name_debug_joe()[t] != 34,
{
    assert(tag_name_debug_joe()[0] == 78);
    assert(tag_name_debug_joe()[1] == 97);
    assert(tag_name_debug_joe()[2] == 109);
    assert(tag_name_debug_joe()[3] == 101);
    assert(tag_name_debug_joe()[4] == 68);
    assert(tag_name_debug_joe()[5] == 101);
    assert(tag_name_debug_joe()[6] == 98);
    assert(tag_name_debug_joe()[7] == 117);
    assert(tag_name_debug_joe()[8] == 103);
    assert(tag_name_debug_joe()[9] == 74);
    assert(tag_name_debug_joe()[10] == 111);
    assert(tag_name_debug_joe()[11] == 101);
    assert forall|t: int| 0 <= t < tag_name_debug_joe().len() implies #[trigger] tag_name_debug_joe()[t] != 34 by {
    }
}

proof fn lemma_tag_name_debug_zach_bytes()
    ensures
        tag_name_debug_zach().len() == 13,
        forall|t: int| 0 <= t < tag_name_debug_zach().len() ==> #[trigger] tag_name_debug_zach()[t] != 34,
{
    assert(tag_name_debug_zach()[0] == 78);
    assert(tag_name_debug_zach()[1] == 97);
    assert(tag_name_debug_zach()[2] == 109);
    assert(tag_name_debug_zach()[3] == 101);
    assert(tag_name_debug_zach()[4] == 68);
    assert(tag_name_debug_zach()[5] == 101);
    assert(tag_name_debug_zach()[6] == 98);
    assert(tag_name_debug_zach()[7] == 117);
    assert(tag_name_debug_zach()[8] == 103);
    assert(tag_name_debug_zach()[9] == 90);
    assert(tag_name_debug_zach()[10] == 97);
    assert(tag_name_debug_zach()[11] == 99);
    assert(tag_name_debug_zach()[12] == 104);
    assert forall|t: int| 0 <= t < tag_name_debug_zach().len() implies #[trigger] tag_name_debug_zach()[t] != 34 by {
    }
}

proof fn lemma_tag_req_movement_bytes()
    ensures
        tag_req_movement().len() == 11,
        forall|t: int| 0 <= t < tag_req_movement().len() ==> #[trigger] tag_req_movement()[t] != 34,
{
    assert(tag_req_movement()[0] == 82);
    assert(tag_req_movement()[1] == 101);
    assert(tag_req_movement()[2] == 113);
    assert(tag_req_movement()[3] == 77);
    assert(tag_req_movement()[4] == 111);
    assert(tag_req_movement()[5] == 118);
    assert(tag_req_movement()[6] == 101);
    assert(tag_req_movement()[7] == 109);
    assert(tag_req_movement()[8] == 101);
    assert(tag_req_movement()[9] == 110);
    assert(tag_req_movement()[10] == 116);
    assert forall|t: int| 0 <= t < tag_req_movement().len() implies #[trigger] tag_req_movement()[t] != 34 by {
    }
}

proof fn lemma_tag_req_in_position_bytes()
    ensures
        tag_req_in_position().len() == 13,
        forall|t: int| 0 <= t < tag_req_in_position().len() ==> #[trigger] tag_req_in_position()[t] != 34,
{
    assert(tag_req_in_position()[0] == 82);
    assert(tag_req_in_position()[1] == 101);
    assert(tag_req_in_position()[2] == 113);
    assert(tag_req_in_position()[3] == 73);
    assert(tag_req_in_position()[4] == 110);
    assert(tag_req_in_position()[5] == 80);
    assert(tag_req_in_position()[6] == 111);
    assert(tag_req_in_position()[7] == 115);
    assert(tag_req_in_position()[8] == 105);
    assert(tag_req_in_position()[9] == 116);
    assert(tag_req_in_position()[10] == 105);
    assert(tag_req_in_position()[11] == 111);
    assert(tag_req_in_position()[12] == 110);
    assert forall|t: int| 0 <= t < tag_req_in_position().len() implies #[trigger] tag_req_in_position()[t] != 34 by {
    }
}

proof fn lemma_tag_joe_req_points_bytes()
    ensures
        tag_joe_req_points().len() == 12,
        forall|t: int| 0 <= t < tag_joe_req_points().len() ==> #[trigger] tag_joe_req_points()[t] != 34,
{
    assert(tag_joe_req_points()[0] == 74);
    assert(tag_joe_req_points()[1] == 111);
    assert(tag_joe_req_points()[2] == 101);
    assert(tag_joe_req_points()[3] == 82);
    assert(tag_joe_req_points()[4] == 101);
    assert(tag_joe_req_points()[5] == 113);
    assert(tag_joe_req_points()[6] == 80);
    assert(tag_joe_req_points()[7] == 111);
    assert(tag_joe_req_points()[8] == 105);
    assert(tag_joe_req_points()[9] == 110);
    assert(tag_joe_req_points()[10] == 116);
    assert(tag_joe_req_points()[11] == 115);
    assert forall|t: int| 0 <= t < tag_joe_req_points().len() implies #[trigger] tag_joe_req_points()[t] != 34 by {
    }
}

proof fn lemma_tag_josh_req_points_bytes()
    ensures
        tag_josh_req_points().len() == 13,
        forall|t: int| 0 <= t < tag_josh_req_points().len() ==> #[trigger] tag_josh_req_points()[t] != 34,
{
    assert(tag_josh_req_points()[0] == 74);
    assert(tag_josh_req_points()[1] == 111);
    assert(tag_josh_req_points()[2] == 115);
    assert(tag_josh_req_points()[3] == 104);
    assert(tag_josh_req_points()[4] == 82);
    assert(tag_josh_req_points()[5] == 101);
    assert(tag_josh_req_points()[6] == 113);
    assert(tag_josh_req_points()[7] == 80);
    assert(tag_josh_req_points()[8] == 111);
    assert(tag_josh_req_points()[9] == 105);
    assert(tag_josh_req_points()[10] == 110);
    assert(tag_josh_req_points()[11] == 116);
    assert(tag_josh_req_points()[12] == 115);
    assert forall|t: int| 0 <= t < tag_josh_req_points().len() implies #[trigger] tag_josh_req_points()[t] != 34 by {
    }
}

proof fn lemma_tag_req_stopped_bytes()
    ensures
        tag_req_stopped().len() == 10,
        forall|t: int| 0 <= t < tag_req_stopped().len() ==> #[trigger] tag_req_stopped()[t] != 34,
{
    assert(tag_req_stopped()[0] == 82);
    assert(tag_req_stopped()[1] == 101);
    assert(tag_req_stopped()[2] == 113);
    assert(tag_req_stopped()[3] == 83);
    assert(tag_req_stopped()[4] == 116);
    assert(tag_req_stopped()[5] == 111);
    assert(tag_req_stopped()[6] == 112);
    assert(tag_req_stopped()[7] == 112);
    assert(tag_req_stopped()[8] == 101);
    assert(tag_req_stopped()[9] == 100);
    assert forall|t: int| 0 <= t < tag_req_stopped().len() implies #[trigger] tag_req_stopped()[t] != 34 by {
    }
}

proof fn lemma_tag_req_edge_detect_bytes()
    ensures
        tag_req_edge_detect().len() == 13,
        forall|t: int| 0 <= t < tag_req_edge_detect().len() ==> #[trigger] tag_req_edge_detect()[t] != 34,
{
    assert(tag_req_edge_detect()[0] == 82);
    assert(tag_req_edge_detect()[1] == 101);
    assert(tag_req_edge_detect()[2] == 113);
    assert(tag_req_edge_detect()[3] == 69);
    assert(tag_req_edge_detect()[4] == 100);
    assert(tag_req_edge_detect()[5] == 103);
    assert(tag_req_edge_detect()[6] == 101);
    assert(tag_req_edge_detect()[7] == 68);
    assert(tag_req_edge_detect()[8] == 101);
    assert(tag_req_edge_detect()[9] == 116);
    assert(tag_req_edge_detect()[10] == 101);
    assert(tag_req_edge_detect()[11] == 99);
    assert(tag_req_edge_detect()[12] == 116);
    assert forall|t: int| 0 <= t < tag_req_edge_detect().len() implies #[trigger] tag_req_edge_detect()[t] != 34 by {
    }
}

proof fn lemma_tag_req_edge_dropped_bytes()
    ensures
        tag_req_edge_dropped().len() == 14,
        forall|t: int| 0 <= t < tag_req_edge_dropped().len() ==> #[trigger] tag_req_edge_dropped()[t] != 34,
{
    assert(tag_req_edge_dropped()[0] == 82);
    assert(tag_req_edge_dropped()[1] == 101);
    assert(tag_req_edge_dropped()[2] == 113);
    assert(tag_req_edge_dropped()[3] == 69);
    assert(tag_req_edge_dropped()[4] == 100);
    assert(tag_req_edge_dropped()[5] == 103);
    assert(tag_req_edge_dropped()[6] == 101);
    assert(tag_req_edge_dropped()[7] == 68);
    assert(tag_req_edge_dropped()[8] == 114);
    assert(tag_req_edge_dropped()[9] == 111);
    assert(tag_req_edge_dropped()[10] == 112);
    assert(tag_req_edge_dropped()[11] == 112);
    assert(tag_req_edge_dropped()[12] == 101);
    assert(tag_req_edge_dropped()[13] == 100);
    assert forall|t: int| 0 <= t < tag_req_edge_dropped().len() implies #[trigger] tag_req_edge_dropped()[t] != 34 by {
    }
}

proof fn lemma_tag_req_distance_bytes()
    ensures
        tag_req_distance().len() == 11,
        forall|t: int| 0 <= t < tag_req_distance().len() ==> #[trigger] tag_req_distance()[t] != 34,
{
    assert(tag_req_distance()[0] == 82);
    assert(tag_req_distance()[1] == 101);
    assert(tag_req_distance()[2] == 113);
    assert(tag_req_distance()[3] == 68);
    assert(tag_req_distance()[4] == 105);
    assert(tag_req_distance()[5] == 115);
    assert(tag_req_distance()[6] == 116);
    assert(tag_req_distance()[7] == 97);
    assert(tag_req_distance()[8] == 110);
    assert(tag_req_distance()[9] == 99);
    assert(tag_req_distance()[10] == 101);
    assert forall|t: int| 0 <= t < tag_req_distance().len() implies #[trigger] tag_req_distance()[t] != 34 by {
    }
}

proof fn lemma_tag_req_grabbed_bytes()
    ensures
        tag_req_grabbed().len() == 10,
        forall|t: int| 0 <= t < tag_req_grabbed().len() ==> #[trigger] tag_req_grabbed()[t] != 34,
{
    assert(tag_req_grabbed()[0] == 82);
    assert(tag_req_grabbed()[1] == 101);
    assert(tag_req_grabbed()[2] == 113);
    assert(tag_req_grabbed()[3] == 71);
    assert(tag_req_grabbed()[4] == 114);
    assert(tag_req_grabbed()[5] == 97);
    assert(tag_req_grabbed()[6] == 98);
    assert(tag_req_grabbed()[7] == 98);
    assert(tag_req_grabbed()[8] == 101);
    assert(tag_req_grabbed()[9] == 100);
    assert forall|t: int| 0 <= t < tag_req_grabbed().len() implies #[trigger] tag_req_grabbed()[t] != 34 by {
    }
}

proof fn lemma_tag_req_dropped_bytes()
    ensures
        tag_req_dropped().len() == 10,
        forall|t: int| 0 <= t < tag_req_dropped().len() ==> #[trigger] tag_req_dropped()[t] != 34,
{
    assert(tag_req_dropped()[0] == 82);
    assert(tag_req_dropped()[1] == 101);
    assert(tag_req_dropped()[2] == 113);
    assert(tag_req_dropped()[3] == 68);
    assert(tag_req_dropped()[4] == 114);
    assert(tag_req_dropped()[5] == 111);
    assert(tag_req_dropped()[6] == 112);
    assert(tag_req_dropped()[7] == 112);
    assert(tag_req_dropped()[8] == 101);
    assert(tag_req_dropped()[9] == 100);
    assert forall|t: int| 0 <= t < tag_req_dropped().len() implies #[trigger] tag_req_dropped()[t] != 34 by {
    }
}

proof fn lemma_tag_jf_bytes()
    ensures
        tag_jf().len() == 2,
        forall|t: int| 0 <= t < tag_jf().len() ==> #[trigger] tag_jf()[t] != 34,
{
    assert(tag_jf()[0] == 74);
    assert(tag_jf()[1] == 70);
    assert forall|t: int| 0 <= t < tag_jf().len() implies #[trigger] tag_jf()[t] != 34 by {
    }
}

proof fn lemma_tag_je_bytes()
    ensures
        tag_je().len() == 2,
        forall|t: int| 0 <= t < tag_je().len() ==> #[trigger] tag_je()[t] != 34,
{
    assert(tag_je()[0] == 74);
    assert(tag_je()[1] == 69);
    assert forall|t: int| 0 <= t < tag_je().len() implies #[trigger] tag_je()[t] != 34 by {
    }
}

proof fn lemma_tag_cf_bytes()
    ensures
        tag_cf().len() == 2,
        forall|t: int| 0 <= t < tag_cf().len() ==> #[trigger] tag_cf()[t] != 34,
{
    assert(tag_cf()[0] == 67);
    assert(tag_cf()[1] == 70);
    assert forall|t: int| 0 <= t < tag_cf().len() implies #[trigger] tag_cf()[t] != 34 by {
    }
}

proof fn lemma_tag_ce_bytes()
    ensures
        tag_ce().len() == 2,
        forall|t: int| 0 <= t < tag_ce().len() ==> #[trigger] tag_ce()[t] != 34,
{
    assert(tag_ce()[0] == 67);
    assert(tag_ce()[1] == 69);
    assert forall|t: int| 0 <= t < tag_ce().len() implies #[trigger] tag_ce()[t] != 34 by {
    }
}

proof fn lemma_tag_ct_bytes()
    ensures
        tag_ct().len() == 2,
        forall|t: int| 0 <= t < tag_ct().len() ==> #[trigger] tag_ct()[t] != 34,
{
    assert(tag_ct()[0] == 67);
    assert(tag_ct()[1] == 84);
    assert forall|t: int| 0 <= t < tag_ct().len() implies #[trigger] tag_ct()[t] != 34 by {
    }
}

proof fn lemma_tag_distance_bytes()
    ensures
        tag_distance().len() == 8,
        forall|t: int| 0 <= t < tag_distance().len() ==> #[trigger] tag_distance()[t] != 34,
{
    assert(tag_distance()[0] == 68);
    assert(tag_distance()[1] == 105);
    assert(tag_distance()[2] == 115);
    assert(tag_distance()[3] == 116);
    assert(tag_distance()[4] == 97);
    assert(tag_distance()[5] == 110);
    assert(tag_distance()[6] == 99);
    assert(tag_distance()[7] == 101);
    assert forall|t: int| 0 <= t < tag_distance().len() implies #[trigger] tag_distance()[t] != 34 by {
    }
}

proof fn lemma_tag_stopped_bytes()
    ensures
        tag_stopped().len() == 7,
        forall|t: int| 0 <= t < tag_stopped().len() ==> #[trigger] tag_stopped()[t] != 34,
{
    assert(tag_stopped()[0] == 83);
    assert(tag_stopped()[1] == 116);
    assert(tag_stopped()[2] == 111);
    assert(tag_stopped()[3] == 112);
    assert(tag_stopped()[4] == 112);
    assert(tag_stopped()[5] == 101);
    assert(tag_stopped()[6] == 100);
    assert forall|t: int| 0 <= t < tag_stopped().len() implies #[trigger] tag_stopped()[t] != 34 by {
    }
}

proof fn lemma_tag_edge_detect_bytes()
    ensures
        tag_edge_detect().len() == 10,
        forall|t: int| 0 <= t < tag_edge_detect().len() ==> #[trigger] tag_edge_detect()[t] != 34,
{
    assert(tag_edge_detect()[0] == 69);
    assert(tag_edge_detect()[1] == 100);
    assert(tag_edge_detect()[2] == 103);
    assert(tag_edge_detect()[3] == 101);
    assert(tag_edge_detect()[4] == 68);
    assert(tag_edge_detect()[5] == 101);
    assert(tag_edge_detect()[6] == 116);
    assert(tag_edge_detect()[7] == 101);
    assert(tag_edge_detect()[8] == 99);
    assert(tag_edge_detect()[9] == 116);
    assert forall|t: int| 0 <= t < tag_edge_detect().len() implies #[trigger] tag_edge_detect()[t] != 34 by {
    }
}

proof fn lemma_tag_edge_dropped_bytes()
    ensures
        tag_edge_dropped().len() == 11,
        forall|t: int| 0 <= t < tag_edge_dropped().len() ==> #[trigger] tag_edge_dropped()[t] != 34,
{
    assert(tag_edge_dropped()[0] == 69);
    assert(tag_edge_dropped()[1] == 100);
    assert(tag_edge_dropped()[2] == 103);
    assert(tag_edge_dropped()[3] == 101);
    assert(tag_edge_dropped()[4] == 68);
    assert(tag_edge_dropped()[5] == 114);
    assert(tag_edge_dropped()[6] == 111);
    assert(tag_edge_dropped()[7] == 112);
    assert(tag_edge_dropped()[8] == 112);
    assert(tag_edge_dropped()[9] == 101);
    assert(tag_edge_dropped()[10] == 100);
    assert forall|t: int| 0 <= t < tag_edge_dropped().len() implies #[trigger] tag_edge_dropped()[t] != 34 by {
    }
}

proof fn lemma_tag_grabbed_bytes()
    ensures
        tag_grabbed().len() == 7,
        forall|t: int| 0 <= t < tag_grabbed().len() ==> #[trigger] tag_grabbed()[t] != 34,
{
    assert(tag_grabbed()[0] == 71);
    assert(tag_grabbed()[1] == 114);
    assert(tag_grabbed()[2] == 97);
    assert(tag_grabbed()[3] == 98);
    assert(tag_grabbed()[4] == 98);
    assert(tag_grabbed()[5] == 101);
    assert(tag_grabbed()[6] == 100);
    assert forall|t: int| 0 <= t < tag_grabbed().len() implies #[trigger] tag_grabbed()[t] != 34 by {
    }
}

proof fn lemma_tag_dropped_bytes()
    ensures
        tag_dropped().len() == 7,
        forall|t: int| 0 <= t < tag_dropped().len() ==> #[trigger] tag_dropped()[t] != 34,
{
    assert(tag_dropped()[0] == 68);
    assert(tag_dropped()[1] == 114);
    assert(tag_dropped()[2] == 111);
    assert(tag_dropped()[3] == 112);
    assert(tag_dropped()[4] == 112);
    assert(tag_dropped()[5] == 101);
    assert(tag_dropped()[6] == 100);
    assert forall|t: int| 0 <= t < tag_dropped().len() implies #[trigger] tag_dropped()[t] != 34 by {
    }
}

proof fn lemma_tag_in_position_bytes()
    ensures
        tag_in_position().len() == 10,
        forall|t: int| 0 <= t < tag_in_position().len() ==> #[trigger] tag_in_position()[t] != 34,
{
    assert(tag_in_position()[0] == 73);
    assert(tag_in_position()[1] == 110);
    assert(tag_in_position()[2] == 80);
    assert(tag_in_position()[3] == 111);
    assert(tag_in_position()[4] == 115);
    assert(tag_in_position()[5] == 105);
    assert(tag_in_position()[6] == 116);
    assert(tag_in_position()[7] == 105);
    assert(tag_in_position()[8] == 111);
    assert(tag_in_position()[9] == 110);
    assert forall|t: int| 0 <= t < tag_in_position().len() implies #[trigger] tag_in_position()[t] != 34 by {
    }
}

proof fn lemma_tag_movement_bytes()
    ensures
        tag_movement().len() == 8,
        forall|t: int| 0 <= t < tag_movement().len() ==> #[trigger] tag_movement()[t] != 34,
{
    assert(tag_movement()[0] == 77);
    assert(tag_movement()[1] == 111);
    assert(tag_movement()[2] == 118);
    assert(tag_movement()[3] == 101);
    assert(tag_movement()[4] == 109);
    assert(tag_movement()[5] == 101);
    assert(tag_movement()[6] == 110);
    assert(tag_movement()[7] == 116);
    assert forall|t: int| 0 <= t < tag_movement().len() implies #[trigger] tag_movement()[t] != 34 by {
    }
}

proof fn lemma_tag_netstats_bytes()
    ensures
        tag_netstats().len() == 8,
        forall|t: int| 0 <= t < tag_netstats().len() ==> #[trigger] tag_netstats()[t] != 34,
{
    assert(tag_netstats()[0] == 78);
    assert(tag_netstats()[1] == 101);
    assert(tag_netstats()[2] == 116);
    assert(tag_netstats()[3] == 115);
    assert(tag_netstats()[4] == 116);
    assert(tag_netstats()[5] == 97);
    assert(tag_netstats()[6] == 116);
    assert(tag_netstats()[7] == 115);
    assert forall|t: int| 0 <= t < tag_netstats().len() implies #[trigger] tag_netstats()[t] != 34 by {
    }
}

proof fn lemma_tag_world_bytes()
    ensures
        tag_world().len() == 5,
        forall|t: int| 0 <= t < tag_world().len() ==> #[trigger] tag_world()[t] != 34,
{
    assert(tag_world()[0] == 87);
    assert(tag_world()[1] == 111);
    assert(tag_world()[2] == 114);
    assert(tag_world()[3] == 108);
    assert(tag_world()[4] == 100);
    assert forall|t: int| 0 <= t < tag_world().len() implies #[trigger] tag_world()[t] != 34 by {
    }
}

proof fn lemma_ptag_total_bytes()
    ensures
        ptag_total().len() == 5,
        forall|t: int| 0 <= t < ptag_total().len() ==> #[trigger] ptag_total()[t] != 34,
{
    assert(ptag_total()[0] == 84);
    assert(ptag_total()[1] == 111);
    assert(ptag_total()[2] == 116);
    assert(ptag_total()[3] == 97);
    assert(ptag_total()[4] == 108);
    assert forall|t: int| 0 <= t < ptag_total().len() implies #[trigger] ptag_total()[t] != 34 by {
    }
}

proof fn lemma_ptag_arena_border_bytes()
    ensures
        ptag_arena_border().len() == 11,
        forall|t: int| 0 <= t < ptag_arena_border().len() ==> #[trigger] ptag_arena_border()[t] != 34,
{
    assert(ptag_arena_border()[0] == 65);
    assert(ptag_arena_border()[1] == 114);
    assert(ptag_arena_border()[2] == 101);
    assert(ptag_arena_border()[3] == 110);
    assert(ptag_arena_border()[4] == 97);
    assert(ptag_arena_border()[5] == 66);
    assert(ptag_arena_border()[6] == 111);
    assert(ptag_arena_border()[7] == 114);
    assert(ptag_arena_border()[8] == 100);
    assert(ptag_arena_border()[9] == 101);
    assert(ptag_arena_border()[10] == 114);
    assert forall|t: int| 0 <= t < ptag_arena_border().len() implies #[trigger] ptag_arena_border()[t] != 34 by {
    }
}

proof fn lemma_ptag_visibility_border_bytes()
    ensures
        ptag_visibility_border().len() == 16,
        forall|t: int| 0 <= t < ptag_visibility_border().len() ==> #[trigger] ptag_visibility_border()[t] != 34,
{
    assert(ptag_visibility_border()[0] == 86);
    assert(ptag_visibility_border()[1] == 105);
    assert(ptag_visibility_border()[2] == 115);
    assert(ptag_visibility_border()[3] == 105);
    assert(ptag_visibility_border()[4] == 98);
    assert(ptag_visibility_border()[5] == 105);
    assert(ptag_visibility_border()[6] == 108);
    assert(ptag_visibility_border()[7] == 105);
    assert(ptag_visibility_border()[8] == 116);
    assert(ptag_visibility_border()[9] == 121);
    assert(ptag_visibility_border()[10] == 66);
    assert(ptag_visibility_border()[11] == 111);
    assert(ptag_visibility_border()[12] == 114);
    assert(ptag_visibility_border()[13] == 100);
    assert(ptag_visibility_border()[14] == 101);
    assert(ptag_visibility_border()[15] == 114);
    assert forall|t: int| 0 <= t < ptag_visibility_border().len() implies #[trigger] ptag_visibility_border()[t] != 34 by {
    }
}

proof fn lemma_ptag_object_border_bytes()
    ensures
        ptag_object_border().len() == 12,
        forall|t: int| 0 <= t < ptag_object_border().len() ==> #[trigger] ptag_object_border()[t] != 34,
{
    assert(ptag_object_border()[0] == 79);
    assert(ptag_object_border()[1] == 98);
    assert(ptag_object_border()[2] == 106);
    assert(ptag_object_border()[3] == 101);
    assert(ptag_object_border()[4] == 99);
    assert(ptag_object_border()[5] == 116);
    assert(ptag_object_border()[6] == 66);
    assert(ptag_object_border()[7] == 111);
    assert(ptag_object_border()[8] == 114);
    assert(ptag_object_border()[9] == 100);
    assert(ptag_object_border()[10] == 101);
    assert(ptag_object_border()[11] == 114);
    assert forall|t: int| 0 <= t < ptag_object_border().len() implies #[trigger] ptag_object_border()[t] != 34 by {
    }
}

proof fn lemma_ptag_target_bytes()
    ensures
        ptag_target().len() == 6,
        forall|t: int| 0 <= t < ptag_target().len() ==> #[trigger] ptag_target()[t] != 34,
{
    assert(ptag_target()[0] == 84);
    assert(ptag_target()[1] == 97);
    assert(ptag_target()[2] == 114);
    assert(ptag_target()[3] == 103);
    assert(ptag_target()[4] == 101);
    assert(ptag_target()[5] == 116);
    assert forall|t: int| 0 <= t < ptag_target().len() implies #[trigger] ptag_target()[t] != 34 by {
    }
}

proof fn lemma_ptag_rover_a_bytes()
    ensures
        ptag_rover_a().len() == 6,
        forall|t: int| 0 <= t < ptag_rover_a().len() ==> #[trigger] ptag_rover_a()[t] != 34,
{
    assert(ptag_rover_a()[0] == 82);
    assert(ptag_rover_a()[1] == 111);
    assert(ptag_rover_a()[2] == 118);
    assert(ptag_rover_a()[3] == 101);
    assert(ptag_rover_a()[4] == 114);
    assert(ptag_rover_a()[5] == 65);
    assert forall|t: int| 0 <= t < ptag_rover_a().len() implies #[trigger] ptag_rover_a()[t] != 34 by {
    }
}

proof fn lemma_ptag_rover_b_bytes()
    ensures
        ptag_rover_b().len() == 6,
        forall|t: int| 0 <= t < ptag_rover_b().len() ==> #[trigger] ptag_rover_b()[t] != 34,
{
    assert(ptag_rover_b()[0] == 82);
    assert(ptag_rover_b()[1] == 111);
    assert(ptag_rover_b()[2] == 118);
    assert(ptag_rover_b()[3] == 101);
    assert(ptag_rover_b()[4] == 114);
    assert(ptag_rover_b()[5] == 66);
    assert forall|t: int| 0 <= t < ptag_rover_b().len() implies #[trigger] ptag_rover_b()[t] != 34 by {
    }
}



// ---------------------------------------------------------------------
// The canonical encoding of each message.
// ---------------------------------------------------------------------

/// The three coordinate members of a point.
pub open spec fn enc_xyv(p: Point) -> Seq<u8> {
    lit_f_x() + dec_u32(p.x) + lit_f_y() + dec_u32(p.y) + lit_f_v() + dec_u32(p.v)
}

/// A border's first endpoint, under `a`-prefixed member names.
pub open spec fn enc_ep_a(e: EndPoint) -> Seq<u8> {
    lit_f_ax() + dec_u32(e.point.x) + lit_f_ay() + dec_u32(e.point.y) + lit_f_av() + dec_u32(
        e.point.v,
    ) + lit_f_ao() + enc_bool(e.open)
}

/// A border's second endpoint, under `b`-prefixed member names.
pub open spec fn enc_ep_b(e: EndPoint) -> Seq<u8> {
    lit_f_bx() + dec_u32(e.point.x) + lit_f_by() + dec_u32(e.point.y) + lit_f_bv() + dec_u32(
        e.point.v,
    ) + lit_f_bo() + enc_bool(e.open)
}

/// A world piece as a JSON object, from its kind name through its
/// closing brace.
pub open spec fn enc_piece(p: WorldPiece) -> Seq<u8> {
    match p {
        WorldPiece::Total(n) => ptag_total() + lit_q() + lit_f_n() + dec_u32(n) + lit_rb(),
        WorldPiece::ArenaBorder { p0, p1 } => ptag_arena_border() + lit_q() + enc_ep_a(p0)
            + enc_ep_b(p1) + lit_rb(),
        WorldPiece::VisibilityBorder { p0, p1 } => ptag_visibility_border() + lit_q() + enc_ep_a(p0)
            + enc_ep_b(p1) + lit_rb(),
        WorldPiece::ObjectBorder { p0, p1 } => ptag_object_border() + lit_q() + enc_ep_a(p0)
            + enc_ep_b(p1) + lit_rb(),
        WorldPiece::Target(pt) => ptag_target() + lit_q() + enc_xyv(pt) + lit_rb(),
        WorldPiece::RoverA(e) => ptag_rover_a() + lit_q() + enc_xyv(e.point) + lit_f_open()
            + enc_bool(e.open) + lit_rb(),
        WorldPiece::RoverB(e) => ptag_rover_b() + lit_q() + enc_xyv(e.point) + lit_f_open()
            + enc_bool(e.open) + lit_rb(),
    }
}

/// Everything between the fixed object opening and the closing brace:
/// the tag, its closing quote, and the payload members.
pub open spec fn spec_encode_body(m: Netmessage) -> Seq<u8> {
    match m {
        Netmessage::Heartbeat => tag_heartbeat() + lit_q(),
        Netmessage::ReqNetstats => tag_req_netstats() + lit_q(),
        Netmessage::ReqName => tag_req_name() + lit_q(),
        Netmessage::NameGeordon => tag_name_geordon() + lit_q(),
        Netmessage::NameJosh => tag_name_josh() + lit_q(),
        Netmessage::NameJoe => tag_name_joe() + lit_q(),
        Netmessage::NameZach => tag_name_zach() + lit_q(),
        Netmessage::NameDebugGeordon => tag_name_debug_geordon() + lit_q(),
        Netmessage::NameDebugJosh => tag_name_debug_josh() + lit_q(),
        Netmessage::NameDebugJoe => tag_name_debug_joe() + lit_q(),
        Netmessage::NameDebugZach => tag_name_debug_zach() + lit_q(),
        Netmessage::ReqMovement => tag_req_movement() + lit_q(),
        Netmessage::ReqInPosition => tag_req_in_position() + lit_q(),
        Netmessage::JoeReqPoints => tag_joe_req_points() + lit_q(),
        Netmessage::JoshReqPoints => tag_josh_req_points() + lit_q(),
        Netmessage::ReqStopped => tag_req_stopped() + lit_q(),
        Netmessage::ReqEdgeDetect => tag_req_edge_detect() + lit_q(),
        Netmessage::ReqEdgeDropped => tag_req_edge_dropped() + lit_q(),
        Netmessage::ReqDistance => tag_req_distance() + lit_q(),
        Netmessage::ReqGrabbed => tag_req_grabbed() + lit_q(),
        Netmessage::ReqDropped => tag_req_dropped() + lit_q(),
        Netmessage::JF(v) => tag_jf() + lit_q() + lit_f_v() + dec_u32(v),
        Netmessage::JE(v) => tag_je() + lit_q() + lit_f_v() + dec_u32(v),
        Netmessage::CF(v) => tag_cf() + lit_q() + lit_f_v() + dec_u32(v),
        Netmessage::CE(v) => tag_ce() + lit_q() + lit_f_v() + dec_u32(v),
        Netmessage::CT(v) => tag_ct() + lit_q() + lit_f_v() + dec_u32(v),
        Netmessage::Distance(v) => tag_distance() + lit_q() + lit_f_v() + dec_u32(v),
        Netmessage::Stopped(b) => tag_stopped() + lit_q() + lit_f_v() + enc_bool(b),
        Netmessage::EdgeDetect(b) => tag_edge_detect() + lit_q() + lit_f_v() + enc_bool(b),
        Netmessage::EdgeDropped(b) => tag_edge_dropped() + lit_q() + lit_f_v() + enc_bool(b),
        Netmessage::Grabbed(b) => tag_grabbed() + lit_q() + lit_f_v() + enc_bool(b),
        Netmessage::Dropped(b) => tag_dropped() + lit_q() + lit_f_v() + enc_bool(b),
        Netmessage::InPosition(b) => tag_in_position() + lit_q() + lit_f_v() + enc_bool(b),
        Netmessage::Movement { x, y } => tag_movement() + lit_q() + lit_f_x() + dec_u32(x)
            + lit_f_y() + dec_u32(y),
        Netmessage::Netstats { sent, recv } => tag_netstats() + lit_q() + lit_f_sent()
            + dec_u32(sent) + lit_f_recv() + dec_u32(recv),
        Netmessage::World { frame, piece } => tag_world() + lit_q() + lit_f_frame()
            + dec_u32(frame) + lit_f_piece() + enc_piece(piece),
    }
}

/// The canonical JSON form of a message.
pub open spec fn spec_encode_netmessage(m: Netmessage) -> Seq<u8> {
    lit_tag_open() + spec_encode_body(m) + lit_rb()
}

// ---------------------------------------------------------------------
// The executable encoder.
// ---------------------------------------------------------------------

/// Append a byte vector to the output.
fn push_seq(out: &mut Vec<u8>, v: &Vec<u8>)
    ensures
        final(out)@ == old(out)@ + v@,
{
    out.extend_from_slice(v.as_slice());
}

/// Append the canonical decimal form of a number.
fn push_u32_dec(out: &mut Vec<u8>, n: u32)
    ensures
        final(out)@ == old(out)@ + dec_u32(n),
    decreases n,
{
    if n < 10 {
        out.push(48 + n as u8);
        assert(out@ =~= old(out)@ + dec_u32(n));
    } else {
        push_u32_dec(out, n / 10);
        out.push(48 + (n % 10) as u8);
        assert((n / 10) as int == n as int / 10);
        assert(out@ =~= old(out)@ + dec_u32(n));
    }
}

/// Append the JSON form of a boolean.
fn push_bool_bytes(out: &mut Vec<u8>, b: bool)
    ensures
        final(out)@ == old(out)@ + enc_bool(b),
{
    if b {
        let l = lit_true_vec();
        push_seq(out, &l);
    } else {
        let l = lit_false_vec();
        push_seq(out, &l);
    }
}

/// Append the three coordinate members of a point.
fn push_xyv(out: &mut Vec<u8>, p: &Point)
    ensures
        final(out)@ == old(out)@ + enc_xyv(*p),
{
    let lx = lit_f_x_vec();
    push_seq(out, &lx);
    push_u32_dec(out, p.x);
    let ly = lit_f_y_vec();
    push_seq(out, &ly);
    push_u32_dec(out, p.y);
    let lv = lit_f_v_vec();
    push_seq(out, &lv);
    push_u32_dec(out, p.v);
    assert(out@ =~= old(out)@ + enc_xyv(*p));
}

/// Append a border endpoint under `a`-prefixed member names.
fn push_ep_a(out: &mut Vec<u8>, e: &EndPoint)
    ensures
        final(out)@ == old(out)@ + enc_ep_a(*e),
{
    let lx = lit_f_ax_vec();
    push_seq(out, &lx);
    push_u32_dec(out, e.point.x);
    let ly = lit_f_ay_vec();
    push_seq(out, &ly);
    push_u32_dec(out, e.point.y);
    let lv = lit_f_av_vec();
    push_seq(out, &lv);
    push_u32_dec(out, e.point.v);
    let lo = lit_f_ao_vec();
    push_seq(out, &lo);
    push_bool_bytes(out, e.open);
    assert(out@ =~= old(out)@ + enc_ep_a(*e));
}

/// Append a border endpoint under `b`-prefixed member names.
fn push_ep_b(out: &mut Vec<u8>, e: &EndPoint)
    ensures
        final(out)@ == old(out)@ + enc_ep_b(*e),
{
    let lx = lit_f_bx_vec();
    push_seq(out, &lx);
    push_u32_dec(out, e.point.x);
    let ly = lit_f_by_vec();
    push_seq(out, &ly);
    push_u32_dec(out, e.point.y);
    let lv = lit_f_bv_vec();
    push_seq(out, &lv);
    push_u32_dec(out, e.point.v);
    let lo = lit_f_bo_vec();
    push_seq(out, &lo);
    push_bool_bytes(out, e.open);
    assert(out@ =~= old(out)@ + enc_ep_b(*e));
}

/// Append a world piece as a JSON object.
#[verifier::rlimit(100)]
#[verifier::spinoff_prover]
fn push_piece(out: &mut Vec<u8>, p: &WorldPiece)
    ensures
        final(out)@ == old(out)@ + enc_piece(*p),
{
    match p {
        WorldPiece::Total(n) => {
            let t = ptag_total_vec();
            push_seq(out, &t);
            out.push(34);
            let ln = lit_f_n_vec();
            push_seq(out, &ln);
            push_u32_dec(out, *n);
            out.push(125);
            assert(out@ =~= old(out)@ + enc_piece(*p));
        }
        WorldPiece::ArenaBorder { p0, p1 } => {
            let t = ptag_arena_border_vec();
            push_seq(out, &t);
            out.push(34);
            push_ep_a(out, p0);
            push_ep_b(out, p1);
            out.push(125);
            assert(out@ =~= old(out)@ + enc_piece(*p));
        }
        WorldPiece::VisibilityBorder { p0, p1 } => {
            let t = ptag_visibility_border_vec();
            push_seq(out, &t);
            out.push(34);
            push_ep_a(out, p0);
            push_ep_b(out, p1);
            out.push(125);
            assert(out@ =~= old(out)@ + enc_piece(*p));
        }
        WorldPiece::ObjectBorder { p0, p1 } => {
            let t = ptag_object_border_vec();
            push_seq(out, &t);
            out.push(34);
            push_ep_a(out, p0);
            push_ep_b(out, p1);
            out.push(125);
            assert(out@ =~= old(out)@ + enc_piece(*p));
        }
        WorldPiece::Target(pt) => {
            let t = ptag_target_vec();
            push_seq(out, &t);
            out.push(34);
            push_xyv(out, pt);
            out.push(125);
            assert(out@ =~= old(out)@ + enc_piece(*p));
        }
        WorldPiece::RoverA(e) => {
            let t = ptag_rover_a_vec();
            push_seq(out, &t);
            out.push(34);
            push_xyv(out, &e.point);
            let lo = lit_f_open_vec();
            push_seq(out, &lo);
            push_bool_bytes(out, e.open);
            out.push(125);
            assert(out@ =~= old(out)@ + enc_piece(*p));
        }
        WorldPiece::RoverB(e) => {
            let t = ptag_rover_b_vec();
            push_seq(out, &t);
            out.push(34);
            push_xyv(out, &e.point);
            let lo = lit_f_open_vec();
            push_seq(out, &lo);
            push_bool_bytes(out, e.open);
            out.push(125);
            assert(out@ =~= old(out)@ + enc_piece(*p));
        }
    }
}

/// Encode a message into its canonical JSON form.
#[verifier::rlimit(100)]
#[verifier::spinoff_prover]
pub fn encode_netmessage(m: &Netmessage) -> (out: Vec<u8>)
    ensures
        out@ == spec_encode_netmessage(*m),
{
    let mut out: Vec<u8> = Vec::new();
    let open_lit = lit_tag_open_vec();
    push_seq(&mut out, &open_lit);
    match m {
        Netmessage::Heartbeat => {
            let tg = tag_heartbeat_vec();
            push_seq(&mut out, &tg);
            out.push(34);
        }
        Netmessage::ReqNetstats => {
            let tg = tag_req_netstats_vec();
            push_seq(&mut out, &tg);
            out.push(34);
        }
        Netmessage::ReqName => {
            let tg = tag_req_name_vec();
            push_seq(&mut out, &tg);
            out.push(34);
        }
        Netmessage::NameGeordon => {
            let tg = tag_name_geordon_vec();
            push_seq(&mut out, &tg);
            out.push(34);
        }
        Netmessage::NameJosh => {
            let tg = tag_name_josh_vec();
            push_seq(&mut out, &tg);
            out.push(34);
        }
        Netmessage::NameJoe => {
            let tg = tag_name_joe_vec();
            push_seq(&mut out, &tg);
            out.push(34);
        }
        Netmessage::NameZach => {
            let tg = tag_name_zach_vec();
            push_seq(&mut out, &tg);
            out.push(34);
        }
        Netmessage::NameDebugGeordon => {
            let tg = tag_name_debug_geordon_vec();
            push_seq(&mut out, &tg);
            out.push(34);
        }
        Netmessage::NameDebugJosh => {
            let tg = tag_name_debug_josh_vec();
            push_seq(&mut out, &tg);
            out.push(34);
        }
        Netmessage::NameDebugJoe => {
            let tg = tag_name_debug_joe_vec();
            push_seq(&mut out, &tg);
            out.push(34);
        }
        Netmessage::NameDebugZach => {
            let tg = tag_name_debug_zach_vec();
            push_seq(&mut out, &tg);
            out.push(34);
        }
        Netmessage::ReqMovement => {
            let tg = tag_req_movement_vec();
            push_seq(&mut out, &tg);
            out.push(34);
        }
        Netmessage::ReqInPosition => {
            let tg = tag_req_in_position_vec();
            push_seq(&mut out, &tg);
            out.push(34);
        }
        Netmessage::JoeReqPoints => {
            let tg = tag_joe_req_points_vec();
            push_seq(&mut out, &tg);
            out.push(34);
        }
        Netmessage::JoshReqPoints => {
            let tg = tag_josh_req_points_vec();
            push_seq(&mut out, &tg);
            out.push(34);
        }
        Netmessage::ReqStopped => {
            let tg = tag_req_stopped_vec();
            push_seq(&mut out, &tg);
            out.push(34);
        }
        Netmessage::ReqEdgeDetect => {
            let tg = tag_req_edge_detect_vec();
            push_seq(&mut out, &tg);
            out.push(34);
        }
        Netmessage::ReqEdgeDropped => {
            let tg = tag_req_edge_dropped_vec();
            push_seq(&mut out, &tg);
            out.push(34);
        }
        Netmessage::ReqDistance => {
            let tg = tag_req_distance_vec();
            push_seq(&mut out, &tg);
            out.push(34);
        }
        Netmessage::ReqGrabbed => {
            let tg = tag_req_grabbed_vec();
            push_seq(&mut out, &tg);
            out.push(34);
        }
        Netmessage::ReqDropped => {
            let tg = tag_req_dropped_vec();
            push_seq(&mut out, &tg);
            out.push(34);
        }
        Netmessage::JF(v) => {
            let tg = tag_jf_vec();
            push_seq(&mut out, &tg);
            out.push(34);
            let lv = lit_f_v_vec();
            push_seq(&mut out, &lv);
            push_u32_dec(&mut out, *v);
        }
        Netmessage::JE(v) => {
            let tg = tag_je_vec();
            push_seq(&mut out, &tg);
            out.push(34);
            let lv = lit_f_v_vec();
            push_seq(&mut out, &lv);
            push_u32_dec(&mut out, *v);
        }
        Netmessage::CF(v) => {
            let tg = tag_cf_vec();
            push_seq(&mut out, &tg);
            out.push(34);
            let lv = lit_f_v_vec();
            push_seq(&mut out, &lv);
            push_u32_dec(&mut out, *v);
        }
        Netmessage::CE(v) => {
            let tg = tag_ce_vec();
            push_seq(&mut out, &tg);
            out.push(34);
            let lv = lit_f_v_vec();
            push_seq(&mut out, &lv);
            push_u32_dec(&mut out, *v);
        }
        Netmessage::CT(v) => {
            let tg = tag_ct_vec();
            push_seq(&mut out, &tg);
            out.push(34);
            let lv = lit_f_v_vec();
            push_seq(&mut out, &lv);
            push_u32_dec(&mut out, *v);
        }
        Netmessage::Distance(v) => {
            let tg = tag_distance_vec();
            push_seq(&mut out, &tg);
            out.push(34);
            let lv = lit_f_v_vec();
            push_seq(&mut out, &lv);
            push_u32_dec(&mut out, *v);
        }
        Netmessage::Stopped(b) => {
            let tg = tag_stopped_vec();
            push_seq(&mut out, &tg);
            out.push(34);
            let lv = lit_f_v_vec();
            push_seq(&mut out, &lv);
            push_bool_bytes(&mut out, *b);
        }
        Netmessage::EdgeDetect(b) => {
            let tg = tag_edge_detect_vec();
            push_seq(&mut out, &tg);
            out.push(34);
            let lv = lit_f_v_vec();
            push_seq(&mut out, &lv);
            push_bool_bytes(&mut out, *b);
        }
        Netmessage::EdgeDropped(b) => {
            let tg = tag_edge_dropped_vec();
            push_seq(&mut out, &tg);
            out.push(34);
            let lv = lit_f_v_vec();
            push_seq(&mut out, &lv);
            push_bool_bytes(&mut out, *b);
        }
        Netmessage::Grabbed(b) => {
            let tg = tag_grabbed_vec();
            push_seq(&mut out, &tg);
            out.push(34);
            let lv = lit_f_v_vec();
            push_seq(&mut out, &lv);
            push_bool_bytes(&mut out, *b);
        }
        Netmessage::Dropped(b) => {
            let tg = tag_dropped_vec();
            push_seq(&mut out, &tg);
            out.push(34);
            let lv = lit_f_v_vec();
            push_seq(&mut out, &lv);
            push_bool_bytes(&mut out, *b);
        }
        Netmessage::InPosition(b) => {
            let tg = tag_in_position_vec();
            push_seq(&mut out, &tg);
            out.push(34);
            let lv = lit_f_v_vec();
            push_seq(&mut out, &lv);
            push_bool_bytes(&mut out, *b);
        }
        Netmessage::Movement { x, y } => {
            let tg = tag_movement_vec();
            push_seq(&mut out, &tg);
            out.push(34);
            let lx = lit_f_x_vec();
            push_seq(&mut out, &lx);
            push_u32_dec(&mut out, *x);
            let ly = lit_f_y_vec();
            push_seq(&mut out, &ly);
            push_u32_dec(&mut out, *y);
        }
        Netmessage::Netstats { sent, recv } => {
            let tg = tag_netstats_vec();
            push_seq(&mut out, &tg);
            out.push(34);
            let ls = lit_f_sent_vec();
            push_seq(&mut out, &ls);
            push_u32_dec(&mut out, *sent);
            let lr = lit_f_recv_vec();
            push_seq(&mut out, &lr);
            push_u32_dec(&mut out, *recv);
        }
        Netmessage::World { frame, piece } => {
            let tg = tag_world_vec();
            push_seq(&mut out, &tg);
            out.push(34);
            let lf = lit_f_frame_vec();
            push_seq(&mut out, &lf);
            push_u32_dec(&mut out, *frame);
            let lp = lit_f_piece_vec();
            push_seq(&mut out, &lp);
            push_piece(&mut out, piece);
        }
    }
    out.push(125);
    assert(out@ =~= spec_encode_netmessage(*m));
    out
}

// ---------------------------------------------------------------------
// Encoded sizes always fit one frame.
// ---------------------------------------------------------------------

/// A world piece's object is at most 136 bytes.
pub proof fn lemma_enc_piece_len(p: WorldPiece)
    ensures
        1 <= enc_piece(p).len() <= 136,
{
    match p {
        WorldPiece::Total(n) => {
            lemma_dec_u32_digits(n);
        }
        WorldPiece::ArenaBorder { p0, p1 } => {
            lemma_dec_u32_digits(p0.point.x);
            lemma_dec_u32_digits(p0.point.y);
            lemma_dec_u32_digits(p0.point.v);
            lemma_dec_u32_digits(p1.point.x);
            lemma_dec_u32_digits(p1.point.y);
            lemma_dec_u32_digits(p1.point.v);
        }
        WorldPiece::VisibilityBorder { p0, p1 } => {
            lemma_dec_u32_digits(p0.point.x);
            lemma_dec_u32_digits(p0.point.y);
            lemma_dec_u32_digits(p0.point.v);
            lemma_dec_u32_digits(p1.point.x);
            lemma_dec_u32_digits(p1.point.y);
            lemma_dec_u32_digits(p1.point.v);
        }
        WorldPiece::ObjectBorder { p0, p1 } => {
            lemma_dec_u32_digits(p0.point.x);
            lemma_dec_u32_digits(p0.point.y);
            lemma_dec_u32_digits(p0.point.v);
            lemma_dec_u32_digits(p1.point.x);
            lemma_dec_u32_digits(p1.point.y);
            lemma_dec_u32_digits(p1.point.v);
        }
        WorldPiece::Target(pt) => {
            lemma_dec_u32_digits(pt.x);
            lemma_dec_u32_digits(pt.y);
            lemma_dec_u32_digits(pt.v);
        }
        WorldPiece::RoverA(e) => {
            lemma_dec_u32_digits(e.point.x);
            lemma_dec_u32_digits(e.point.y);
            lemma_dec_u32_digits(e.point.v);
        }
        WorldPiece::RoverB(e) => {
            lemma_dec_u32_digits(e.point.x);
            lemma_dec_u32_digits(e.point.y);
            lemma_dec_u32_digits(e.point.v);
        }
    }
}

/// Every message encodes to a frame-sized payload: at least one byte
/// and at most 256.
pub proof fn lemma_encode_len(m: Netmessage)
    ensures
        1 <= spec_encode_netmessage(m).len() <= 256,
{
    match m {
        Netmessage::Heartbeat => {}
        Netmessage::ReqNetstats => {}
        Netmessage::ReqName => {}
        Netmessage::NameGeordon => {}
        Netmessage::NameJosh => {}
        Netmessage::NameJoe => {}
        Netmessage::NameZach => {}
        Netmessage::NameDebugGeordon => {}
        Netmessage::NameDebugJosh => {}
        Netmessage::NameDebugJoe => {}
        Netmessage::NameDebugZach => {}
        Netmessage::ReqMovement => {}
        Netmessage::ReqInPosition => {}
        Netmessage::JoeReqPoints => {}
        Netmessage::JoshReqPoints => {}
        Netmessage::ReqStopped => {}
        Netmessage::ReqEdgeDetect => {}
        Netmessage::ReqEdgeDropped => {}
        Netmessage::ReqDistance => {}
        Netmessage::ReqGrabbed => {}
        Netmessage::ReqDropped => {}
        Netmessage::JF(v) => {
            lemma_dec_u32_digits(v);
        }
        Netmessage::JE(v) => {
            lemma_dec_u32_digits(v);
        }
        Netmessage::CF(v) => {
            lemma_dec_u32_digits(v);
        }
        Netmessage::CE(v) => {
            lemma_dec_u32_digits(v);
        }
        Netmessage::CT(v) => {
            lemma_dec_u32_digits(v);
        }
        Netmessage::Distance(v) => {
            lemma_dec_u32_digits(v);
        }
        Netmessage::Stopped(b) => {}
        Netmessage::EdgeDetect(b) => {}
        Netmessage::EdgeDropped(b) => {}
        Netmessage::Grabbed(b) => {}
        Netmessage::Dropped(b) => {}
        Netmessage::InPosition(b) => {}
        Netmessage::Movement { x, y } => {
            lemma_dec_u32_digits(x);
            lemma_dec_u32_digits(y);
        }
        Netmessage::Netstats { sent, recv } => {
            lemma_dec_u32_digits(sent);
            lemma_dec_u32_digits(recv);
        }
        Netmessage::World { frame, piece } => {
            lemma_dec_u32_digits(frame);
            lemma_enc_piece_len(piece);
        }
    }
}


// ---------------------------------------------------------------------
// The parser, member by member.
// ---------------------------------------------------------------------

/// Position `k` holds a closing brace inside the buffer.
pub open spec fn brace_at(s: Seq<u8>, k: int) -> bool {
    &&& 0 <= k < s.len()
    &&& s[k] == 125
}

/// A `,"v":` member holding a number.
pub open spec fn parse_v_u32(s: Seq<u8>, i: int) -> Option<(u32, int)> {
    if has_lit(s, i, lit_f_v()) {
        parse_u32(s, i + 5)
    } else {
        None
    }
}

/// A `,"v":` member holding a boolean.
pub open spec fn parse_v_bool(s: Seq<u8>, i: int) -> Option<(bool, int)> {
    if has_lit(s, i, lit_f_v()) {
        parse_bool(s, i + 5)
    } else {
        None
    }
}

/// A `,"n":` member holding a number.
pub open spec fn parse_n_u32(s: Seq<u8>, i: int) -> Option<(u32, int)> {
    if has_lit(s, i, lit_f_n()) {
        parse_u32(s, i + 5)
    } else {
        None
    }
}

/// A `,"open":` member holding a boolean.
pub open spec fn parse_open_bool(s: Seq<u8>, i: int) -> Option<(bool, int)> {
    if has_lit(s, i, lit_f_open()) {
        parse_bool(s, i + 8)
    } else {
        None
    }
}

/// The two coordinate members of a movement.
pub open spec fn parse_xy(s: Seq<u8>, i: int) -> Option<(u32, u32, int)> {
    if has_lit(s, i, lit_f_x()) {
        match parse_u32(s, i + 5) {
            Some(pa) => if has_lit(s, pa.1, lit_f_y()) {
                match parse_u32(s, pa.1 + 5) {
                    Some(pb) => Some((pa.0, pb.0, pb.1)),
                    None => None,
                }
            } else {
                None
            },
            None => None,
        }
    } else {
        None
    }
}

/// The two counter members of a statistics report.
pub open spec fn parse_sent_recv(s: Seq<u8>, i: int) -> Option<(u32, u32, int)> {
    if has_lit(s, i, lit_f_sent()) {
        match parse_u32(s, i + 8) {
            Some(pa) => if has_lit(s, pa.1, lit_f_recv()) {
                match parse_u32(s, pa.1 + 8) {
                    Some(pb) => Some((pa.0, pb.0, pb.1)),
                    None => None,
                }
            } else {
                None
            },
            None => None,
        }
    } else {
        None
    }
}

/// The three coordinate members of a point.
pub open spec fn parse_xyv(s: Seq<u8>, i: int) -> Option<(Point, int)> {
    if has_lit(s, i, lit_f_x()) {
        match parse_u32(s, i + 5) {
            Some(px) => if has_lit(s, px.1, lit_f_y()) {
                match parse_u32(s, px.1 + 5) {
                    Some(py) => if has_lit(s, py.1, lit_f_v()) {
                        match parse_u32(s, py.1 + 5) {
                            Some(pv) => Some((Point { x: px.0, y: py.0, v: pv.0 }, pv.1)),
                            None => None,
                        }
                    } else {
                        None
                    },
                    None => None,
                }
            } else {
                None
            },
            None => None,
        }
    } else {
        None
    }
}

/// A border endpoint under `a`-prefixed member names.
pub open spec fn parse_ep_a(s: Seq<u8>, i: int) -> Option<(EndPoint, int)> {
    if has_lit(s, i, lit_f_ax()) {
        match parse_u32(s, i + 6) {
            Some(px) => if has_lit(s, px.1, lit_f_ay()) {
                match parse_u32(s, px.1 + 6) {
                    Some(py) => if has_lit(s, py.1, lit_f_av()) {
                        match parse_u32(s, py.1 + 6) {
                            Some(pv) => if has_lit(s, pv.1, lit_f_ao()) {
                                match parse_bool(s, pv.1 + 6) {
                                    Some(po) => Some(
                                        (
                                            EndPoint {
                                                point: Point { x: px.0, y: py.0, v: pv.0 },
                                                open: po.0,
                                            },
                                            po.1,
                                        ),
                                    ),
                                    None => None,
                                }
                            } else {
                                None
                            },
                            None => None,
                        }
                    } else {
                        None
                    },
                    None => None,
                }
            } else {
                None
            },
            None => None,
        }
    } else {
        None
    }
}

/// A border endpoint under `b`-prefixed member names.
pub open spec fn parse_ep_b(s: Seq<u8>, i: int) -> Option<(EndPoint, int)> {
    if has_lit(s, i, lit_f_bx()) {
        match parse_u32(s, i + 6) {
            Some(px) => if has_lit(s, px.1, lit_f_by()) {
                match parse_u32(s, px.1 + 6) {
                    Some(py) => if has_lit(s, py.1, lit_f_bv()) {
                        match parse_u32(s, py.1 + 6) {
                            Some(pv) => if has_lit(s, pv.1, lit_f_bo()) {
                                match parse_bool(s, pv.1 + 6) {
                                    Some(po) => Some(
                                        (
                                            EndPoint {
                                                point: Point { x: px.0, y: py.0, v: pv.0 },
                                                open: po.0,
                                            },
                                            po.1,
                                        ),
                                    ),
                                    None => None,
                                }
                            } else {
                                None
                            },
                            None => None,
                        }
                    } else {
                        None
                    },
                    None => None,
                }
            } else {
                None
            },
            None => None,
        }
    } else {
        None
    }
}

/// Pick the world-piece kind from its name and parse its members.
pub open spec fn dispatch_piece(ktag: Seq<u8>, s: Seq<u8>, i: int) -> Option<(WorldPiece, int)> {
    if ktag.len() == 0 {
        None
    } else if ktag[0] == 84 {
        if ktag.len() == 5 {
            if ktag == ptag_total() {
                match parse_n_u32(s, i) {
                    Some(pn) => if brace_at(s, pn.1) {
                        Some((WorldPiece::Total(pn.0), pn.1 + 1))
                    } else {
                        None
                    },
                    None => None,
                }
            } else {
                None
            }
        } else if ktag.len() == 6 {
            if ktag == ptag_target() {
                match parse_xyv(s, i) {
                    Some(pp) => if brace_at(s, pp.1) {
                        Some((WorldPiece::Target(pp.0), pp.1 + 1))
                    } else {
                        None
                    },
                    None => None,
                }
            } else {
                None
            }
        } else {
            None
        }
    } else if ktag[0] == 65 {
        if ktag == ptag_arena_border() {
            match parse_ep_a(s, i) {
                Some(pa) => match parse_ep_b(s, pa.1) {
                    Some(pb) => if brace_at(s, pb.1) {
                        Some((WorldPiece::ArenaBorder { p0: pa.0, p1: pb.0 }, pb.1 + 1))
                    } else {
                        None
                    },
                    None => None,
                },
                None => None,
            }
        } else {
            None
        }
    } else if ktag[0] == 86 {
        if ktag == ptag_visibility_border() {
            match parse_ep_a(s, i) {
                Some(pa) => match parse_ep_b(s, pa.1) {
                    Some(pb) => if brace_at(s, pb.1) {
                        Some((WorldPiece::VisibilityBorder { p0: pa.0, p1: pb.0 }, pb.1 + 1))
                    } else {
                        None
                    },
                    None => None,
                },
                None => None,
            }
        } else {
            None
        }
    } else if ktag[0] == 79 {
        if ktag == ptag_object_border() {
            match parse_ep_a(s, i) {
                Some(pa) => match parse_ep_b(s, pa.1) {
                    Some(pb) => if brace_at(s, pb.1) {
                        Some((WorldPiece::ObjectBorder { p0: pa.0, p1: pb.0 }, pb.1 + 1))
                    } else {
                        None
                    },
                    None => None,
                },
                None => None,
            }
        } else {
            None
        }
    } else if ktag[0] == 82 {
        if ktag.len() == 6 {
            if ktag[5] == 65 {
                if ktag == ptag_rover_a() {
                    match parse_xyv(s, i) {
                        Some(pp) => match parse_open_bool(s, pp.1) {
                            Some(po) => if brace_at(s, po.1) {
                                Some(
                                    (
                                        WorldPiece::RoverA(
                                            EndPoint { point: pp.0, open: po.0 },
                                        ),
                                        po.1 + 1,
                                    ),
                                )
                            } else {
                                None
                            },
                            None => None,
                        },
                        None => None,
                    }
                } else {
                    None
                }
            } else if ktag[5] == 66 {
                if ktag == ptag_rover_b() {
                    match parse_xyv(s, i) {
                        Some(pp) => match parse_open_bool(s, pp.1) {
                            Some(po) => if brace_at(s, po.1) {
                                Some(
                                    (
                                        WorldPiece::RoverB(
                                            EndPoint { point: pp.0, open: po.0 },
                                        ),
                                        po.1 + 1,
                                    ),
                                )
                            } else {
                                None
                            },
                            None => None,
                        },
                        None => None,
                    }
                } else {
                    None
                }
            } else {
                None
            }
        } else {
            None
        }
    } else {
        None
    }
}

/// A world piece: its kind name up to the closing quote, then its
/// members and closing brace.
pub open spec fn parse_piece(s: Seq<u8>, i: int) -> Option<(WorldPiece, int)> {
    let ke = quote_end(s, i);
    if ke >= s.len() {
        None
    } else {
        dispatch_piece(s.subrange(i, ke), s, ke + 1)
    }
}

/// The frame number and piece members of a world message.
pub open spec fn parse_world(s: Seq<u8>, i: int) -> Option<(u32, WorldPiece, int)> {
    if has_lit(s, i, lit_f_frame()) {
        match parse_u32(s, i + 9) {
            Some(pf) => if has_lit(s, pf.1, lit_f_piece()) {
                match parse_piece(s, pf.1 + 18) {
                    Some(pp) => Some((pf.0, pp.0, pp.1)),
                    None => None,
                }
            } else {
                None
            },
            None => None,
        }
    } else {
        None
    }
}

/// Messages whose tag begins with `R`.
pub open spec fn dispatch_r(tag: Seq<u8>, s: Seq<u8>, i: int) -> Option<Netmessage> {
    if tag.len() == 7 {
        if tag == tag_req_name() {
            if end_at(s, i) {
                Some(Netmessage::ReqName)
            } else {
                None
            }
        } else {
            None
        }
    } else if tag.len() == 10 {
        if tag[3] == 83 {
            if tag == tag_req_stopped() {
                if end_at(s, i) {
                    Some(Netmessage::ReqStopped)
                } else {
                    None
                }
            } else {
                None
            }
        } else if tag[3] == 71 {
            if tag == tag_req_grabbed() {
                if end_at(s, i) {
                    Some(Netmessage::ReqGrabbed)
                } else {
                    None
                }
            } else {
                None
            }
        } else if tag[3] == 68 {
            if tag == tag_req_dropped() {
                if end_at(s, i) {
                    Some(Netmessage::ReqDropped)
                } else {
                    None
                }
            } else {
                None
            }
        } else {
            None
        }
    } else if tag.len() == 11 {
        if tag[3] == 78 {
            if tag == tag_req_netstats() {
                if end_at(s, i) {
                    Some(Netmessage::ReqNetstats)
                } else {
                    None
                }
            } else {
                None
            }
        } else if tag[3] == 77 {
            if tag == tag_req_movement() {
                if end_at(s, i) {
                    Some(Netmessage::ReqMovement)
                } else {
                    None
                }
            } else {
                None
            }
        } else if tag[3] == 68 {
            if tag == tag_req_distance() {
                if end_at(s, i) {
                    Some(Netmessage::ReqDistance)
                } else {
                    None
                }
            } else {
                None
            }
        } else {
            None
        }
    } else if tag.len() == 13 {
        if tag[3] == 73 {
            if tag == tag_req_in_position() {
                if end_at(s, i) {
                    Some(Netmessage::ReqInPosition)
                } else {
                    None
                }
            } else {
                None
            }
        } else if tag[3] == 69 {
            if tag == tag_req_edge_detect() {
                if end_at(s, i) {
                    Some(Netmessage::ReqEdgeDetect)
                } else {
                    None
                }
            } else {
                None
            }
        } else {
            None
        }
    } else if tag.len() == 14 {
        if tag == tag_req_edge_dropped() {
            if end_at(s, i) {
                Some(Netmessage::ReqEdgeDropped)
            } else {
                None
            }
        } else {
            None
        }
    } else {
        None
    }
}

/// Messages whose tag begins with `N`.
pub open spec fn dispatch_n(tag: Seq<u8>, s: Seq<u8>, i: int) -> Option<Netmessage> {
    if tag.len() == 7 {
        if tag == tag_name_joe() {
            if end_at(s, i) {
                Some(Netmessage::NameJoe)
            } else {
                None
            }
        } else {
            None
        }
    } else if tag.len() == 8 {
        if tag[4] == 74 {
            if tag == tag_name_josh() {
                if end_at(s, i) {
                    Some(Netmessage::NameJosh)
                } else {
                    None
                }
            } else {
                None
            }
        } else if tag[4] == 90 {
            if tag == tag_name_zach() {
                if end_at(s, i) {
                    Some(Netmessage::NameZach)
                } else {
                    None
                }
            } else {
                None
            }
        } else if tag[4] == 116 {
            if tag == tag_netstats() {
                match parse_sent_recv(s, i) {
                    Some(p) => if end_at(s, p.2) {
                        Some(Netmessage::Netstats { sent: p.0, recv: p.1 })
                    } else {
                        None
                    },
                    None => None,
                }
            } else {
                None
            }
        } else {
            None
        }
    } else if tag.len() == 11 {
        if tag == tag_name_geordon() {
            if end_at(s, i) {
                Some(Netmessage::NameGeordon)
            } else {
                None
            }
        } else {
            None
        }
    } else if tag.len() == 12 {
        if tag == tag_name_debug_joe() {
            if end_at(s, i) {
                Some(Netmessage::NameDebugJoe)
            } else {
                None
            }
        } else {
            None
        }
    } else if tag.len() == 13 {
        if tag[9] == 74 {
            if tag == tag_name_debug_josh() {
                if end_at(s, i) {
                    Some(Netmessage::NameDebugJosh)
                } else {
                    None
                }
            } else {
                None
            }
        } else if tag[9] == 90 {
            if tag == tag_name_debug_zach() {
                if end_at(s, i) {
                    Some(Netmessage::NameDebugZach)
                } else {
                    None
                }
            } else {
                None
            }
        } else {
            None
        }
    } else if tag.len() == 16 {
        if tag == tag_name_debug_geordon() {
            if end_at(s, i) {
                Some(Netmessage::NameDebugGeordon)
            } else {
                None
            }
        } else {
            None
        }
    } else {
        None
    }
}

/// Messages whose tag begins with `J`.
pub open spec fn dispatch_j(tag: Seq<u8>, s: Seq<u8>, i: int) -> Option<Netmessage> {
    if tag.len() == 2 {
        if tag[1] == 70 {
            if tag == tag_jf() {
                match parse_v_u32(s, i) {
                    Some(p) => if end_at(s, p.1) {
                        Some(Netmessage::JF(p.0))
                    } else {
                        None
                    },
                    None => None,
                }
            } else {
                None
            }
        } else if tag[1] == 69 {
            if tag == tag_je() {
                match parse_v_u32(s, i) {
                    Some(p) => if end_at(s, p.1) {
                        Some(Netmessage::JE(p.0))
                    } else {
                        None
                    },
                    None => None,
                }
            } else {
                None
            }
        } else {
            None
        }
    } else if tag.len() == 12 {
        if tag == tag_joe_req_points() {
            if end_at(s, i) {
                Some(Netmessage::JoeReqPoints)
            } else {
                None
            }
        } else {
            None
        }
    } else if tag.len() == 13 {
        if tag == tag_josh_req_points() {
            if end_at(s, i) {
                Some(Netmessage::JoshReqPoints)
            } else {
                None
            }
        } else {
            None
        }
    } else {
        None
    }
}

/// Messages whose tag begins with `C`.
pub open spec fn dispatch_c(tag: Seq<u8>, s: Seq<u8>, i: int) -> Option<Netmessage> {
    if tag.len() == 2 {
        if tag[1] == 70 {
            if tag == tag_cf() {
                match parse_v_u32(s, i) {
                    Some(p) => if end_at(s, p.1) {
                        Some(Netmessage::CF(p.0))
                    } else {
                        None
                    },
                    None => None,
                }
            } else {
                None
            }
        } else if tag[1] == 69 {
            if tag == tag_ce() {
                match parse_v_u32(s, i) {
                    Some(p) => if end_at(s, p.1) {
                        Some(Netmessage::CE(p.0))
                    } else {
                        None
                    },
                    None => None,
                }
            } else {
                None
            }
        } else if tag[1] == 84 {
            if tag == tag_ct() {
                match parse_v_u32(s, i) {
                    Some(p) => if end_at(s, p.1) {
                        Some(Netmessage::CT(p.0))
                    } else {
                        None
                    },
                    None => None,
                }
            } else {
                None
            }
        } else {
            None
        }
    } else {
        None
    }
}

/// Messages whose tag begins with `E`.
pub open spec fn dispatch_e(tag: Seq<u8>, s: Seq<u8>, i: int) -> Option<Netmessage> {
    if tag.len() == 10 {
        if tag == tag_edge_detect() {
            match parse_v_bool(s, i) {
                Some(p) => if end_at(s, p.1) {
                    Some(Netmessage::EdgeDetect(p.0))
                } else {
                    None
                },
                None => None,
            }
        } else {
            None
        }
    } else if tag.len() == 11 {
        if tag == tag_edge_dropped() {
            match parse_v_bool(s, i) {
                Some(p) => if end_at(s, p.1) {
                    Some(Netmessage::EdgeDropped(p.0))
                } else {
                    None
                },
                None => None,
            }
        } else {
            None
        }
    } else {
        None
    }
}

/// Messages whose tag begins with `D`.
pub open spec fn dispatch_d(tag: Seq<u8>, s: Seq<u8>, i: int) -> Option<Netmessage> {
    if tag.len() == 7 {
        if tag == tag_dropped() {
            match parse_v_bool(s, i) {
                Some(p) => if end_at(s, p.1) {
                    Some(Netmessage::Dropped(p.0))
                } else {
                    None
                },
                None => None,
            }
        } else {
            None
        }
    } else if tag.len() == 8 {
        if tag == tag_distance() {
            match parse_v_u32(s, i) {
                Some(p) => if end_at(s, p.1) {
                    Some(Netmessage::Distance(p.0))
                } else {
                    None
                },
                None => None,
            }
        } else {
            None
        }
    } else {
        None
    }
}

/// Pick the message kind from its tag and parse the payload members.
pub open spec fn dispatch(tag: Seq<u8>, s: Seq<u8>, i: int) -> Option<Netmessage> {
    if tag.len() == 0 {
        None
    } else if tag[0] == 72 {
        if tag == tag_heartbeat() {
            if end_at(s, i) {
                Some(Netmessage::Heartbeat)
            } else {
                None
            }
        } else {
            None
        }
    } else if tag[0] == 82 {
        dispatch_r(tag, s, i)
    } else if tag[0] == 78 {
        dispatch_n(tag, s, i)
    } else if tag[0] == 74 {
        dispatch_j(tag, s, i)
    } else if tag[0] == 67 {
        dispatch_c(tag, s, i)
    } else if tag[0] == 83 {
        if tag == tag_stopped() {
            match parse_v_bool(s, i) {
                Some(p) => if end_at(s, p.1) {
                    Some(Netmessage::Stopped(p.0))
                } else {
                    None
                },
                None => None,
            }
        } else {
            None
        }
    } else if tag[0] == 69 {
        dispatch_e(tag, s, i)
    } else if tag[0] == 68 {
        dispatch_d(tag, s, i)
    } else if tag[0] == 71 {
        if tag == tag_grabbed() {
            match parse_v_bool(s, i) {
                Some(p) => if end_at(s, p.1) {
                    Some(Netmessage::Grabbed(p.0))
                } else {
                    None
                },
                None => None,
            }
        } else {
            None
        }
    } else if tag[0] == 73 {
        if tag == tag_in_position() {
            match parse_v_bool(s, i) {
                Some(p) => if end_at(s, p.1) {
                    Some(Netmessage::InPosition(p.0))
                } else {
                    None
                },
                None => None,
            }
        } else {
            None
        }
    } else if tag[0] == 77 {
        if tag == tag_movement() {
            match parse_xy(s, i) {
                Some(p) => if end_at(s, p.2) {
                    Some(Netmessage::Movement { x: p.0, y: p.1 })
                } else {
                    None
                },
                None => None,
            }
        } else {
            None
        }
    } else if tag[0] == 87 {
        if tag == tag_world() {
            match parse_world(s, i) {
                Some(p) => if end_at(s, p.2) {
                    Some(Netmessage::World { frame: p.0, piece: p.1 })
                } else {
                    None
                },
                None => None,
            }
        } else {
            None
        }
    } else {
        None
    }
}

/// Decode a canonical JSON message: the fixed opening, the tag up to
/// its closing quote, then the variant's members and the final brace,
/// with nothing left over.
pub open spec fn spec_decode_netmessage(s: Seq<u8>) -> Option<Netmessage> {
    if has_lit(s, 0, lit_tag_open()) {
        let te = quote_end(s, 8);
        if te >= s.len() {
            None
        } else {
            dispatch(s.subrange(8, te), s, te + 1)
        }
    } else {
        None
    }
}


// ---------------------------------------------------------------------
// The executable decoder.
// ---------------------------------------------------------------------

/// Whether the whole buffer ends with a closing brace at `j`.
fn end_at_exec(buf: &[u8], j: usize) -> (r: bool)
    ensures
        r == end_at(buf@, j as int),
        buf@.len() <= usize::MAX,
{
    j < buf.len() && j + 1 == buf.len() && buf[j] == 125
}

/// Whether `j` holds a closing brace inside the buffer.
fn brace_at_exec(buf: &[u8], j: usize) -> (r: bool)
    ensures
        r == brace_at(buf@, j as int),
        buf@.len() <= usize::MAX,
{
    j < buf.len() && buf[j] == 125
}

/// Parse a JSON boolean, as `parse_bool` describes.
fn parse_bool_exec(buf: &[u8], i: usize) -> (r: Option<(bool, usize)>)
    ensures
        match r {
            Some(p) => parse_bool(buf@, i as int) == Some((p.0, p.1 as int)) && i <= p.1
                <= buf@.len(),
            None => parse_bool(buf@, i as int) is None,
        },
{
    let lt = lit_true_vec();
    if bytes_at(buf, i, lt.as_slice()) {
        return Some((true, i + 4));
    }
    let lf = lit_false_vec();
    if bytes_at(buf, i, lf.as_slice()) {
        return Some((false, i + 5));
    }
    None
}

/// Parse as `parse_v_u32` describes.
fn parse_v_u32_exec(buf: &[u8], i: usize) -> (r: Option<(u32, usize)>)
    requires
        i <= buf@.len(),
    ensures
        match r {
            Some(p) => parse_v_u32(buf@, i as int) == Some((p.0, p.1 as int)) && i <= p.1
                <= buf@.len(),
            None => parse_v_u32(buf@, i as int) is None,
        },
{
    let l = lit_f_v_vec();
    if !bytes_at(buf, i, l.as_slice()) {
        return None;
    }
    parse_u32_exec(buf, i + 5)
}

/// Parse as `parse_v_bool` describes.
fn parse_v_bool_exec(buf: &[u8], i: usize) -> (r: Option<(bool, usize)>)
    requires
        i <= buf@.len(),
    ensures
        match r {
            Some(p) => parse_v_bool(buf@, i as int) == Some((p.0, p.1 as int)) && i <= p.1
                <= buf@.len(),
            None => parse_v_bool(buf@, i as int) is None,
        },
{
    let l = lit_f_v_vec();
    if !bytes_at(buf, i, l.as_slice()) {
        return None;
    }
    parse_bool_exec(buf, i + 5)
}

/// Parse as `parse_n_u32` describes.
fn parse_n_u32_exec(buf: &[u8], i: usize) -> (r: Option<(u32, usize)>)
    requires
        i <= buf@.len(),
    ensures
        match r {
            Some(p) => parse_n_u32(buf@, i as int) == Some((p.0, p.1 as int)) && i <= p.1
                <= buf@.len(),
            None => parse_n_u32(buf@, i as int) is None,
        },
{
    let l = lit_f_n_vec();
    if !bytes_at(buf, i, l.as_slice()) {
        return None;
    }
    parse_u32_exec(buf, i + 5)
}

/// Parse as `parse_open_bool` describes.
fn parse_open_bool_exec(buf: &[u8], i: usize) -> (r: Option<(bool, usize)>)
    requires
        i <= buf@.len(),
    ensures
        match r {
            Some(p) => parse_open_bool(buf@, i as int) == Some((p.0, p.1 as int)) && i <= p.1
                <= buf@.len(),
            None => parse_open_bool(buf@, i as int) is None,
        },
{
    let l = lit_f_open_vec();
    if !bytes_at(buf, i, l.as_slice()) {
        return None;
    }
    parse_bool_exec(buf, i + 8)
}

/// Parse as `parse_xy` describes.
fn parse_xy_exec(buf: &[u8], i: usize) -> (r: Option<(u32, u32, usize)>)
    requires
        i <= buf@.len(),
    ensures
        match r {
            Some(p) => parse_xy(buf@, i as int) == Some((p.0, p.1, p.2 as int)) && i <= p.2
                <= buf@.len(),
            None => parse_xy(buf@, i as int) is None,
        },
{
    let la = lit_f_x_vec();
    if !bytes_at(buf, i, la.as_slice()) {
        return None;
    }
    let pa = match parse_u32_exec(buf, i + 5) {
        Some(p) => p,
        None => {
            return None;
        },
    };
    let lb = lit_f_y_vec();
    if !bytes_at(buf, pa.1, lb.as_slice()) {
        return None;
    }
    let pb = match parse_u32_exec(buf, pa.1 + 5) {
        Some(p) => p,
        None => {
            return None;
        },
    };
    Some((pa.0, pb.0, pb.1))
}

/// Parse as `parse_sent_recv` describes.
fn parse_sent_recv_exec(buf: &[u8], i: usize) -> (r: Option<(u32, u32, usize)>)
    requires
        i <= buf@.len(),
    ensures
        match r {
            Some(p) => parse_sent_recv(buf@, i as int) == Some((p.0, p.1, p.2 as int)) && i <= p.2
                <= buf@.len(),
            None => parse_sent_recv(buf@, i as int) is None,
        },
{
    let la = lit_f_sent_vec();
    if !bytes_at(buf, i, la.as_slice()) {
        return None;
    }
    let pa = match parse_u32_exec(buf, i + 8) {
        Some(p) => p,
        None => {
            return None;
        },
    };
    let lb = lit_f_recv_vec();
    if !bytes_at(buf, pa.1, lb.as_slice()) {
        return None;
    }
    let pb = match parse_u32_exec(buf, pa.1 + 8) {
        Some(p) => p,
        None => {
            return None;
        },
    };
    Some((pa.0, pb.0, pb.1))
}

/// Parse as `parse_xyv` describes.
fn parse_xyv_exec(buf: &[u8], i: usize) -> (r: Option<(Point, usize)>)
    requires
        i <= buf@.len(),
    ensures
        match r {
            Some(p) => parse_xyv(buf@, i as int) == Some((p.0, p.1 as int)) && i <= p.1
                <= buf@.len(),
            None => parse_xyv(buf@, i as int) is None,
        },
{
    let lx = lit_f_x_vec();
    if !bytes_at(buf, i, lx.as_slice()) {
        return None;
    }
    let px = match parse_u32_exec(buf, i + 5) {
        Some(p) => p,
        None => {
            return None;
        },
    };
    let ly = lit_f_y_vec();
    if !bytes_at(buf, px.1, ly.as_slice()) {
        return None;
    }
    let py = match parse_u32_exec(buf, px.1 + 5) {
        Some(p) => p,
        None => {
            return None;
        },
    };
    let lv = lit_f_v_vec();
    if !bytes_at(buf, py.1, lv.as_slice()) {
        return None;
    }
    let pv = match parse_u32_exec(buf, py.1 + 5) {
        Some(p) => p,
        None => {
            return None;
        },
    };
    Some((Point { x: px.0, y: py.0, v: pv.0 }, pv.1))
}

/// Parse as `parse_ep_a` describes.
fn parse_ep_a_exec(buf: &[u8], i: usize) -> (r: Option<(EndPoint, usize)>)
    requires
        i <= buf@.len(),
    ensures
        match r {
            Some(p) => parse_ep_a(buf@, i as int) == Some((p.0, p.1 as int)) && i <= p.1
                <= buf@.len(),
            None => parse_ep_a(buf@, i as int) is None,
        },
{
    let lx = lit_f_ax_vec();
    if !bytes_at(buf, i, lx.as_slice()) {
        return None;
    }
    let px = match parse_u32_exec(buf, i + 6) {
        Some(p) => p,
        None => {
            return None;
        },
    };
    let ly = lit_f_ay_vec();
    if !bytes_at(buf, px.1, ly.as_slice()) {
        return None;
    }
    let py = match parse_u32_exec(buf, px.1 + 6) {
        Some(p) => p,
        None => {
            return None;
        },
    };
    let lv = lit_f_av_vec();
    if !bytes_at(buf, py.1, lv.as_slice()) {
        return None;
    }
    let pv = match parse_u32_exec(buf, py.1 + 6) {
        Some(p) => p,
        None => {
            return None;
        },
    };
    let lo = lit_f_ao_vec();
    if !bytes_at(buf, pv.1, lo.as_slice()) {
        return None;
    }
    let po = match parse_bool_exec(buf, pv.1 + 6) {
        Some(p) => p,
        None => {
            return None;
        },
    };
    Some((EndPoint { point: Point { x: px.0, y: py.0, v: pv.0 }, open: po.0 }, po.1))
}

/// Parse as `parse_ep_b` describes.
fn parse_ep_b_exec(buf: &[u8], i: usize) -> (r: Option<(EndPoint, usize)>)
    requires
        i <= buf@.len(),
    ensures
        match r {
            Some(p) => parse_ep_b(buf@, i as int) == Some((p.0, p.1 as int)) && i <= p.1
                <= buf@.len(),
            None => parse_ep_b(buf@, i as int) is None,
        },
{
    let lx = lit_f_bx_vec();
    if !bytes_at(buf, i, lx.as_slice()) {
        return None;
    }
    let px = match parse_u32_exec(buf, i + 6) {
        Some(p) => p,
        None => {
            return None;
        },
    };
    let ly = lit_f_by_vec();
    if !bytes_at(buf, px.1, ly.as_slice()) {
        return None;
    }
    let py = match parse_u32_exec(buf, px.1 + 6) {
        Some(p) => p,
        None => {
            return None;
        },
    };
    let lv = lit_f_bv_vec();
    if !bytes_at(buf, py.1, lv.as_slice()) {
        return None;
    }
    let pv = match parse_u32_exec(buf, py.1 + 6) {
        Some(p) => p,
        None => {
            return None;
        },
    };
    let lo = lit_f_bo_vec();
    if !bytes_at(buf, pv.1, lo.as_slice()) {
        return None;
    }
    let po = match parse_bool_exec(buf, pv.1 + 6) {
        Some(p) => p,
        None => {
            return None;
        },
    };
    Some((EndPoint { point: Point { x: px.0, y: py.0, v: pv.0 }, open: po.0 }, po.1))
}

/// Parse as `parse_piece` describes.
#[verifier::rlimit(100)]
#[verifier::spinoff_prover]
fn parse_piece_exec(buf: &[u8], i: usize) -> (r: Option<(WorldPiece, usize)>)
    requires
        i <= buf@.len(),
    ensures
        match r {
            Some(p) => parse_piece(buf@, i as int) == Some((p.0, p.1 as int)) && p.1
                <= buf@.len(),
            None => parse_piece(buf@, i as int) is None,
        },
{
    let ke = find_quote(buf, i);
    if ke >= buf.len() {
        return None;
    }
    let ghost ktag = buf@.subrange(i as int, ke as int);
    proof {
        assert(ktag.len() == ke - i);
    }
    if ke == i {
        return None;
    }
    let j = ke + 1;
    let b0 = buf[i];
    proof {
        assert(ktag[0] == buf@[i as int]);
    }
    if b0 == 84 {
        if ke - i == 5 {
            let tv = ptag_total_vec();
            if !range_is(buf, i, ke, tv.as_slice()) {
                return None;
            }
            let pn = match parse_n_u32_exec(buf, j) {
                Some(p) => p,
                None => {
                    return None;
                },
            };
            if brace_at_exec(buf, pn.1) {
                Some((WorldPiece::Total(pn.0), pn.1 + 1))
            } else {
                None
            }
        } else if ke - i == 6 {
            let tv = ptag_target_vec();
            if !range_is(buf, i, ke, tv.as_slice()) {
                return None;
            }
            let pp = match parse_xyv_exec(buf, j) {
                Some(p) => p,
                None => {
                    return None;
                },
            };
            if brace_at_exec(buf, pp.1) {
                Some((WorldPiece::Target(pp.0), pp.1 + 1))
            } else {
                None
            }
        } else {
            None
        }
    } else if b0 == 65 {
        let tv = ptag_arena_border_vec();
        if !range_is(buf, i, ke, tv.as_slice()) {
            return None;
        }
        let pa = match parse_ep_a_exec(buf, j) {
            Some(p) => p,
            None => {
                return None;
            },
        };
        let pb = match parse_ep_b_exec(buf, pa.1) {
            Some(p) => p,
            None => {
                return None;
            },
        };
        if brace_at_exec(buf, pb.1) {
            Some((WorldPiece::ArenaBorder { p0: pa.0, p1: pb.0 }, pb.1 + 1))
        } else {
            None
        }
    } else if b0 == 86 {
        let tv = ptag_visibility_border_vec();
        if !range_is(buf, i, ke, tv.as_slice()) {
            return None;
        }
        let pa = match parse_ep_a_exec(buf, j) {
            Some(p) => p,
            None => {
                return None;
            },
        };
        let pb = match parse_ep_b_exec(buf, pa.1) {
            Some(p) => p,
            None => {
                return None;
            },
        };
        if brace_at_exec(buf, pb.1) {
            Some((WorldPiece::VisibilityBorder { p0: pa.0, p1: pb.0 }, pb.1 + 1))
        } else {
            None
        }
    } else if b0 == 79 {
        let tv = ptag_object_border_vec();
        if !range_is(buf, i, ke, tv.as_slice()) {
            return None;
        }
        let pa = match parse_ep_a_exec(buf, j) {
            Some(p) => p,
            None => {
                return None;
            },
        };
        let pb = match parse_ep_b_exec(buf, pa.1) {
            Some(p) => p,
            None => {
                return None;
            },
        };
        if brace_at_exec(buf, pb.1) {
            Some((WorldPiece::ObjectBorder { p0: pa.0, p1: pb.0 }, pb.1 + 1))
        } else {
            None
        }
    } else if b0 == 82 {
        if ke - i == 6 {
            let b5 = buf[i + 5];
            proof {
                assert(ktag[5] == buf@[i as int + 5]);
            }
            if b5 == 65 {
                let tv = ptag_rover_a_vec();
                if !range_is(buf, i, ke, tv.as_slice()) {
                    return None;
                }
                let pp = match parse_xyv_exec(buf, j) {
                    Some(p) => p,
                    None => {
                        return None;
                    },
                };
                let po = match parse_open_bool_exec(buf, pp.1) {
                    Some(p) => p,
                    None => {
                        return None;
                    },
                };
                if brace_at_exec(buf, po.1) {
                    Some((WorldPiece::RoverA(EndPoint { point: pp.0, open: po.0 }), po.1 + 1))
                } else {
                    None
                }
            } else if b5 == 66 {
                let tv = ptag_rover_b_vec();
                if !range_is(buf, i, ke, tv.as_slice()) {
                    return None;
                }
                let pp = match parse_xyv_exec(buf, j) {
                    Some(p) => p,
                    None => {
                        return None;
                    },
                };
                let po = match parse_open_bool_exec(buf, pp.1) {
                    Some(p) => p,
                    None => {
                        return None;
                    },
                };
                if brace_at_exec(buf, po.1) {
                    Some((WorldPiece::RoverB(EndPoint { point: pp.0, open: po.0 }), po.1 + 1))
                } else {
                    None
                }
            } else {
                None
            }
        } else {
            None
        }
    } else {
        None
    }
}

/// Parse as `parse_world` describes.
fn parse_world_exec(buf: &[u8], i: usize) -> (r: Option<(u32, WorldPiece, usize)>)
    requires
        i <= buf@.len(),
    ensures
        match r {
            Some(p) => parse_world(buf@, i as int) == Some((p.0, p.1, p.2 as int)) && p.2
                <= buf@.len(),
            None => parse_world(buf@, i as int) is None,
        },
{
    let lf = lit_f_frame_vec();
    if !bytes_at(buf, i, lf.as_slice()) {
        return None;
    }
    let pf = match parse_u32_exec(buf, i + 9) {
        Some(p) => p,
        None => {
            return None;
        },
    };
    let lp = lit_f_piece_vec();
    if !bytes_at(buf, pf.1, lp.as_slice()) {
        return None;
    }
    let pp = match parse_piece_exec(buf, pf.1 + 18) {
        Some(p) => p,
        None => {
            return None;
        },
    };
    Some((pf.0, pp.0, pp.1))
}

/// Decode the messages whose tag begins with `R`.
#[verifier::rlimit(50)]
fn dec_group_r(buf: &[u8], te: usize) -> (r: Option<Netmessage>)
    requires
        8 <= te < buf@.len(),
        buf@.len() <= usize::MAX,
    ensures
        r == dispatch_r(buf@.subrange(8, te as int), buf@, te as int + 1),
{
    let ghost tag = buf@.subrange(8, te as int);
    proof {
        assert(tag.len() == te - 8);
    }
    if te - 8 == 7 {
        let tv = tag_req_name_vec();
        if range_is(buf, 8, te, tv.as_slice()) {
            if end_at_exec(buf, te + 1) {
                Some(Netmessage::ReqName)
            } else {
                None
            }
        } else {
            None
        }
    } else if te - 8 == 10 {
        let bx = buf[11];
        proof {
            assert(tag[3] == buf@[11]);
        }
        if bx == 83 {
            let tv = tag_req_stopped_vec();
            if range_is(buf, 8, te, tv.as_slice()) {
                if end_at_exec(buf, te + 1) {
                    Some(Netmessage::ReqStopped)
                } else {
                    None
                }
            } else {
                None
            }
        } else if bx == 71 {
            let tv = tag_req_grabbed_vec();
            if range_is(buf, 8, te, tv.as_slice()) {
                if end_at_exec(buf, te + 1) {
                    Some(Netmessage::ReqGrabbed)
                } else {
                    None
                }
            } else {
                None
            }
        } else if bx == 68 {
            let tv = tag_req_dropped_vec();
            if range_is(buf, 8, te, tv.as_slice()) {
                if end_at_exec(buf, te + 1) {
                    Some(Netmessage::ReqDropped)
                } else {
                    None
                }
            } else {
                None
            }
        } else {
            None
        }
    } else if te - 8 == 11 {
        let bx = buf[11];
        proof {
            assert(tag[3] == buf@[11]);
        }
        if bx == 78 {
            let tv = tag_req_netstats_vec();
            if range_is(buf, 8, te, tv.as_slice()) {
                if end_at_exec(buf, te + 1) {
                    Some(Netmessage::ReqNetstats)
                } else {
                    None
                }
            } else {
                None
            }
        } else if bx == 77 {
            let tv = tag_req_movement_vec();
            if range_is(buf, 8, te, tv.as_slice()) {
                if end_at_exec(buf, te + 1) {
                    Some(Netmessage::ReqMovement)
                } else {
                    None
                }
            } else {
                None
            }
        } else if bx == 68 {
            let tv = tag_req_distance_vec();
            if range_is(buf, 8, te, tv.as_slice()) {
                if end_at_exec(buf, te + 1) {
                    Some(Netmessage::ReqDistance)
                } else {
                    None
                }
            } else {
                None
            }
        } else {
            None
        }
    } else if te - 8 == 13 {
        let bx = buf[11];
        proof {
            assert(tag[3] == buf@[11]);
        }
        if bx == 73 {
            let tv = tag_req_in_position_vec();
            if range_is(buf, 8, te, tv.as_slice()) {
                if end_at_exec(buf, te + 1) {
                    Some(Netmessage::ReqInPosition)
                } else {
                    None
                }
            } else {
                None
            }
        } else if bx == 69 {
            let tv = tag_req_edge_detect_vec();
            if range_is(buf, 8, te, tv.as_slice()) {
                if end_at_exec(buf, te + 1) {
                    Some(Netmessage::ReqEdgeDetect)
                } else {
                    None
                }
            } else {
                None
            }
        } else {
            None
        }
    } else if te - 8 == 14 {
        let tv = tag_req_edge_dropped_vec();
        if range_is(buf, 8, te, tv.as_slice()) {
            if end_at_exec(buf, te + 1) {
                Some(Netmessage::ReqEdgeDropped)
            } else {
                None
            }
        } else {
            None
        }
    } else {
        None
    }
}

/// Decode the messages whose tag begins with `N`.
#[verifier::rlimit(50)]
fn dec_group_n(buf: &[u8], te: usize) -> (r: Option<Netmessage>)
    requires
        8 <= te < buf@.len(),
        buf@.len() <= usize::MAX,
    ensures
        r == dispatch_n(buf@.subrange(8, te as int), buf@, te as int + 1),
{
    let ghost tag = buf@.subrange(8, te as int);
    proof {
        assert(tag.len() == te - 8);
    }
    if te - 8 == 7 {
        let tv = tag_name_joe_vec();
        if range_is(buf, 8, te, tv.as_slice()) {
            if end_at_exec(buf, te + 1) {
                Some(Netmessage::NameJoe)
            } else {
                None
            }
        } else {
            None
        }
    } else if te - 8 == 8 {
        let bx = buf[12];
        proof {
            assert(tag[4] == buf@[12]);
        }
        if bx == 74 {
            let tv = tag_name_josh_vec();
            if range_is(buf, 8, te, tv.as_slice()) {
                if end_at_exec(buf, te + 1) {
                    Some(Netmessage::NameJosh)
                } else {
                    None
                }
            } else {
                None
            }
        } else if bx == 90 {
            let tv = tag_name_zach_vec();
            if range_is(buf, 8, te, tv.as_slice()) {
                if end_at_exec(buf, te + 1) {
                    Some(Netmessage::NameZach)
                } else {
                    None
                }
            } else {
                None
            }
        } else if bx == 116 {
            let tv = tag_netstats_vec();
            if range_is(buf, 8, te, tv.as_slice()) {
                match parse_sent_recv_exec(buf, te + 1) {
                    Some(p) => if end_at_exec(buf, p.2) {
                        Some(Netmessage::Netstats { sent: p.0, recv: p.1 })
                    } else {
                        None
                    },
                    None => None,
                }
            } else {
                None
            }
        } else {
            None
        }
    } else if te - 8 == 11 {
        let tv = tag_name_geordon_vec();
        if range_is(buf, 8, te, tv.as_slice()) {
            if end_at_exec(buf, te + 1) {
                Some(Netmessage::NameGeordon)
            } else {
                None
            }
        } else {
            None
        }
    } else if te - 8 == 12 {
        let tv = tag_name_debug_joe_vec();
        if range_is(buf, 8, te, tv.as_slice()) {
            if end_at_exec(buf, te + 1) {
                Some(Netmessage::NameDebugJoe)
            } else {
                None
            }
        } else {
            None
        }
    } else if te - 8 == 13 {
        let bx = buf[17];
        proof {
            assert(tag[9] == buf@[17]);
        }
        if bx == 74 {
            let tv = tag_name_debug_josh_vec();
            if range_is(buf, 8, te, tv.as_slice()) {
                if end_at_exec(buf, te + 1) {
                    Some(Netmessage::NameDebugJosh)
                } else {
                    None
                }
            } else {
                None
            }
        } else if bx == 90 {
            let tv = tag_name_debug_zach_vec();
            if range_is(buf, 8, te, tv.as_slice()) {
                if end_at_exec(buf, te + 1) {
                    Some(Netmessage::NameDebugZach)
                } else {
                    None
                }
            } else {
                None
            }
        } else {
            None
        }
    } else if te - 8 == 16 {
        let tv = tag_name_debug_geordon_vec();
        if range_is(buf, 8, te, tv.as_slice()) {
            if end_at_exec(buf, te + 1) {
                Some(Netmessage::NameDebugGeordon)
            } else {
                None
            }
        } else {
            None
        }
    } else {
        None
    }
}

/// Decode the messages whose tag begins with `J`.
#[verifier::rlimit(50)]
fn dec_group_j(buf: &[u8], te: usize) -> (r: Option<Netmessage>)
    requires
        8 <= te < buf@.len(),
        buf@.len() <= usize::MAX,
    ensures
        r == dispatch_j(buf@.subrange(8, te as int), buf@, te as int + 1),
{
    let ghost tag = buf@.subrange(8, te as int);
    proof {
        assert(tag.len() == te - 8);
    }
    if te - 8 == 2 {
        let bx = buf[9];
        proof {
            assert(tag[1] == buf@[9]);
        }
        if bx == 70 {
            let tv = tag_jf_vec();
            if range_is(buf, 8, te, tv.as_slice()) {
                match parse_v_u32_exec(buf, te + 1) {
                    Some(p) => if end_at_exec(buf, p.1) {
                        Some(Netmessage::JF(p.0))
                    } else {
                        None
                    },
                    None => None,
                }
            } else {
                None
            }
        } else if bx == 69 {
            let tv = tag_je_vec();
            if range_is(buf, 8, te, tv.as_slice()) {
                match parse_v_u32_exec(buf, te + 1) {
                    Some(p) => if end_at_exec(buf, p.1) {
                        Some(Netmessage::JE(p.0))
                    } else {
                        None
                    },
                    None => None,
                }
            } else {
                None
            }
        } else {
            None
        }
    } else if te - 8 == 12 {
        let tv = tag_joe_req_points_vec();
        if range_is(buf, 8, te, tv.as_slice()) {
            if end_at_exec(buf, te + 1) {
                Some(Netmessage::JoeReqPoints)
            } else {
                None
            }
        } else {
            None
        }
    } else if te - 8 == 13 {
        let tv = tag_josh_req_points_vec();
        if range_is(buf, 8, te, tv.as_slice()) {
            if end_at_exec(buf, te + 1) {
                Some(Netmessage::JoshReqPoints)
            } else {
                None
            }
        } else {
            None
        }
    } else {
        None
    }
}

/// Decode the messages whose tag begins with `C`.
#[verifier::rlimit(50)]
fn dec_group_c(buf: &[u8], te: usize) -> (r: Option<Netmessage>)
    requires
        8 <= te < buf@.len(),
        buf@.len() <= usize::MAX,
    ensures
        r == dispatch_c(buf@.subrange(8, te as int), buf@, te as int + 1),
{
    let ghost tag = buf@.subrange(8, te as int);
    proof {
        assert(tag.len() == te - 8);
    }
    if te - 8 == 2 {
        let bx = buf[9];
        proof {
            assert(tag[1] == buf@[9]);
        }
        if bx == 70 {
            let tv = tag_cf_vec();
            if range_is(buf, 8, te, tv.as_slice()) {
                match parse_v_u32_exec(buf, te + 1) {
                    Some(p) => if end_at_exec(buf, p.1) {
                        Some(Netmessage::CF(p.0))
                    } else {
                        None
                    },
                    None => None,
                }
            } else {
                None
            }
        } else if bx == 69 {
            let tv = tag_ce_vec();
            if range_is(buf, 8, te, tv.as_slice()) {
                match parse_v_u32_exec(buf, te + 1) {
                    Some(p) => if end_at_exec(buf, p.1) {
                        Some(Netmessage::CE(p.0))
                    } else {
                        None
                    },
                    None => None,
                }
            } else {
                None
            }
        } else if bx == 84 {
            let tv = tag_ct_vec();
            if range_is(buf, 8, te, tv.as_slice()) {
                match parse_v_u32_exec(buf, te + 1) {
                    Some(p) => if end_at_exec(buf, p.1) {
                        Some(Netmessage::CT(p.0))
                    } else {
                        None
                    },
                    None => None,
                }
            } else {
                None
            }
        } else {
            None
        }
    } else {
        None
    }
}

/// Decode the messages whose tag begins with `E`.
#[verifier::rlimit(50)]
fn dec_group_e(buf: &[u8], te: usize) -> (r: Option<Netmessage>)
    requires
        8 <= te < buf@.len(),
        buf@.len() <= usize::MAX,
    ensures
        r == dispatch_e(buf@.subrange(8, te as int), buf@, te as int + 1),
{
    let ghost tag = buf@.subrange(8, te as int);
    proof {
        assert(tag.len() == te - 8);
    }
    if te - 8 == 10 {
        let tv = tag_edge_detect_vec();
        if range_is(buf, 8, te, tv.as_slice()) {
            match parse_v_bool_exec(buf, te + 1) {
                Some(p) => if end_at_exec(buf, p.1) {
                    Some(Netmessage::EdgeDetect(p.0))
                } else {
                    None
                },
                None => None,
            }
        } else {
            None
        }
    } else if te - 8 == 11 {
        let tv = tag_edge_dropped_vec();
        if range_is(buf, 8, te, tv.as_slice()) {
            match parse_v_bool_exec(buf, te + 1) {
                Some(p) => if end_at_exec(buf, p.1) {
                    Some(Netmessage::EdgeDropped(p.0))
                } else {
                    None
                },
                None => None,
            }
        } else {
            None
        }
    } else {
        None
    }
}

/// Decode the messages whose tag begins with `D`.
#[verifier::rlimit(50)]
fn dec_group_d(buf: &[u8], te: usize) -> (r: Option<Netmessage>)
    requires
        8 <= te < buf@.len(),
        buf@.len() <= usize::MAX,
    ensures
        r == dispatch_d(buf@.subrange(8, te as int), buf@, te as int + 1),
{
    let ghost tag = buf@.subrange(8, te as int);
    proof {
        assert(tag.len() == te - 8);
    }
    if te - 8 == 7 {
        let tv = tag_dropped_vec();
        if range_is(buf, 8, te, tv.as_slice()) {
            match parse_v_bool_exec(buf, te + 1) {
                Some(p) => if end_at_exec(buf, p.1) {
                    Some(Netmessage::Dropped(p.0))
                } else {
                    None
                },
                None => None,
            }
        } else {
            None
        }
    } else if te - 8 == 8 {
        let tv = tag_distance_vec();
        if range_is(buf, 8, te, tv.as_slice()) {
            match parse_v_u32_exec(buf, te + 1) {
                Some(p) => if end_at_exec(buf, p.1) {
                    Some(Netmessage::Distance(p.0))
                } else {
                    None
                },
                None => None,
            }
        } else {
            None
        }
    } else {
        None
    }
}

/// Decode a canonical JSON message, as `spec_decode_netmessage`
/// describes: `Some` exactly on the canonical encodings.
#[verifier::rlimit(50)]
pub fn decode_netmessage(buf: &[u8]) -> (r: Option<Netmessage>)
    ensures
        r == spec_decode_netmessage(buf@),
{
    let lo = lit_tag_open_vec();
    if !bytes_at(buf, 0, lo.as_slice()) {
        return None;
    }
    let te = find_quote(buf, 8);
    if te >= buf.len() {
        return None;
    }
    let ghost tag = buf@.subrange(8, te as int);
    proof {
        assert(tag.len() == te - 8);
    }
    if te == 8 {
        return None;
    }
    let b0 = buf[8];
    proof {
        assert(tag[0] == buf@[8]);
    }
    if b0 == 72 {
        let tv = tag_heartbeat_vec();
        if range_is(buf, 8, te, tv.as_slice()) {
            if end_at_exec(buf, te + 1) {
                Some(Netmessage::Heartbeat)
            } else {
                None
            }
        } else {
            None
        }
    } else if b0 == 82 {
        dec_group_r(buf, te)
    } else if b0 == 78 {
        dec_group_n(buf, te)
    } else if b0 == 74 {
        dec_group_j(buf, te)
    } else if b0 == 67 {
        dec_group_c(buf, te)
    } else if b0 == 83 {
        let tv = tag_stopped_vec();
        if range_is(buf, 8, te, tv.as_slice()) {
            match parse_v_bool_exec(buf, te + 1) {
                Some(p) => if end_at_exec(buf, p.1) {
                    Some(Netmessage::Stopped(p.0))
                } else {
                    None
                },
                None => None,
            }
        } else {
            None
        }
    } else if b0 == 69 {
        dec_group_e(buf, te)
    } else if b0 == 68 {
        dec_group_d(buf, te)
    } else if b0 == 71 {
        let tv = tag_grabbed_vec();
        if range_is(buf, 8, te, tv.as_slice()) {
            match parse_v_bool_exec(buf, te + 1) {
                Some(p) => if end_at_exec(buf, p.1) {
                    Some(Netmessage::Grabbed(p.0))
                } else {
                    None
                },
                None => None,
            }
        } else {
            None
        }
    } else if b0 == 73 {
        let tv = tag_in_position_vec();
        if range_is(buf, 8, te, tv.as_slice()) {
            match parse_v_bool_exec(buf, te + 1) {
                Some(p) => if end_at_exec(buf, p.1) {
                    Some(Netmessage::InPosition(p.0))
                } else {
                    None
                },
                None => None,
            }
        } else {
            None
        }
    } else if b0 == 77 {
        let tv = tag_movement_vec();
        if range_is(buf, 8, te, tv.as_slice()) {
            match parse_xy_exec(buf, te + 1) {
                Some(p) => if end_at_exec(buf, p.2) {
                    Some(Netmessage::Movement { x: p.0, y: p.1 })
                } else {
                    None
                },
                None => None,
            }
        } else {
            None
        }
    } else if b0 == 87 {
        let tv = tag_world_vec();
        if range_is(buf, 8, te, tv.as_slice()) {
            match parse_world_exec(buf, te + 1) {
                Some(p) => if end_at_exec(buf, p.2) {
                    Some(Netmessage::World { frame: p.0, piece: p.1 })
                } else {
                    None
                },
                None => None,
            }
        } else {
            None
        }
    } else {
        None
    }
}


// ---------------------------------------------------------------------
// Round trip: every encoded message decodes back to itself.
// ---------------------------------------------------------------------

/// The encoded coordinate members parse back to their point.
proof fn lemma_parse_xyv_at(s: Seq<u8>, i: int, p: Point)
    requires
        0 <= i,
        i + enc_xyv(p).len() <= s.len(),
        forall|t: int| 0 <= t < enc_xyv(p).len() ==> s[i + t] == #[trigger] enc_xyv(p)[t],
        i + enc_xyv(p).len() == s.len() || !is_digit(s[i + enc_xyv(p).len()]),
    ensures
        parse_xyv(s, i) == Some((p, i + enc_xyv(p).len() as int)),
{
    let e = enc_xyv(p);
    let dx = dec_u32(p.x).len() as int;
    let dy = dec_u32(p.y).len() as int;
    let dv = dec_u32(p.v).len() as int;
    assert(e == lit_f_x() + dec_u32(p.x) + lit_f_y() + dec_u32(p.y) + lit_f_v() + dec_u32(p.v));
    assert forall|t: int| 0 <= t < 5 implies s[i + t] == lit_f_x()[t] by {
        assert(e[t] == lit_f_x()[t]);
        assert(s[i + t] == e[t]);
    }
    lemma_has_lit(s, i, lit_f_x());
    assert forall|t: int| 0 <= t < dx implies s[i + 5 + t] == #[trigger] dec_u32(p.x)[t] by {
        assert(e[5 + t] == dec_u32(p.x)[t]);
        assert(s[i + 5 + t] == e[5 + t]);
    }
    assert(e[5 + dx] == 44);
    assert(s[i + 5 + dx] == e[5 + dx]);
    lemma_parse_u32_at(s, i + 5, p.x);
    assert forall|t: int| 0 <= t < 5 implies s[i + 5 + dx + t] == lit_f_y()[t] by {
        assert(e[5 + dx + t] == lit_f_y()[t]);
        assert(s[i + 5 + dx + t] == e[5 + dx + t]);
    }
    lemma_has_lit(s, i + 5 + dx, lit_f_y());
    assert forall|t: int| 0 <= t < dy implies s[i + 5 + dx + 5 + t] == #[trigger] dec_u32(p.y)[t] by {
        assert(e[5 + dx + 5 + t] == dec_u32(p.y)[t]);
        assert(s[i + 5 + dx + 5 + t] == e[5 + dx + 5 + t]);
    }
    assert(e[5 + dx + 5 + dy] == 44);
    assert(s[i + 5 + dx + 5 + dy] == e[5 + dx + 5 + dy]);
    lemma_parse_u32_at(s, i + 5 + dx + 5, p.y);
    assert forall|t: int| 0 <= t < 5 implies s[i + 5 + dx + 5 + dy + t] == lit_f_v()[t] by {
        assert(e[5 + dx + 5 + dy + t] == lit_f_v()[t]);
        assert(s[i + 5 + dx + 5 + dy + t] == e[5 + dx + 5 + dy + t]);
    }
    lemma_has_lit(s, i + 5 + dx + 5 + dy, lit_f_v());
    assert forall|t: int| 0 <= t < dv implies s[i + 5 + dx + 5 + dy + 5 + t] == #[trigger] dec_u32(p.v)[t] by {
        assert(e[5 + dx + 5 + dy + 5 + t] == dec_u32(p.v)[t]);
        assert(s[i + 5 + dx + 5 + dy + 5 + t] == e[5 + dx + 5 + dy + 5 + t]);
    }
    lemma_parse_u32_at(s, i + 5 + dx + 5 + dy + 5, p.v);
}

/// The encoded `a`-prefixed endpoint members parse back to their
/// endpoint.
proof fn lemma_parse_ep_a_at(s: Seq<u8>, i: int, ep: EndPoint)
    requires
        0 <= i,
        i + enc_ep_a(ep).len() <= s.len(),
        forall|t: int| 0 <= t < enc_ep_a(ep).len() ==> s[i + t] == #[trigger] enc_ep_a(
            ep,
        )[t],
    ensures
        parse_ep_a(s, i) == Some((ep, i + enc_ep_a(ep).len() as int)),
{
    let e = enc_ep_a(ep);
    let dx = dec_u32(ep.point.x).len() as int;
    let dy = dec_u32(ep.point.y).len() as int;
    let dv = dec_u32(ep.point.v).len() as int;
    let bo = enc_bool(ep.open).len() as int;
    assert(e == lit_f_ax() + dec_u32(ep.point.x) + lit_f_ay() + dec_u32(ep.point.y)
        + lit_f_av() + dec_u32(ep.point.v) + lit_f_ao() + enc_bool(ep.open));
    assert forall|t: int| 0 <= t < 6 implies s[i + t] == lit_f_ax()[t] by {
        assert(e[t] == lit_f_ax()[t]);
        assert(s[i + t] == e[t]);
    }
    lemma_has_lit(s, i, lit_f_ax());
    assert forall|t: int| 0 <= t < dx implies s[i + 6 + t] == #[trigger] dec_u32(ep.point.x)[t] by {
        assert(e[6 + t] == dec_u32(ep.point.x)[t]);
        assert(s[i + 6 + t] == e[6 + t]);
    }
    assert(e[6 + dx] == 44);
    assert(s[i + 6 + dx] == e[6 + dx]);
    lemma_parse_u32_at(s, i + 6, ep.point.x);
    assert forall|t: int| 0 <= t < 6 implies s[i + 6 + dx + t] == lit_f_ay()[t] by {
        assert(e[6 + dx + t] == lit_f_ay()[t]);
        assert(s[i + 6 + dx + t] == e[6 + dx + t]);
    }
    lemma_has_lit(s, i + 6 + dx, lit_f_ay());
    assert forall|t: int| 0 <= t < dy implies s[i + 6 + dx + 6 + t] == #[trigger] dec_u32(ep.point.y)[t] by {
        assert(e[6 + dx + 6 + t] == dec_u32(ep.point.y)[t]);
        assert(s[i + 6 + dx + 6 + t] == e[6 + dx + 6 + t]);
    }
    assert(e[6 + dx + 6 + dy] == 44);
    assert(s[i + 6 + dx + 6 + dy] == e[6 + dx + 6 + dy]);
    lemma_parse_u32_at(s, i + 6 + dx + 6, ep.point.y);
    assert forall|t: int| 0 <= t < 6 implies s[i + 6 + dx + 6 + dy + t] == lit_f_av()[t] by {
        assert(e[6 + dx + 6 + dy + t] == lit_f_av()[t]);
        assert(s[i + 6 + dx + 6 + dy + t] == e[6 + dx + 6 + dy + t]);
    }
    lemma_has_lit(s, i + 6 + dx + 6 + dy, lit_f_av());
    assert forall|t: int| 0 <= t < dv implies s[i + 6 + dx + 6 + dy + 6 + t] == #[trigger] dec_u32(ep.point.v)[t] by {
        assert(e[6 + dx + 6 + dy + 6 + t] == dec_u32(ep.point.v)[t]);
        assert(s[i + 6 + dx + 6 + dy + 6 + t] == e[6 + dx + 6 + dy + 6 + t]);
    }
    assert(e[6 + dx + 6 + dy + 6 + dv] == 44);
    assert(s[i + 6 + dx + 6 + dy + 6 + dv] == e[6 + dx + 6 + dy + 6 + dv]);
    lemma_parse_u32_at(s, i + 6 + dx + 6 + dy + 6, ep.point.v);
    assert forall|t: int| 0 <= t < 6 implies s[i + 6 + dx + 6 + dy + 6 + dv + t] == lit_f_ao()[t] by {
        assert(e[6 + dx + 6 + dy + 6 + dv + t] == lit_f_ao()[t]);
        assert(s[i + 6 + dx + 6 + dy + 6 + dv + t] == e[6 + dx + 6 + dy + 6 + dv + t]);
    }
    lemma_has_lit(s, i + 6 + dx + 6 + dy + 6 + dv, lit_f_ao());
    assert forall|t: int| 0 <= t < bo implies s[i + 6 + dx + 6 + dy + 6 + dv + 6 + t] == #[trigger] enc_bool(ep.open)[t] by {
        assert(e[6 + dx + 6 + dy + 6 + dv + 6 + t] == enc_bool(ep.open)[t]);
        assert(s[i + 6 + dx + 6 + dy + 6 + dv + 6 + t] == e[6 + dx + 6 + dy + 6 + dv + 6 + t]);
    }
    lemma_parse_bool_at(s, i + 6 + dx + 6 + dy + 6 + dv + 6, ep.open);
}

/// The encoded `b`-prefixed endpoint members parse back to their
/// endpoint.
proof fn lemma_parse_ep_b_at(s: Seq<u8>, i: int, ep: EndPoint)
    requires
        0 <= i,
        i + enc_ep_b(ep).len() <= s.len(),
        forall|t: int| 0 <= t < enc_ep_b(ep).len() ==> s[i + t] == #[trigger] enc_ep_b(
            ep,
        )[t],
    ensures
        parse_ep_b(s, i) == Some((ep, i + enc_ep_b(ep).len() as int)),
{
    let e = enc_ep_b(ep);
    let dx = dec_u32(ep.point.x).len() as int;
    let dy = dec_u32(ep.point.y).len() as int;
    let dv = dec_u32(ep.point.v).len() as int;
    let bo = enc_bool(ep.open).len() as int;
    assert(e == lit_f_bx() + dec_u32(ep.point.x) + lit_f_by() + dec_u32(ep.point.y)
        + lit_f_bv() + dec_u32(ep.point.v) + lit_f_bo() + enc_bool(ep.open));
    assert forall|t: int| 0 <= t < 6 implies s[i + t] == lit_f_bx()[t] by {
        assert(e[t] == lit_f_bx()[t]);
        assert(s[i + t] == e[t]);
    }
    lemma_has_lit(s, i, lit_f_bx());
    assert forall|t: int| 0 <= t < dx implies s[i + 6 + t] == #[trigger] dec_u32(ep.point.x)[t] by {
        assert(e[6 + t] == dec_u32(ep.point.x)[t]);
        assert(s[i + 6 + t] == e[6 + t]);
    }
    assert(e[6 + dx] == 44);
    assert(s[i + 6 + dx] == e[6 + dx]);
    lemma_parse_u32_at(s, i + 6, ep.point.x);
    assert forall|t: int| 0 <= t < 6 implies s[i + 6 + dx + t] == lit_f_by()[t] by {
        assert(e[6 + dx + t] == lit_f_by()[t]);
        assert(s[i + 6 + dx + t] == e[6 + dx + t]);
    }
    lemma_has_lit(s, i + 6 + dx, lit_f_by());
    assert forall|t: int| 0 <= t < dy implies s[i + 6 + dx + 6 + t] == #[trigger] dec_u32(ep.point.y)[t] by {
        assert(e[6 + dx + 6 + t] == dec_u32(ep.point.y)[t]);
        assert(s[i + 6 + dx + 6 + t] == e[6 + dx + 6 + t]);
    }
    assert(e[6 + dx + 6 + dy] == 44);
    assert(s[i + 6 + dx + 6 + dy] == e[6 + dx + 6 + dy]);
    lemma_parse_u32_at(s, i + 6 + dx + 6, ep.point.y);
    assert forall|t: int| 0 <= t < 6 implies s[i + 6 + dx + 6 + dy + t] == lit_f_bv()[t] by {
        assert(e[6 + dx + 6 + dy + t] == lit_f_bv()[t]);
        assert(s[i + 6 + dx + 6 + dy + t] == e[6 + dx + 6 + dy + t]);
    }
    lemma_has_lit(s, i + 6 + dx + 6 + dy, lit_f_bv());
    assert forall|t: int| 0 <= t < dv implies s[i + 6 + dx + 6 + dy + 6 + t] == #[trigger] dec_u32(ep.point.v)[t] by {
        assert(e[6 + dx + 6 + dy + 6 + t] == dec_u32(ep.point.v)[t]);
        assert(s[i + 6 + dx + 6 + dy + 6 + t] == e[6 + dx + 6 + dy + 6 + t]);
    }
    assert(e[6 + dx + 6 + dy + 6 + dv] == 44);
    assert(s[i + 6 + dx + 6 + dy + 6 + dv] == e[6 + dx + 6 + dy + 6 + dv]);
    lemma_parse_u32_at(s, i + 6 + dx + 6 + dy + 6, ep.point.v);
    assert forall|t: int| 0 <= t < 6 implies s[i + 6 + dx + 6 + dy + 6 + dv + t] == lit_f_bo()[t] by {
        assert(e[6 + dx + 6 + dy + 6 + dv + t] == lit_f_bo()[t]);
        assert(s[i + 6 + dx + 6 + dy + 6 + dv + t] == e[6 + dx + 6 + dy + 6 + dv + t]);
    }
    lemma_has_lit(s, i + 6 + dx + 6 + dy + 6 + dv, lit_f_bo());
    assert forall|t: int| 0 <= t < bo implies s[i + 6 + dx + 6 + dy + 6 + dv + 6 + t] == #[trigger] enc_bool(ep.open)[t] by {
        assert(e[6 + dx + 6 + dy + 6 + dv + 6 + t] == enc_bool(ep.open)[t]);
        assert(s[i + 6 + dx + 6 + dy + 6 + dv + 6 + t] == e[6 + dx + 6 + dy + 6 + dv + 6 + t]);
    }
    lemma_parse_bool_at(s, i + 6 + dx + 6 + dy + 6 + dv + 6, ep.open);
}

/// An encoded `Total` piece parses back to itself.
#[verifier::rlimit(100)]
#[verifier::spinoff_prover]
proof fn lemma_parse_piece_total_at(s: Seq<u8>, i: int, n: u32)
    requires
        0 <= i,
        i + enc_piece(WorldPiece::Total(n)).len() <= s.len(),
        forall|t: int| 0 <= t < enc_piece(WorldPiece::Total(n)).len() ==> s[i + t] == #[trigger] enc_piece(
            WorldPiece::Total(n),
        )[t],
    ensures
        parse_piece(s, i) == Some((WorldPiece::Total(n), i + enc_piece(WorldPiece::Total(n)).len() as int)),
{
    let p = WorldPiece::Total(n);
    let e = enc_piece(p);
    lemma_ptag_total_bytes();
    assert forall|t: int| i <= t < i + 5 implies s[t] != 34 by {
        assert(s[t] == e[t - i]);
        assert(e[t - i] == ptag_total()[t - i]);
    }
    assert(e[5] == 34);
    assert(s[i + 5] == e[5]);
    lemma_quote_end_here(s, i, i + 5);
    assert forall|t: int| 0 <= t < 5 implies s.subrange(i, i + 5)[t] == ptag_total()[t] by {
        assert(s[i + t] == e[t]);
        assert(e[t] == ptag_total()[t]);
    }
    assert(s.subrange(i, i + 5) =~= ptag_total());
    let dn = dec_u32(n).len() as int;
    assert(e == ptag_total() + lit_q() + lit_f_n() + dec_u32(n) + lit_rb());
    let j = i + 6;
    assert forall|t: int| 0 <= t < 5 implies s[j + t] == lit_f_n()[t] by {
        assert(e[6 + t] == lit_f_n()[t]);
        assert(s[j + t] == e[6 + t]);
    }
    lemma_has_lit(s, j, lit_f_n());
    assert forall|t: int| 0 <= t < dn implies s[j + 5 + t] == #[trigger] dec_u32(n)[t] by {
        assert(e[11 + t] == dec_u32(n)[t]);
        assert(s[j + 5 + t] == e[11 + t]);
    }
    assert(e[11 + dn] == 125);
    assert(s[j + 5 + dn] == e[11 + dn]);
    lemma_parse_u32_at(s, j + 5, n);
    assert(brace_at(s, j + 5 + dn));
}

/// An encoded `ArenaBorder` piece parses back to itself.
#[verifier::rlimit(100)]
#[verifier::spinoff_prover]
proof fn lemma_parse_piece_arena_border_at(s: Seq<u8>, i: int, p0: EndPoint, p1: EndPoint)
    requires
        0 <= i,
        i + enc_piece(WorldPiece::ArenaBorder { p0, p1 }).len() <= s.len(),
        forall|t: int| 0 <= t < enc_piece(WorldPiece::ArenaBorder { p0, p1 }).len() ==> s[i + t] == #[trigger] enc_piece(
            WorldPiece::ArenaBorder { p0, p1 },
        )[t],
    ensures
        parse_piece(s, i) == Some((WorldPiece::ArenaBorder { p0, p1 }, i + enc_piece(WorldPiece::ArenaBorder { p0, p1 }).len() as int)),
{
    let p = WorldPiece::ArenaBorder { p0, p1 };
    let e = enc_piece(p);
    lemma_ptag_arena_border_bytes();
    assert forall|t: int| i <= t < i + 11 implies s[t] != 34 by {
        assert(s[t] == e[t - i]);
        assert(e[t - i] == ptag_arena_border()[t - i]);
    }
    assert(e[11] == 34);
    assert(s[i + 11] == e[11]);
    lemma_quote_end_here(s, i, i + 11);
    assert forall|t: int| 0 <= t < 11 implies s.subrange(i, i + 11)[t] == ptag_arena_border()[t] by {
        assert(s[i + t] == e[t]);
        assert(e[t] == ptag_arena_border()[t]);
    }
    assert(s.subrange(i, i + 11) =~= ptag_arena_border());
    assert(e == ptag_arena_border() + lit_q() + enc_ep_a(p0) + enc_ep_b(p1) + lit_rb());
    let la = enc_ep_a(p0).len() as int;
    let lb = enc_ep_b(p1).len() as int;
    let j = i + 12;
    assert forall|t: int| 0 <= t < la implies s[j + t] == #[trigger] enc_ep_a(p0)[t] by {
        assert(e[12 + t] == enc_ep_a(p0)[t]);
        assert(s[j + t] == e[12 + t]);
    }
    lemma_parse_ep_a_at(s, j, p0);
    assert forall|t: int| 0 <= t < lb implies s[j + la + t] == #[trigger] enc_ep_b(p1)[t] by {
        assert(e[12 + la + t] == enc_ep_b(p1)[t]);
        assert(s[j + la + t] == e[12 + la + t]);
    }
    lemma_parse_ep_b_at(s, j + la, p1);
    assert(e[12 + la + lb] == 125);
    assert(s[j + la + lb] == e[12 + la + lb]);
    assert(brace_at(s, j + la + lb));
}

/// An encoded `VisibilityBorder` piece parses back to itself.
#[verifier::rlimit(100)]
#[verifier::spinoff_prover]
proof fn lemma_parse_piece_visibility_border_at(s: Seq<u8>, i: int, p0: EndPoint, p1: EndPoint)
    requires
        0 <= i,
        i + enc_piece(WorldPiece::VisibilityBorder { p0, p1 }).len() <= s.len(),
        forall|t: int| 0 <= t < enc_piece(WorldPiece::VisibilityBorder { p0, p1 }).len() ==> s[i + t] == #[trigger] enc_piece(
            WorldPiece::VisibilityBorder { p0, p1 },
        )[t],
    ensures
        parse_piece(s, i) == Some((WorldPiece::VisibilityBorder { p0, p1 }, i + enc_piece(WorldPiece::VisibilityBorder { p0, p1 }).len() as int)),
{
    let p = WorldPiece::VisibilityBorder { p0, p1 };
    let e = enc_piece(p);
    lemma_ptag_visibility_border_bytes();
    assert forall|t: int| i <= t < i + 16 implies s[t] != 34 by {
        assert(s[t] == e[t - i]);
        assert(e[t - i] == ptag_visibility_border()[t - i]);
    }
    assert(e[16] == 34);
    assert(s[i + 16] == e[16]);
    lemma_quote_end_here(s, i, i + 16);
    assert forall|t: int| 0 <= t < 16 implies s.subrange(i, i + 16)[t] == ptag_visibility_border()[t] by {
        assert(s[i + t] == e[t]);
        assert(e[t] == ptag_visibility_border()[t]);
    }
    assert(s.subrange(i, i + 16) =~= ptag_visibility_border());
    assert(e == ptag_visibility_border() + lit_q() + enc_ep_a(p0) + enc_ep_b(p1) + lit_rb());
    let la = enc_ep_a(p0).len() as int;
    let lb = enc_ep_b(p1).len() as int;
    let j = i + 17;
    assert forall|t: int| 0 <= t < la implies s[j + t] == #[trigger] enc_ep_a(p0)[t] by {
        assert(e[17 + t] == enc_ep_a(p0)[t]);
        assert(s[j + t] == e[17 + t]);
    }
    lemma_parse_ep_a_at(s, j, p0);
    assert forall|t: int| 0 <= t < lb implies s[j + la + t] == #[trigger] enc_ep_b(p1)[t] by {
        assert(e[17 + la + t] == enc_ep_b(p1)[t]);
        assert(s[j + la + t] == e[17 + la + t]);
    }
    lemma_parse_ep_b_at(s, j + la, p1);
    assert(e[17 + la + lb] == 125);
    assert(s[j + la + lb] == e[17 + la + lb]);
    assert(brace_at(s, j + la + lb));
}

/// An encoded `ObjectBorder` piece parses back to itself.
#[verifier::rlimit(100)]
#[verifier::spinoff_prover]
proof fn lemma_parse_piece_object_border_at(s: Seq<u8>, i: int, p0: EndPoint, p1: EndPoint)
    requires
        0 <= i,
        i + enc_piece(WorldPiece::ObjectBorder { p0, p1 }).len() <= s.len(),
        forall|t: int| 0 <= t < enc_piece(WorldPiece::ObjectBorder { p0, p1 }).len() ==> s[i + t] == #[trigger] enc_piece(
            WorldPiece::ObjectBorder { p0, p1 },
        )[t],
    ensures
        parse_piece(s, i) == Some((WorldPiece::ObjectBorder { p0, p1 }, i + enc_piece(WorldPiece::ObjectBorder { p0, p1 }).len() as int)),
{
    let p = WorldPiece::ObjectBorder { p0, p1 };
    let e = enc_piece(p);
    lemma_ptag_object_border_bytes();
    assert forall|t: int| i <= t < i + 12 implies s[t] != 34 by {
        assert(s[t] == e[t - i]);
        assert(e[t - i] == ptag_object_border()[t - i]);
    }
    assert(e[12] == 34);
    assert(s[i + 12] == e[12]);
    lemma_quote_end_here(s, i, i + 12);
    assert forall|t: int| 0 <= t < 12 implies s.subrange(i, i + 12)[t] == ptag_object_border()[t] by {
        assert(s[i + t] == e[t]);
        assert(e[t] == ptag_object_border()[t]);
    }
    assert(s.subrange(i, i + 12) =~= ptag_object_border());
    assert(e == ptag_object_border() + lit_q() + enc_ep_a(p0) + enc_ep_b(p1) + lit_rb());
    let la = enc_ep_a(p0).len() as int;
    let lb = enc_ep_b(p1).len() as int;
    let j = i + 13;
    assert forall|t: int| 0 <= t < la implies s[j + t] == #[trigger] enc_ep_a(p0)[t] by {
        assert(e[13 + t] == enc_ep_a(p0)[t]);
        assert(s[j + t] == e[13 + t]);
    }
    lemma_parse_ep_a_at(s, j, p0);
    assert forall|t: int| 0 <= t < lb implies s[j + la + t] == #[trigger] enc_ep_b(p1)[t] by {
        assert(e[13 + la + t] == enc_ep_b(p1)[t]);
        assert(s[j + la + t] == e[13 + la + t]);
    }
    lemma_parse_ep_b_at(s, j + la, p1);
    assert(e[13 + la + lb] == 125);
    assert(s[j + la + lb] == e[13 + la + lb]);
    assert(brace_at(s, j + la + lb));
}

/// An encoded `Target` piece parses back to itself.
#[verifier::rlimit(100)]
#[verifier::spinoff_prover]
proof fn lemma_parse_piece_target_at(s: Seq<u8>, i: int, pt: Point)
    requires
        0 <= i,
        i + enc_piece(WorldPiece::Target(pt)).len() <= s.len(),
        forall|t: int| 0 <= t < enc_piece(WorldPiece::Target(pt)).len() ==> s[i + t] == #[trigger] enc_piece(
            WorldPiece::Target(pt),
        )[t],
    ensures
        parse_piece(s, i) == Some((WorldPiece::Target(pt), i + enc_piece(WorldPiece::Target(pt)).len() as int)),
{
    let p = WorldPiece::Target(pt);
    let e = enc_piece(p);
    lemma_ptag_target_bytes();
    assert forall|t: int| i <= t < i + 6 implies s[t] != 34 by {
        assert(s[t] == e[t - i]);
        assert(e[t - i] == ptag_target()[t - i]);
    }
    assert(e[6] == 34);
    assert(s[i + 6] == e[6]);
    lemma_quote_end_here(s, i, i + 6);
    assert forall|t: int| 0 <= t < 6 implies s.subrange(i, i + 6)[t] == ptag_target()[t] by {
        assert(s[i + t] == e[t]);
        assert(e[t] == ptag_target()[t]);
    }
    assert(s.subrange(i, i + 6) =~= ptag_target());
    assert(e == ptag_target() + lit_q() + enc_xyv(pt) + lit_rb());
    let lx = enc_xyv(pt).len() as int;
    let j = i + 7;
    assert forall|t: int| 0 <= t < lx implies s[j + t] == #[trigger] enc_xyv(pt)[t] by {
        assert(e[7 + t] == enc_xyv(pt)[t]);
        assert(s[j + t] == e[7 + t]);
    }
    assert(e[7 + lx] == 125);
    assert(s[j + lx] == e[7 + lx]);
    lemma_parse_xyv_at(s, j, pt);
    assert(brace_at(s, j + lx));
}

/// An encoded `RoverA` piece parses back to itself.
#[verifier::rlimit(100)]
#[verifier::spinoff_prover]
proof fn lemma_parse_piece_rover_a_at(s: Seq<u8>, i: int, ep: EndPoint)
    requires
        0 <= i,
        i + enc_piece(WorldPiece::RoverA(ep)).len() <= s.len(),
        forall|t: int| 0 <= t < enc_piece(WorldPiece::RoverA(ep)).len() ==> s[i + t] == #[trigger] enc_piece(
            WorldPiece::RoverA(ep),
        )[t],
    ensures
        parse_piece(s, i) == Some((WorldPiece::RoverA(ep), i + enc_piece(WorldPiece::RoverA(ep)).len() as int)),
{
    let p = WorldPiece::RoverA(ep);
    let e = enc_piece(p);
    lemma_ptag_rover_a_bytes();
    assert forall|t: int| i <= t < i + 6 implies s[t] != 34 by {
        assert(s[t] == e[t - i]);
        assert(e[t - i] == ptag_rover_a()[t - i]);
    }
    assert(e[6] == 34);
    assert(s[i + 6] == e[6]);
    lemma_quote_end_here(s, i, i + 6);
    assert forall|t: int| 0 <= t < 6 implies s.subrange(i, i + 6)[t] == ptag_rover_a()[t] by {
        assert(s[i + t] == e[t]);
        assert(e[t] == ptag_rover_a()[t]);
    }
    assert(s.subrange(i, i + 6) =~= ptag_rover_a());
    assert(e == ptag_rover_a() + lit_q() + enc_xyv(ep.point) + lit_f_open() + enc_bool(ep.open)
        + lit_rb());
    let lx = enc_xyv(ep.point).len() as int;
    let bo = enc_bool(ep.open).len() as int;
    let j = i + 7;
    assert forall|t: int| 0 <= t < lx implies s[j + t] == #[trigger] enc_xyv(ep.point)[t] by {
        assert(e[7 + t] == enc_xyv(ep.point)[t]);
        assert(s[j + t] == e[7 + t]);
    }
    assert(e[7 + lx] == 44);
    assert(s[j + lx] == e[7 + lx]);
    lemma_parse_xyv_at(s, j, ep.point);
    assert forall|t: int| 0 <= t < 8 implies s[j + lx + t] == lit_f_open()[t] by {
        assert(e[7 + lx + t] == lit_f_open()[t]);
        assert(s[j + lx + t] == e[7 + lx + t]);
    }
    lemma_has_lit(s, j + lx, lit_f_open());
    assert forall|t: int| 0 <= t < bo implies s[j + lx + 8 + t] == #[trigger] enc_bool(ep.open)[t] by {
        assert(e[7 + lx + 8 + t] == enc_bool(ep.open)[t]);
        assert(s[j + lx + 8 + t] == e[7 + lx + 8 + t]);
    }
    lemma_parse_bool_at(s, j + lx + 8, ep.open);
    assert(e[15 + lx + bo] == 125);
    assert(s[j + lx + 8 + bo] == e[15 + lx + bo]);
    assert(brace_at(s, j + lx + 8 + bo));
}

/// An encoded `RoverB` piece parses back to itself.
#[verifier::rlimit(100)]
#[verifier::spinoff_prover]
proof fn lemma_parse_piece_rover_b_at(s: Seq<u8>, i: int, ep: EndPoint)
    requires
        0 <= i,
        i + enc_piece(WorldPiece::RoverB(ep)).len() <= s.len(),
        forall|t: int| 0 <= t < enc_piece(WorldPiece::RoverB(ep)).len() ==> s[i + t] == #[trigger] enc_piece(
            WorldPiece::RoverB(ep),
        )[t],
    ensures
        parse_piece(s, i) == Some((WorldPiece::RoverB(ep), i + enc_piece(WorldPiece::RoverB(ep)).len() as int)),
{
    let p = WorldPiece::RoverB(ep);
    let e = enc_piece(p);
    lemma_ptag_rover_b_bytes();
    assert forall|t: int| i <= t < i + 6 implies s[t] != 34 by {
        assert(s[t] == e[t - i]);
        assert(e[t - i] == ptag_rover_b()[t - i]);
    }
    assert(e[6] == 34);
    assert(s[i + 6] == e[6]);
    lemma_quote_end_here(s, i, i + 6);
    assert forall|t: int| 0 <= t < 6 implies s.subrange(i, i + 6)[t] == ptag_rover_b()[t] by {
        assert(s[i + t] == e[t]);
        assert(e[t] == ptag_rover_b()[t]);
    }
    assert(s.subrange(i, i + 6) =~= ptag_rover_b());
    assert(e == ptag_rover_b() + lit_q() + enc_xyv(ep.point) + lit_f_open() + enc_bool(ep.open)
        + lit_rb());
    let lx = enc_xyv(ep.point).len() as int;
    let bo = enc_bool(ep.open).len() as int;
    let j = i + 7;
    assert forall|t: int| 0 <= t < lx implies s[j + t] == #[trigger] enc_xyv(ep.point)[t] by {
        assert(e[7 + t] == enc_xyv(ep.point)[t]);
        assert(s[j + t] == e[7 + t]);
    }
    assert(e[7 + lx] == 44);
    assert(s[j + lx] == e[7 + lx]);
    lemma_parse_xyv_at(s, j, ep.point);
    assert forall|t: int| 0 <= t < 8 implies s[j + lx + t] == lit_f_open()[t] by {
        assert(e[7 + lx + t] == lit_f_open()[t]);
        assert(s[j + lx + t] == e[7 + lx + t]);
    }
    lemma_has_lit(s, j + lx, lit_f_open());
    assert forall|t: int| 0 <= t < bo implies s[j + lx + 8 + t] == #[trigger] enc_bool(ep.open)[t] by {
        assert(e[7 + lx + 8 + t] == enc_bool(ep.open)[t]);
        assert(s[j + lx + 8 + t] == e[7 + lx + 8 + t]);
    }
    lemma_parse_bool_at(s, j + lx + 8, ep.open);
    assert(e[15 + lx + bo] == 125);
    assert(s[j + lx + 8 + bo] == e[15 + lx + bo]);
    assert(brace_at(s, j + lx + 8 + bo));
}

/// An encoded world piece parses back to itself.
proof fn lemma_parse_piece_at(s: Seq<u8>, i: int, p: WorldPiece)
    requires
        0 <= i,
        i + enc_piece(p).len() <= s.len(),
        forall|t: int| 0 <= t < enc_piece(p).len() ==> s[i + t] == #[trigger] enc_piece(p)[t],
    ensures
        parse_piece(s, i) == Some((p, i + enc_piece(p).len() as int)),
{
    match p {
        WorldPiece::Total(n) => {
            lemma_parse_piece_total_at(s, i, n);
        }
        WorldPiece::ArenaBorder { p0, p1 } => {
            lemma_parse_piece_arena_border_at(s, i, p0, p1);
        }
        WorldPiece::VisibilityBorder { p0, p1 } => {
            lemma_parse_piece_visibility_border_at(s, i, p0, p1);
        }
        WorldPiece::ObjectBorder { p0, p1 } => {
            lemma_parse_piece_object_border_at(s, i, p0, p1);
        }
        WorldPiece::Target(pt) => {
            lemma_parse_piece_target_at(s, i, pt);
        }
        WorldPiece::RoverA(ep) => {
            lemma_parse_piece_rover_a_at(s, i, ep);
        }
        WorldPiece::RoverB(ep) => {
            lemma_parse_piece_rover_b_at(s, i, ep);
        }
    }
}

/// The payload members of a world message.
pub open spec fn enc_world_body(f: u32, p: WorldPiece) -> Seq<u8> {
    lit_f_frame() + dec_u32(f) + lit_f_piece() + enc_piece(p)
}

/// The encoded world members parse back to their frame and piece.
#[verifier::rlimit(100)]
#[verifier::spinoff_prover]
proof fn lemma_parse_world_at(s: Seq<u8>, i: int, f: u32, p: WorldPiece)
    requires
        0 <= i,
        i + enc_world_body(f, p).len() <= s.len(),
        forall|t: int| 0 <= t < enc_world_body(f, p).len() ==> s[i + t] == #[trigger] enc_world_body(
            f,
            p,
        )[t],
    ensures
        parse_world(s, i) == Some((f, p, i + enc_world_body(f, p).len() as int)),
{
    let e = enc_world_body(f, p);
    let df = dec_u32(f).len() as int;
    let lp = enc_piece(p).len() as int;
    assert(e == lit_f_frame() + dec_u32(f) + lit_f_piece() + enc_piece(p));
    assert forall|t: int| 0 <= t < 9 implies s[i + t] == lit_f_frame()[t] by {
        assert(e[t] == lit_f_frame()[t]);
        assert(s[i + t] == e[t]);
    }
    lemma_has_lit(s, i, lit_f_frame());
    assert forall|t: int| 0 <= t < df implies s[i + 9 + t] == #[trigger] dec_u32(f)[t] by {
        assert(e[9 + t] == dec_u32(f)[t]);
        assert(s[i + 9 + t] == e[9 + t]);
    }
    assert(e[9 + df] == 44);
    assert(s[i + 9 + df] == e[9 + df]);
    lemma_parse_u32_at(s, i + 9, f);
    assert forall|t: int| 0 <= t < 18 implies s[i + 9 + df + t] == lit_f_piece()[t] by {
        assert(e[9 + df + t] == lit_f_piece()[t]);
        assert(s[i + 9 + df + t] == e[9 + df + t]);
    }
    lemma_has_lit(s, i + 9 + df, lit_f_piece());
    assert forall|t: int| 0 <= t < lp implies s[i + 27 + df + t] == #[trigger] enc_piece(p)[t] by {
        assert(e[27 + df + t] == enc_piece(p)[t]);
        assert(s[i + 27 + df + t] == e[27 + df + t]);
    }
    lemma_parse_piece_at(s, i + 27 + df, p);
}


// Per-variant round-trip proofs: each walks the decoder over the
// variant's encoding, member by member.

/// `Netmessage::Heartbeat` survives the encode-decode round trip.
proof fn lemma_rt_heartbeat()
    ensures
        spec_decode_netmessage(spec_encode_netmessage(Netmessage::Heartbeat)) == Some(Netmessage::Heartbeat),
{
    let m = Netmessage::Heartbeat;
    let tg = tag_heartbeat();
    let body = spec_encode_body(m);
    let s = spec_encode_netmessage(m);
    let l = tg.len() as int;
    lemma_tag_heartbeat_bytes();
    assert(s == lit_tag_open() + body + lit_rb());
    assert(body == tag_heartbeat() + lit_q());
    assert forall|t: int| 0 <= t < 8 implies s[t] == lit_tag_open()[t] by {
        assert(s[t] == lit_tag_open()[t]);
    }
    lemma_has_lit(s, 0, lit_tag_open());
    assert forall|t: int| 8 <= t < 8 + l implies s[t] != 34 by {
        assert(s[t] == body[t - 8]);
        assert(body[t - 8] == tg[t - 8]);
    }
    assert(body[l] == 34);
    assert(s[8 + l] == body[l]);
    lemma_quote_end_here(s, 8, 8 + l);
    assert forall|t: int| 0 <= t < l implies s.subrange(8, 8 + l)[t] == tg[t] by {
        assert(s[8 + t] == body[t]);
        assert(body[t] == tg[t]);
    }
    assert(s.subrange(8, 8 + l) =~= tg);
    assert(body.len() == l + 1);
    assert(s[9 + l] == 125);
    assert(end_at(s, 9 + l));
}

/// `Netmessage::ReqNetstats` survives the encode-decode round trip.
proof fn lemma_rt_req_netstats()
    ensures
        spec_decode_netmessage(spec_encode_netmessage(Netmessage::ReqNetstats)) == Some(Netmessage::ReqNetstats),
{
    let m = Netmessage::ReqNetstats;
    let tg = tag_req_netstats();
    let body = spec_encode_body(m);
    let s = spec_encode_netmessage(m);
    let l = tg.len() as int;
    lemma_tag_req_netstats_bytes();
    assert(s == lit_tag_open() + body + lit_rb());
    assert(body == tag_req_netstats() + lit_q());
    assert forall|t: int| 0 <= t < 8 implies s[t] == lit_tag_open()[t] by {
        assert(s[t] == lit_tag_open()[t]);
    }
    lemma_has_lit(s, 0, lit_tag_open());
    assert forall|t: int| 8 <= t < 8 + l implies s[t] != 34 by {
        assert(s[t] == body[t - 8]);
        assert(body[t - 8] == tg[t - 8]);
    }
    assert(body[l] == 34);
    assert(s[8 + l] == body[l]);
    lemma_quote_end_here(s, 8, 8 + l);
    assert forall|t: int| 0 <= t < l implies s.subrange(8, 8 + l)[t] == tg[t] by {
        assert(s[8 + t] == body[t]);
        assert(body[t] == tg[t]);
    }
    assert(s.subrange(8, 8 + l) =~= tg);
    assert(body.len() == l + 1);
    assert(s[9 + l] == 125);
    assert(end_at(s, 9 + l));
}

/// `Netmessage::ReqName` survives the encode-decode round trip.
proof fn lemma_rt_req_name()
    ensures
        spec_decode_netmessage(spec_encode_netmessage(Netmessage::ReqName)) == Some(Netmessage::ReqName),
{
    let m = Netmessage::ReqName;
    let tg = tag_req_name();
    let body = spec_encode_body(m);
    let s = spec_encode_netmessage(m);
    let l = tg.len() as int;
    lemma_tag_req_name_bytes();
    assert(s == lit_tag_open() + body + lit_rb());
    assert(body == tag_req_name() + lit_q());
    assert forall|t: int| 0 <= t < 8 implies s[t] == lit_tag_open()[t] by {
        assert(s[t] == lit_tag_open()[t]);
    }
    lemma_has_lit(s, 0, lit_tag_open());
    assert forall|t: int| 8 <= t < 8 + l implies s[t] != 34 by {
        assert(s[t] == body[t - 8]);
        assert(body[t - 8] == tg[t - 8]);
    }
    assert(body[l] == 34);
    assert(s[8 + l] == body[l]);
    lemma_quote_end_here(s, 8, 8 + l);
    assert forall|t: int| 0 <= t < l implies s.subrange(8, 8 + l)[t] == tg[t] by {
        assert(s[8 + t] == body[t]);
        assert(body[t] == tg[t]);
    }
    assert(s.subrange(8, 8 + l) =~= tg);
    assert(body.len() == l + 1);
    assert(s[9 + l] == 125);
    assert(end_at(s, 9 + l));
}

/// `Netmessage::NameGeordon` survives the encode-decode round trip.
proof fn lemma_rt_name_geordon()
    ensures
        spec_decode_netmessage(spec_encode_netmessage(Netmessage::NameGeordon)) == Some(Netmessage::NameGeordon),
{
    let m = Netmessage::NameGeordon;
    let tg = tag_name_geordon();
    let body = spec_encode_body(m);
    let s = spec_encode_netmessage(m);
    let l = tg.len() as int;
    lemma_tag_name_geordon_bytes();
    assert(s == lit_tag_open() + body + lit_rb());
    assert(body == tag_name_geordon() + lit_q());
    assert forall|t: int| 0 <= t < 8 implies s[t] == lit_tag_open()[t] by {
        assert(s[t] == lit_tag_open()[t]);
    }
    lemma_has_lit(s, 0, lit_tag_open());
    assert forall|t: int| 8 <= t < 8 + l implies s[t] != 34 by {
        assert(s[t] == body[t - 8]);
        assert(body[t - 8] == tg[t - 8]);
    }
    assert(body[l] == 34);
    assert(s[8 + l] == body[l]);
    lemma_quote_end_here(s, 8, 8 + l);
    assert forall|t: int| 0 <= t < l implies s.subrange(8, 8 + l)[t] == tg[t] by {
        assert(s[8 + t] == body[t]);
        assert(body[t] == tg[t]);
    }
    assert(s.subrange(8, 8 + l) =~= tg);
    assert(body.len() == l + 1);
    assert(s[9 + l] == 125);
    assert(end_at(s, 9 + l));
}

/// `Netmessage::NameJosh` survives the encode-decode round trip.
proof fn lemma_rt_name_josh()
    ensures
        spec_decode_netmessage(spec_encode_netmessage(Netmessage::NameJosh)) == Some(Netmessage::NameJosh),
{
    let m = Netmessage::NameJosh;
    let tg = tag_name_josh();
    let body = spec_encode_body(m);
    let s = spec_encode_netmessage(m);
    let l = tg.len() as int;
    lemma_tag_name_josh_bytes();
    assert(s == lit_tag_open() + body + lit_rb());
    assert(body == tag_name_josh() + lit_q());
    assert forall|t: int| 0 <= t < 8 implies s[t] == lit_tag_open()[t] by {
        assert(s[t] == lit_tag_open()[t]);
    }
    lemma_has_lit(s, 0, lit_tag_open());
    assert forall|t: int| 8 <= t < 8 + l implies s[t] != 34 by {
        assert(s[t] == body[t - 8]);
        assert(body[t - 8] == tg[t - 8]);
    }
    assert(body[l] == 34);
    assert(s[8 + l] == body[l]);
    lemma_quote_end_here(s, 8, 8 + l);
    assert forall|t: int| 0 <= t < l implies s.subrange(8, 8 + l)[t] == tg[t] by {
        assert(s[8 + t] == body[t]);
        assert(body[t] == tg[t]);
    }
    assert(s.subrange(8, 8 + l) =~= tg);
    assert(body.len() == l + 1);
    assert(s[9 + l] == 125);
    assert(end_at(s, 9 + l));
}

/// `Netmessage::NameJoe` survives the encode-decode round trip.
proof fn lemma_rt_name_joe()
    ensures
        spec_decode_netmessage(spec_encode_netmessage(Netmessage::NameJoe)) == Some(Netmessage::NameJoe),
{
    let m = Netmessage::NameJoe;
    let tg = tag_name_joe();
    let body = spec_encode_body(m);
    let s = spec_encode_netmessage(m);
    let l = tg.len() as int;
    lemma_tag_name_joe_bytes();
    assert(s == lit_tag_open() + body + lit_rb());
    assert(body == tag_name_joe() + lit_q());
    assert forall|t: int| 0 <= t < 8 implies s[t] == lit_tag_open()[t] by {
        assert(s[t] == lit_tag_open()[t]);
    }
    lemma_has_lit(s, 0, lit_tag_open());
    assert forall|t: int| 8 <= t < 8 + l implies s[t] != 34 by {
        assert(s[t] == body[t - 8]);
        assert(body[t - 8] == tg[t - 8]);
    }
    assert(body[l] == 34);
    assert(s[8 + l] == body[l]);
    lemma_quote_end_here(s, 8, 8 + l);
    assert forall|t: int| 0 <= t < l implies s.subrange(8, 8 + l)[t] == tg[t] by {
        assert(s[8 + t] == body[t]);
        assert(body[t] == tg[t]);
    }
    assert(s.subrange(8, 8 + l) =~= tg);
    assert(body.len() == l + 1);
    assert(s[9 + l] == 125);
    assert(end_at(s, 9 + l));
}

/// `Netmessage::NameZach` survives the encode-decode round trip.
proof fn lemma_rt_name_zach()
    ensures
        spec_decode_netmessage(spec_encode_netmessage(Netmessage::NameZach)) == Some(Netmessage::NameZach),
{
    let m = Netmessage::NameZach;
    let tg = tag_name_zach();
    let body = spec_encode_body(m);
    let s = spec_encode_netmessage(m);
    let l = tg.len() as int;
    lemma_tag_name_zach_bytes();
    assert(s == lit_tag_open() + body + lit_rb());
    assert(body == tag_name_zach() + lit_q());
    assert forall|t: int| 0 <= t < 8 implies s[t] == lit_tag_open()[t] by {
        assert(s[t] == lit_tag_open()[t]);
    }
    lemma_has_lit(s, 0, lit_tag_open());
    assert forall|t: int| 8 <= t < 8 + l implies s[t] != 34 by {
        assert(s[t] == body[t - 8]);
        assert(body[t - 8] == tg[t - 8]);
    }
    assert(body[l] == 34);
    assert(s[8 + l] == body[l]);
    lemma_quote_end_here(s, 8, 8 + l);
    assert forall|t: int| 0 <= t < l implies s.subrange(8, 8 + l)[t] == tg[t] by {
        assert(s[8 + t] == body[t]);
        assert(body[t] == tg[t]);
    }
    assert(s.subrange(8, 8 + l) =~= tg);
    assert(body.len() == l + 1);
    assert(s[9 + l] == 125);
    assert(end_at(s, 9 + l));
}

/// `Netmessage::NameDebugGeordon` survives the encode-decode round trip.
proof fn lemma_rt_name_debug_geordon()
    ensures
        spec_decode_netmessage(spec_encode_netmessage(Netmessage::NameDebugGeordon)) == Some(Netmessage::NameDebugGeordon),
{
    let m = Netmessage::NameDebugGeordon;
    let tg = tag_name_debug_geordon();
    let body = spec_encode_body(m);
    let s = spec_encode_netmessage(m);
    let l = tg.len() as int;
    lemma_tag_name_debug_geordon_bytes();
    assert(s == lit_tag_open() + body + lit_rb());
    assert(body == tag_name_debug_geordon() + lit_q());
    assert forall|t: int| 0 <= t < 8 implies s[t] == lit_tag_open()[t] by {
        assert(s[t] == lit_tag_open()[t]);
    }
    lemma_has_lit(s, 0, lit_tag_open());
    assert forall|t: int| 8 <= t < 8 + l implies s[t] != 34 by {
        assert(s[t] == body[t - 8]);
        assert(body[t - 8] == tg[t - 8]);
    }
    assert(body[l] == 34);
    assert(s[8 + l] == body[l]);
    lemma_quote_end_here(s, 8, 8 + l);
    assert forall|t: int| 0 <= t < l implies s.subrange(8, 8 + l)[t] == tg[t] by {
        assert(s[8 + t] == body[t]);
        assert(body[t] == tg[t]);
    }
    assert(s.subrange(8, 8 + l) =~= tg);
    assert(body.len() == l + 1);
    assert(s[9 + l] == 125);
    assert(end_at(s, 9 + l));
}

/// `Netmessage::NameDebugJosh` survives the encode-decode round trip.
proof fn lemma_rt_name_debug_josh()
    ensures
        spec_decode_netmessage(spec_encode_netmessage(Netmessage::NameDebugJosh)) == Some(Netmessage::NameDebugJosh),
{
    let m = Netmessage::NameDebugJosh;
    let tg = tag_name_debug_josh();
    let body = spec_encode_body(m);
    let s = spec_encode_netmessage(m);
    let l = tg.len() as int;
    lemma_tag_name_debug_josh_bytes();
    assert(s == lit_tag_open() + body + lit_rb());
    assert(body == tag_name_debug_josh() + lit_q());
    assert forall|t: int| 0 <= t < 8 implies s[t] == lit_tag_open()[t] by {
        assert(s[t] == lit_tag_open()[t]);
    }
    lemma_has_lit(s, 0, lit_tag_open());
    assert forall|t: int| 8 <= t < 8 + l implies s[t] != 34 by {
        assert(s[t] == body[t - 8]);
        assert(body[t - 8] == tg[t - 8]);
    }
    assert(body[l] == 34);
    assert(s[8 + l] == body[l]);
    lemma_quote_end_here(s, 8, 8 + l);
    assert forall|t: int| 0 <= t < l implies s.subrange(8, 8 + l)[t] == tg[t] by {
        assert(s[8 + t] == body[t]);
        assert(body[t] == tg[t]);
    }
    assert(s.subrange(8, 8 + l) =~= tg);
    assert(body.len() == l + 1);
    assert(s[9 + l] == 125);
    assert(end_at(s, 9 + l));
}

/// `Netmessage::NameDebugJoe` survives the encode-decode round trip.
proof fn lemma_rt_name_debug_joe()
    ensures
        spec_decode_netmessage(spec_encode_netmessage(Netmessage::NameDebugJoe)) == Some(Netmessage::NameDebugJoe),
{
    let m = Netmessage::NameDebugJoe;
    let tg = tag_name_debug_joe();
    let body = spec_encode_body(m);
    let s = spec_encode_netmessage(m);
    let l = tg.len() as int;
    lemma_tag_name_debug_joe_bytes();
    assert(s == lit_tag_open() + body + lit_rb());
    assert(body == tag_name_debug_joe() + lit_q());
    assert forall|t: int| 0 <= t < 8 implies s[t] == lit_tag_open()[t] by {
        assert(s[t] == lit_tag_open()[t]);
    }
    lemma_has_lit(s, 0, lit_tag_open());
    assert forall|t: int| 8 <= t < 8 + l implies s[t] != 34 by {
        assert(s[t] == body[t - 8]);
        assert(body[t - 8] == tg[t - 8]);
    }
    assert(body[l] == 34);
    assert(s[8 + l] == body[l]);
    lemma_quote_end_here(s, 8, 8 + l);
    assert forall|t: int| 0 <= t < l implies s.subrange(8, 8 + l)[t] == tg[t] by {
        assert(s[8 + t] == body[t]);
        assert(body[t] == tg[t]);
    }
    assert(s.subrange(8, 8 + l) =~= tg);
    assert(body.len() == l + 1);
    assert(s[9 + l] == 125);
    assert(end_at(s, 9 + l));
}

/// `Netmessage::NameDebugZach` survives the encode-decode round trip.
proof fn lemma_rt_name_debug_zach()
    ensures
        spec_decode_netmessage(spec_encode_netmessage(Netmessage::NameDebugZach)) == Some(Netmessage::NameDebugZach),
{
    let m = Netmessage::NameDebugZach;
    let tg = tag_name_debug_zach();
    let body = spec_encode_body(m);
    let s = spec_encode_netmessage(m);
    let l = tg.len() as int;
    lemma_tag_name_debug_zach_bytes();
    assert(s == lit_tag_open() + body + lit_rb());
    assert(body == tag_name_debug_zach() + lit_q());
    assert forall|t: int| 0 <= t < 8 implies s[t] == lit_tag_open()[t] by {
        assert(s[t] == lit_tag_open()[t]);
    }
    lemma_has_lit(s, 0, lit_tag_open());
    assert forall|t: int| 8 <= t < 8 + l implies s[t] != 34 by {
        assert(s[t] == body[t - 8]);
        assert(body[t - 8] == tg[t - 8]);
    }
    assert(body[l] == 34);
    assert(s[8 + l] == body[l]);
    lemma_quote_end_here(s, 8, 8 + l);
    assert forall|t: int| 0 <= t < l implies s.subrange(8, 8 + l)[t] == tg[t] by {
        assert(s[8 + t] == body[t]);
        assert(body[t] == tg[t]);
    }
    assert(s.subrange(8, 8 + l) =~= tg);
    assert(body.len() == l + 1);
    assert(s[9 + l] == 125);
    assert(end_at(s, 9 + l));
}

/// `Netmessage::ReqMovement` survives the encode-decode round trip.
proof fn lemma_rt_req_movement()
    ensures
        spec_decode_netmessage(spec_encode_netmessage(Netmessage::ReqMovement)) == Some(Netmessage::ReqMovement),
{
    let m = Netmessage::ReqMovement;
    let tg = tag_req_movement();
    let body = spec_encode_body(m);
    let s = spec_encode_netmessage(m);
    let l = tg.len() as int;
    lemma_tag_req_movement_bytes();
    assert(s == lit_tag_open() + body + lit_rb());
    assert(body == tag_req_movement() + lit_q());
    assert forall|t: int| 0 <= t < 8 implies s[t] == lit_tag_open()[t] by {
        assert(s[t] == lit_tag_open()[t]);
    }
    lemma_has_lit(s, 0, lit_tag_open());
    assert forall|t: int| 8 <= t < 8 + l implies s[t] != 34 by {
        assert(s[t] == body[t - 8]);
        assert(body[t - 8] == tg[t - 8]);
    }
    assert(body[l] == 34);
    assert(s[8 + l] == body[l]);
    lemma_quote_end_here(s, 8, 8 + l);
    assert forall|t: int| 0 <= t < l implies s.subrange(8, 8 + l)[t] == tg[t] by {
        assert(s[8 + t] == body[t]);
        assert(body[t] == tg[t]);
    }
    assert(s.subrange(8, 8 + l) =~= tg);
    assert(body.len() == l + 1);
    assert(s[9 + l] == 125);
    assert(end_at(s, 9 + l));
}

/// `Netmessage::ReqInPosition` survives the encode-decode round trip.
proof fn lemma_rt_req_in_position()
    ensures
        spec_decode_netmessage(spec_encode_netmessage(Netmessage::ReqInPosition)) == Some(Netmessage::ReqInPosition),
{
    let m = Netmessage::ReqInPosition;
    let tg = tag_req_in_position();
    let body = spec_encode_body(m);
    let s = spec_encode_netmessage(m);
    let l = tg.len() as int;
    lemma_tag_req_in_position_bytes();
    assert(s == lit_tag_open() + body + lit_rb());
    assert(body == tag_req_in_position() + lit_q());
    assert forall|t: int| 0 <= t < 8 implies s[t] == lit_tag_open()[t] by {
        assert(s[t] == lit_tag_open()[t]);
    }
    lemma_has_lit(s, 0, lit_tag_open());
    assert forall|t: int| 8 <= t < 8 + l implies s[t] != 34 by {
        assert(s[t] == body[t - 8]);
        assert(body[t - 8] == tg[t - 8]);
    }
    assert(body[l] == 34);
    assert(s[8 + l] == body[l]);
    lemma_quote_end_here(s, 8, 8 + l);
    assert forall|t: int| 0 <= t < l implies s.subrange(8, 8 + l)[t] == tg[t] by {
        assert(s[8 + t] == body[t]);
        assert(body[t] == tg[t]);
    }
    assert(s.subrange(8, 8 + l) =~= tg);
    assert(body.len() == l + 1);
    assert(s[9 + l] == 125);
    assert(end_at(s, 9 + l));
}

/// `Netmessage::JoeReqPoints` survives the encode-decode round trip.
proof fn lemma_rt_joe_req_points()
    ensures
        spec_decode_netmessage(spec_encode_netmessage(Netmessage::JoeReqPoints)) == Some(Netmessage::JoeReqPoints),
{
    let m = Netmessage::JoeReqPoints;
    let tg = tag_joe_req_points();
    let body = spec_encode_body(m);
    let s = spec_encode_netmessage(m);
    let l = tg.len() as int;
    lemma_tag_joe_req_points_bytes();
    assert(s == lit_tag_open() + body + lit_rb());
    assert(body == tag_joe_req_points() + lit_q());
    assert forall|t: int| 0 <= t < 8 implies s[t] == lit_tag_open()[t] by {
        assert(s[t] == lit_tag_open()[t]);
    }
    lemma_has_lit(s, 0, lit_tag_open());
    assert forall|t: int| 8 <= t < 8 + l implies s[t] != 34 by {
        assert(s[t] == body[t - 8]);
        assert(body[t - 8] == tg[t - 8]);
    }
    assert(body[l] == 34);
    assert(s[8 + l] == body[l]);
    lemma_quote_end_here(s, 8, 8 + l);
    assert forall|t: int| 0 <= t < l implies s.subrange(8, 8 + l)[t] == tg[t] by {
        assert(s[8 + t] == body[t]);
        assert(body[t] == tg[t]);
    }
    assert(s.subrange(8, 8 + l) =~= tg);
    assert(body.len() == l + 1);
    assert(s[9 + l] == 125);
    assert(end_at(s, 9 + l));
}

/// `Netmessage::JoshReqPoints` survives the encode-decode round trip.
proof fn lemma_rt_josh_req_points()
    ensures
        spec_decode_netmessage(spec_encode_netmessage(Netmessage::JoshReqPoints)) == Some(Netmessage::JoshReqPoints),
{
    let m = Netmessage::JoshReqPoints;
    let tg = tag_josh_req_points();
    let body = spec_encode_body(m);
    let s = spec_encode_netmessage(m);
    let l = tg.len() as int;
    lemma_tag_josh_req_points_bytes();
    assert(s == lit_tag_open() + body + lit_rb());
    assert(body == tag_josh_req_points() + lit_q());
    assert forall|t: int| 0 <= t < 8 implies s[t] == lit_tag_open()[t] by {
        assert(s[t] == lit_tag_open()[t]);
    }
    lemma_has_lit(s, 0, lit_tag_open());
    assert forall|t: int| 8 <= t < 8 + l implies s[t] != 34 by {
        assert(s[t] == body[t - 8]);
        assert(body[t - 8] == tg[t - 8]);
    }
    assert(body[l] == 34);
    assert(s[8 + l] == body[l]);
    lemma_quote_end_here(s, 8, 8 + l);
    assert forall|t: int| 0 <= t < l implies s.subrange(8, 8 + l)[t] == tg[t] by {
        assert(s[8 + t] == body[t]);
        assert(body[t] == tg[t]);
    }
    assert(s.subrange(8, 8 + l) =~= tg);
    assert(body.len() == l + 1);
    assert(s[9 + l] == 125);
    assert(end_at(s, 9 + l));
}

/// `Netmessage::ReqStopped` survives the encode-decode round trip.
proof fn lemma_rt_req_stopped()
    ensures
        spec_decode_netmessage(spec_encode_netmessage(Netmessage::ReqStopped)) == Some(Netmessage::ReqStopped),
{
    let m = Netmessage::ReqStopped;
    let tg = tag_req_stopped();
    let body = spec_encode_body(m);
    let s = spec_encode_netmessage(m);
    let l = tg.len() as int;
    lemma_tag_req_stopped_bytes();
    assert(s == lit_tag_open() + body + lit_rb());
    assert(body == tag_req_stopped() + lit_q());
    assert forall|t: int| 0 <= t < 8 implies s[t] == lit_tag_open()[t] by {
        assert(s[t] == lit_tag_open()[t]);
    }
    lemma_has_lit(s, 0, lit_tag_open());
    assert forall|t: int| 8 <= t < 8 + l implies s[t] != 34 by {
        assert(s[t] == body[t - 8]);
        assert(body[t - 8] == tg[t - 8]);
    }
    assert(body[l] == 34);
    assert(s[8 + l] == body[l]);
    lemma_quote_end_here(s, 8, 8 + l);
    assert forall|t: int| 0 <= t < l implies s.subrange(8, 8 + l)[t] == tg[t] by {
        assert(s[8 + t] == body[t]);
        assert(body[t] == tg[t]);
    }
    assert(s.subrange(8, 8 + l) =~= tg);
    assert(body.len() == l + 1);
    assert(s[9 + l] == 125);
    assert(end_at(s, 9 + l));
}

/// `Netmessage::ReqEdgeDetect` survives the encode-decode round trip.
proof fn lemma_rt_req_edge_detect()
    ensures
        spec_decode_netmessage(spec_encode_netmessage(Netmessage::ReqEdgeDetect)) == Some(Netmessage::ReqEdgeDetect),
{
    let m = Netmessage::ReqEdgeDetect;
    let tg = tag_req_edge_detect();
    let body = spec_encode_body(m);
    let s = spec_encode_netmessage(m);
    let l = tg.len() as int;
    lemma_tag_req_edge_detect_bytes();
    assert(s == lit_tag_open() + body + lit_rb());
    assert(body == tag_req_edge_detect() + lit_q());
    assert forall|t: int| 0 <= t < 8 implies s[t] == lit_tag_open()[t] by {
        assert(s[t] == lit_tag_open()[t]);
    }
    lemma_has_lit(s, 0, lit_tag_open());
    assert forall|t: int| 8 <= t < 8 + l implies s[t] != 34 by {
        assert(s[t] == body[t - 8]);
        assert(body[t - 8] == tg[t - 8]);
    }
    assert(body[l] == 34);
    assert(s[8 + l] == body[l]);
    lemma_quote_end_here(s, 8, 8 + l);
    assert forall|t: int| 0 <= t < l implies s.subrange(8, 8 + l)[t] == tg[t] by {
        assert(s[8 + t] == body[t]);
        assert(body[t] == tg[t]);
    }
    assert(s.subrange(8, 8 + l) =~= tg);
    assert(body.len() == l + 1);
    assert(s[9 + l] == 125);
    assert(end_at(s, 9 + l));
}

/// `Netmessage::ReqEdgeDropped` survives the encode-decode round trip.
proof fn lemma_rt_req_edge_dropped()
    ensures
        spec_decode_netmessage(spec_encode_netmessage(Netmessage::ReqEdgeDropped)) == Some(Netmessage::ReqEdgeDropped),
{
    let m = Netmessage::ReqEdgeDropped;
    let tg = tag_req_edge_dropped();
    let body = spec_encode_body(m);
    let s = spec_encode_netmessage(m);
    let l = tg.len() as int;
    lemma_tag_req_edge_dropped_bytes();
    assert(s == lit_tag_open() + body + lit_rb());
    assert(body == tag_req_edge_dropped() + lit_q());
    assert forall|t: int| 0 <= t < 8 implies s[t] == lit_tag_open()[t] by {
        assert(s[t] == lit_tag_open()[t]);
    }
    lemma_has_lit(s, 0, lit_tag_open());
    assert forall|t: int| 8 <= t < 8 + l implies s[t] != 34 by {
        assert(s[t] == body[t - 8]);
        assert(body[t - 8] == tg[t - 8]);
    }
    assert(body[l] == 34);
    assert(s[8 + l] == body[l]);
    lemma_quote_end_here(s, 8, 8 + l);
    assert forall|t: int| 0 <= t < l implies s.subrange(8, 8 + l)[t] == tg[t] by {
        assert(s[8 + t] == body[t]);
        assert(body[t] == tg[t]);
    }
    assert(s.subrange(8, 8 + l) =~= tg);
    assert(body.len() == l + 1);
    assert(s[9 + l] == 125);
    assert(end_at(s, 9 + l));
}

/// `Netmessage::ReqDistance` survives the encode-decode round trip.
proof fn lemma_rt_req_distance()
    ensures
        spec_decode_netmessage(spec_encode_netmessage(Netmessage::ReqDistance)) == Some(Netmessage::ReqDistance),
{
    let m = Netmessage::ReqDistance;
    let tg = tag_req_distance();
    let body = spec_encode_body(m);
    let s = spec_encode_netmessage(m);
    let l = tg.len() as int;
    lemma_tag_req_distance_bytes();
    assert(s == lit_tag_open() + body + lit_rb());
    assert(body == tag_req_distance() + lit_q());
    assert forall|t: int| 0 <= t < 8 implies s[t] == lit_tag_open()[t] by {
        assert(s[t] == lit_tag_open()[t]);
    }
    lemma_has_lit(s, 0, lit_tag_open());
    assert forall|t: int| 8 <= t < 8 + l implies s[t] != 34 by {
        assert(s[t] == body[t - 8]);
        assert(body[t - 8] == tg[t - 8]);
    }
    assert(body[l] == 34);
    assert(s[8 + l] == body[l]);
    lemma_quote_end_here(s, 8, 8 + l);
    assert forall|t: int| 0 <= t < l implies s.subrange(8, 8 + l)[t] == tg[t] by {
        assert(s[8 + t] == body[t]);
        assert(body[t] == tg[t]);
    }
    assert(s.subrange(8, 8 + l) =~= tg);
    assert(body.len() == l + 1);
    assert(s[9 + l] == 125);
    assert(end_at(s, 9 + l));
}

/// `Netmessage::ReqGrabbed` survives the encode-decode round trip.
proof fn lemma_rt_req_grabbed()
    ensures
        spec_decode_netmessage(spec_encode_netmessage(Netmessage::ReqGrabbed)) == Some(Netmessage::ReqGrabbed),
{
    let m = Netmessage::ReqGrabbed;
    let tg = tag_req_grabbed();
    let body = spec_encode_body(m);
    let s = spec_encode_netmessage(m);
    let l = tg.len() as int;
    lemma_tag_req_grabbed_bytes();
    assert(s == lit_tag_open() + body + lit_rb());
    assert(body == tag_req_grabbed() + lit_q());
    assert forall|t: int| 0 <= t < 8 implies s[t] == lit_tag_open()[t] by {
        assert(s[t] == lit_tag_open()[t]);
    }
    lemma_has_lit(s, 0, lit_tag_open());
    assert forall|t: int| 8 <= t < 8 + l implies s[t] != 34 by {
        assert(s[t] == body[t - 8]);
        assert(body[t - 8] == tg[t - 8]);
    }
    assert(body[l] == 34);
    assert(s[8 + l] == body[l]);
    lemma_quote_end_here(s, 8, 8 + l);
    assert forall|t: int| 0 <= t < l implies s.subrange(8, 8 + l)[t] == tg[t] by {
        assert(s[8 + t] == body[t]);
        assert(body[t] == tg[t]);
    }
    assert(s.subrange(8, 8 + l) =~= tg);
    assert(body.len() == l + 1);
    assert(s[9 + l] == 125);
    assert(end_at(s, 9 + l));
}

/// `Netmessage::ReqDropped` survives the encode-decode round trip.
proof fn lemma_rt_req_dropped()
    ensures
        spec_decode_netmessage(spec_encode_netmessage(Netmessage::ReqDropped)) == Some(Netmessage::ReqDropped),
{
    let m = Netmessage::ReqDropped;
    let tg = tag_req_dropped();
    let body = spec_encode_body(m);
    let s = spec_encode_netmessage(m);
    let l = tg.len() as int;
    lemma_tag_req_dropped_bytes();
    assert(s == lit_tag_open() + body + lit_rb());
    assert(body == tag_req_dropped() + lit_q());
    assert forall|t: int| 0 <= t < 8 implies s[t] == lit_tag_open()[t] by {
        assert(s[t] == lit_tag_open()[t]);
    }
    lemma_has_lit(s, 0, lit_tag_open());
    assert forall|t: int| 8 <= t < 8 + l implies s[t] != 34 by {
        assert(s[t] == body[t - 8]);
        assert(body[t - 8] == tg[t - 8]);
    }
    assert(body[l] == 34);
    assert(s[8 + l] == body[l]);
    lemma_quote_end_here(s, 8, 8 + l);
    assert forall|t: int| 0 <= t < l implies s.subrange(8, 8 + l)[t] == tg[t] by {
        assert(s[8 + t] == body[t]);
        assert(body[t] == tg[t]);
    }
    assert(s.subrange(8, 8 + l) =~= tg);
    assert(body.len() == l + 1);
    assert(s[9 + l] == 125);
    assert(end_at(s, 9 + l));
}

/// `Netmessage::JF(v)` survives the encode-decode round trip.
#[verifier::rlimit(50)]
proof fn lemma_rt_jf(v: u32)
    ensures
        spec_decode_netmessage(spec_encode_netmessage(Netmessage::JF(v))) == Some(Netmessage::JF(v)),
{
    let m = Netmessage::JF(v);
    let tg = tag_jf();
    let body = spec_encode_body(m);
    let s = spec_encode_netmessage(m);
    let l = tg.len() as int;
    lemma_tag_jf_bytes();
    assert(s == lit_tag_open() + body + lit_rb());
    assert(body == tag_jf() + lit_q() + lit_f_v() + dec_u32(v));
    assert forall|t: int| 0 <= t < 8 implies s[t] == lit_tag_open()[t] by {
        assert(s[t] == lit_tag_open()[t]);
    }
    lemma_has_lit(s, 0, lit_tag_open());
    assert forall|t: int| 8 <= t < 8 + l implies s[t] != 34 by {
        assert(s[t] == body[t - 8]);
        assert(body[t - 8] == tg[t - 8]);
    }
    assert(body[l] == 34);
    assert(s[8 + l] == body[l]);
    lemma_quote_end_here(s, 8, 8 + l);
    assert forall|t: int| 0 <= t < l implies s.subrange(8, 8 + l)[t] == tg[t] by {
        assert(s[8 + t] == body[t]);
        assert(body[t] == tg[t]);
    }
    assert(s.subrange(8, 8 + l) =~= tg);
    let i = 9 + l;
    let dv = dec_u32(v).len() as int;
    assert forall|t: int| 0 <= t < 5 implies s[i + t] == lit_f_v()[t] by {
        assert(body[l + 1 + t] == lit_f_v()[t]);
        assert(s[i + t] == body[l + 1 + t]);
    }
    lemma_has_lit(s, i, lit_f_v());
    assert forall|t: int| 0 <= t < dv implies s[i + 5 + t] == #[trigger] dec_u32(v)[t] by {
        assert(body[l + 6 + t] == dec_u32(v)[t]);
        assert(s[i + 5 + t] == body[l + 6 + t]);
    }
    assert(s[i + 5 + dv] == 125);
    lemma_parse_u32_at(s, i + 5, v);
    assert(end_at(s, i + 5 + dv));
}

/// `Netmessage::JE(v)` survives the encode-decode round trip.
#[verifier::rlimit(50)]
proof fn lemma_rt_je(v: u32)
    ensures
        spec_decode_netmessage(spec_encode_netmessage(Netmessage::JE(v))) == Some(Netmessage::JE(v)),
{
    let m = Netmessage::JE(v);
    let tg = tag_je();
    let body = spec_encode_body(m);
    let s = spec_encode_netmessage(m);
    let l = tg.len() as int;
    lemma_tag_je_bytes();
    assert(s == lit_tag_open() + body + lit_rb());
    assert(body == tag_je() + lit_q() + lit_f_v() + dec_u32(v));
    assert forall|t: int| 0 <= t < 8 implies s[t] == lit_tag_open()[t] by {
        assert(s[t] == lit_tag_open()[t]);
    }
    lemma_has_lit(s, 0, lit_tag_open());
    assert forall|t: int| 8 <= t < 8 + l implies s[t] != 34 by {
        assert(s[t] == body[t - 8]);
        assert(body[t - 8] == tg[t - 8]);
    }
    assert(body[l] == 34);
    assert(s[8 + l] == body[l]);
    lemma_quote_end_here(s, 8, 8 + l);
    assert forall|t: int| 0 <= t < l implies s.subrange(8, 8 + l)[t] == tg[t] by {
        assert(s[8 + t] == body[t]);
        assert(body[t] == tg[t]);
    }
    assert(s.subrange(8, 8 + l) =~= tg);
    let i = 9 + l;
    let dv = dec_u32(v).len() as int;
    assert forall|t: int| 0 <= t < 5 implies s[i + t] == lit_f_v()[t] by {
        assert(body[l + 1 + t] == lit_f_v()[t]);
        assert(s[i + t] == body[l + 1 + t]);
    }
    lemma_has_lit(s, i, lit_f_v());
    assert forall|t: int| 0 <= t < dv implies s[i + 5 + t] == #[trigger] dec_u32(v)[t] by {
        assert(body[l + 6 + t] == dec_u32(v)[t]);
        assert(s[i + 5 + t] == body[l + 6 + t]);
    }
    assert(s[i + 5 + dv] == 125);
    lemma_parse_u32_at(s, i + 5, v);
    assert(end_at(s, i + 5 + dv));
}

/// `Netmessage::CF(v)` survives the encode-decode round trip.
#[verifier::rlimit(50)]
proof fn lemma_rt_cf(v: u32)
    ensures
        spec_decode_netmessage(spec_encode_netmessage(Netmessage::CF(v))) == Some(Netmessage::CF(v)),
{
    let m = Netmessage::CF(v);
    let tg = tag_cf();
    let body = spec_encode_body(m);
    let s = spec_encode_netmessage(m);
    let l = tg.len() as int;
    lemma_tag_cf_bytes();
    assert(s == lit_tag_open() + body + lit_rb());
    assert(body == tag_cf() + lit_q() + lit_f_v() + dec_u32(v));
    assert forall|t: int| 0 <= t < 8 implies s[t] == lit_tag_open()[t] by {
        assert(s[t] == lit_tag_open()[t]);
    }
    lemma_has_lit(s, 0, lit_tag_open());
    assert forall|t: int| 8 <= t < 8 + l implies s[t] != 34 by {
        assert(s[t] == body[t - 8]);
        assert(body[t - 8] == tg[t - 8]);
    }
    assert(body[l] == 34);
    assert(s[8 + l] == body[l]);
    lemma_quote_end_here(s, 8, 8 + l);
    assert forall|t: int| 0 <= t < l implies s.subrange(8, 8 + l)[t] == tg[t] by {
        assert(s[8 + t] == body[t]);
        assert(body[t] == tg[t]);
    }
    assert(s.subrange(8, 8 + l) =~= tg);
    let i = 9 + l;
    let dv = dec_u32(v).len() as int;
    assert forall|t: int| 0 <= t < 5 implies s[i + t] == lit_f_v()[t] by {
        assert(body[l + 1 + t] == lit_f_v()[t]);
        assert(s[i + t] == body[l + 1 + t]);
    }
    lemma_has_lit(s, i, lit_f_v());
    assert forall|t: int| 0 <= t < dv implies s[i + 5 + t] == #[trigger] dec_u32(v)[t] by {
        assert(body[l + 6 + t] == dec_u32(v)[t]);
        assert(s[i + 5 + t] == body[l + 6 + t]);
    }
    assert(s[i + 5 + dv] == 125);
    lemma_parse_u32_at(s, i + 5, v);
    assert(end_at(s, i + 5 + dv));
}

/// `Netmessage::CE(v)` survives the encode-decode round trip.
#[verifier::rlimit(50)]
proof fn lemma_rt_ce(v: u32)
    ensures
        spec_decode_netmessage(spec_encode_netmessage(Netmessage::CE(v))) == Some(Netmessage::CE(v)),
{
    let m = Netmessage::CE(v);
    let tg = tag_ce();
    let body = spec_encode_body(m);
    let s = spec_encode_netmessage(m);
    let l = tg.len() as int;
    lemma_tag_ce_bytes();
    assert(s == lit_tag_open() + body + lit_rb());
    assert(body == tag_ce() + lit_q() + lit_f_v() + dec_u32(v));
    assert forall|t: int| 0 <= t < 8 implies s[t] == lit_tag_open()[t] by {
        assert(s[t] == lit_tag_open()[t]);
    }
    lemma_has_lit(s, 0, lit_tag_open());
    assert forall|t: int| 8 <= t < 8 + l implies s[t] != 34 by {
        assert(s[t] == body[t - 8]);
        assert(body[t - 8] == tg[t - 8]);
    }
    assert(body[l] == 34);
    assert(s[8 + l] == body[l]);
    lemma_quote_end_here(s, 8, 8 + l);
    assert forall|t: int| 0 <= t < l implies s.subrange(8, 8 + l)[t] == tg[t] by {
        assert(s[8 + t] == body[t]);
        assert(body[t] == tg[t]);
    }
    assert(s.subrange(8, 8 + l) =~= tg);
    let i = 9 + l;
    let dv = dec_u32(v).len() as int;
    assert forall|t: int| 0 <= t < 5 implies s[i + t] == lit_f_v()[t] by {
        assert(body[l + 1 + t] == lit_f_v()[t]);
        assert(s[i + t] == body[l + 1 + t]);
    }
    lemma_has_lit(s, i, lit_f_v());
    assert forall|t: int| 0 <= t < dv implies s[i + 5 + t] == #[trigger] dec_u32(v)[t] by {
        assert(body[l + 6 + t] == dec_u32(v)[t]);
        assert(s[i + 5 + t] == body[l + 6 + t]);
    }
    assert(s[i + 5 + dv] == 125);
    lemma_parse_u32_at(s, i + 5, v);
    assert(end_at(s, i + 5 + dv));
}

/// `Netmessage::CT(v)` survives the encode-decode round trip.
#[verifier::rlimit(50)]
proof fn lemma_rt_ct(v: u32)
    ensures
        spec_decode_netmessage(spec_encode_netmessage(Netmessage::CT(v))) == Some(Netmessage::CT(v)),
{
    let m = Netmessage::CT(v);
    let tg = tag_ct();
    let body = spec_encode_body(m);
    let s = spec_encode_netmessage(m);
    let l = tg.len() as int;
    lemma_tag_ct_bytes();
    assert(s == lit_tag_open() + body + lit_rb());
    assert(body == tag_ct() + lit_q() + lit_f_v() + dec_u32(v));
    assert forall|t: int| 0 <= t < 8 implies s[t] == lit_tag_open()[t] by {
        assert(s[t] == lit_tag_open()[t]);
    }
    lemma_has_lit(s, 0, lit_tag_open());
    assert forall|t: int| 8 <= t < 8 + l implies s[t] != 34 by {
        assert(s[t] == body[t - 8]);
        assert(body[t - 8] == tg[t - 8]);
    }
    assert(body[l] == 34);
    assert(s[8 + l] == body[l]);
    lemma_quote_end_here(s, 8, 8 + l);
    assert forall|t: int| 0 <= t < l implies s.subrange(8, 8 + l)[t] == tg[t] by {
        assert(s[8 + t] == body[t]);
        assert(body[t] == tg[t]);
    }
    assert(s.subrange(8, 8 + l) =~= tg);
    let i = 9 + l;
    let dv = dec_u32(v).len() as int;
    assert forall|t: int| 0 <= t < 5 implies s[i + t] == lit_f_v()[t] by {
        assert(body[l + 1 + t] == lit_f_v()[t]);
        assert(s[i + t] == body[l + 1 + t]);
    }
    lemma_has_lit(s, i, lit_f_v());
    assert forall|t: int| 0 <= t < dv implies s[i + 5 + t] == #[trigger] dec_u32(v)[t] by {
        assert(body[l + 6 + t] == dec_u32(v)[t]);
        assert(s[i + 5 + t] == body[l + 6 + t]);
    }
    assert(s[i + 5 + dv] == 125);
    lemma_parse_u32_at(s, i + 5, v);
    assert(end_at(s, i + 5 + dv));
}

/// `Netmessage::Distance(v)` survives the encode-decode round trip.
#[verifier::rlimit(50)]
proof fn lemma_rt_distance(v: u32)
    ensures
        spec_decode_netmessage(spec_encode_netmessage(Netmessage::Distance(v))) == Some(Netmessage::Distance(v)),
{
    let m = Netmessage::Distance(v);
    let tg = tag_distance();
    let body = spec_encode_body(m);
    let s = spec_encode_netmessage(m);
    let l = tg.len() as int;
    lemma_tag_distance_bytes();
    assert(s == lit_tag_open() + body + lit_rb());
    assert(body == tag_distance() + lit_q() + lit_f_v() + dec_u32(v));
    assert forall|t: int| 0 <= t < 8 implies s[t] == lit_tag_open()[t] by {
        assert(s[t] == lit_tag_open()[t]);
    }
    lemma_has_lit(s, 0, lit_tag_open());
    assert forall|t: int| 8 <= t < 8 + l implies s[t] != 34 by {
        assert(s[t] == body[t - 8]);
        assert(body[t - 8] == tg[t - 8]);
    }
    assert(body[l] == 34);
    assert(s[8 + l] == body[l]);
    lemma_quote_end_here(s, 8, 8 + l);
    assert forall|t: int| 0 <= t < l implies s.subrange(8, 8 + l)[t] == tg[t] by {
        assert(s[8 + t] == body[t]);
        assert(body[t] == tg[t]);
    }
    assert(s.subrange(8, 8 + l) =~= tg);
    let i = 9 + l;
    let dv = dec_u32(v).len() as int;
    assert forall|t: int| 0 <= t < 5 implies s[i + t] == lit_f_v()[t] by {
        assert(body[l + 1 + t] == lit_f_v()[t]);
        assert(s[i + t] == body[l + 1 + t]);
    }
    lemma_has_lit(s, i, lit_f_v());
    assert forall|t: int| 0 <= t < dv implies s[i + 5 + t] == #[trigger] dec_u32(v)[t] by {
        assert(body[l + 6 + t] == dec_u32(v)[t]);
        assert(s[i + 5 + t] == body[l + 6 + t]);
    }
    assert(s[i + 5 + dv] == 125);
    lemma_parse_u32_at(s, i + 5, v);
    assert(end_at(s, i + 5 + dv));
}

/// `Netmessage::Stopped(b)` survives the encode-decode round trip.
#[verifier::rlimit(50)]
proof fn lemma_rt_stopped(b: bool)
    ensures
        spec_decode_netmessage(spec_encode_netmessage(Netmessage::Stopped(b))) == Some(Netmessage::Stopped(b)),
{
    let m = Netmessage::Stopped(b);
    let tg = tag_stopped();
    let body = spec_encode_body(m);
    let s = spec_encode_netmessage(m);
    let l = tg.len() as int;
    lemma_tag_stopped_bytes();
    assert(s == lit_tag_open() + body + lit_rb());
    assert(body == tag_stopped() + lit_q() + lit_f_v() + enc_bool(b));
    assert forall|t: int| 0 <= t < 8 implies s[t] == lit_tag_open()[t] by {
        assert(s[t] == lit_tag_open()[t]);
    }
    lemma_has_lit(s, 0, lit_tag_open());
    assert forall|t: int| 8 <= t < 8 + l implies s[t] != 34 by {
        assert(s[t] == body[t - 8]);
        assert(body[t - 8] == tg[t - 8]);
    }
    assert(body[l] == 34);
    assert(s[8 + l] == body[l]);
    lemma_quote_end_here(s, 8, 8 + l);
    assert forall|t: int| 0 <= t < l implies s.subrange(8, 8 + l)[t] == tg[t] by {
        assert(s[8 + t] == body[t]);
        assert(body[t] == tg[t]);
    }
    assert(s.subrange(8, 8 + l) =~= tg);
    let i = 9 + l;
    let dv = enc_bool(b).len() as int;
    assert forall|t: int| 0 <= t < 5 implies s[i + t] == lit_f_v()[t] by {
        assert(body[l + 1 + t] == lit_f_v()[t]);
        assert(s[i + t] == body[l + 1 + t]);
    }
    lemma_has_lit(s, i, lit_f_v());
    assert forall|t: int| 0 <= t < dv implies s[i + 5 + t] == #[trigger] enc_bool(b)[t] by {
        assert(body[l + 6 + t] == enc_bool(b)[t]);
        assert(s[i + 5 + t] == body[l + 6 + t]);
    }
    assert(s[i + 5 + dv] == 125);
    lemma_parse_bool_at(s, i + 5, b);
    assert(end_at(s, i + 5 + dv));
}

/// `Netmessage::EdgeDetect(b)` survives the encode-decode round trip.
#[verifier::rlimit(50)]
proof fn lemma_rt_edge_detect(b: bool)
    ensures
        spec_decode_netmessage(spec_encode_netmessage(Netmessage::EdgeDetect(b))) == Some(Netmessage::EdgeDetect(b)),
{
    let m = Netmessage::EdgeDetect(b);
    let tg = tag_edge_detect();
    let body = spec_encode_body(m);
    let s = spec_encode_netmessage(m);
    let l = tg.len() as int;
    lemma_tag_edge_detect_bytes();
    assert(s == lit_tag_open() + body + lit_rb());
    assert(body == tag_edge_detect() + lit_q() + lit_f_v() + enc_bool(b));
    assert forall|t: int| 0 <= t < 8 implies s[t] == lit_tag_open()[t] by {
        assert(s[t] == lit_tag_open()[t]);
    }
    lemma_has_lit(s, 0, lit_tag_open());
    assert forall|t: int| 8 <= t < 8 + l implies s[t] != 34 by {
        assert(s[t] == body[t - 8]);
        assert(body[t - 8] == tg[t - 8]);
    }
    assert(body[l] == 34);
    assert(s[8 + l] == body[l]);
    lemma_quote_end_here(s, 8, 8 + l);
    assert forall|t: int| 0 <= t < l implies s.subrange(8, 8 + l)[t] == tg[t] by {
        assert(s[8 + t] == body[t]);
        assert(body[t] == tg[t]);
    }
    assert(s.subrange(8, 8 + l) =~= tg);
    let i = 9 + l;
    let dv = enc_bool(b).len() as int;
    assert forall|t: int| 0 <= t < 5 implies s[i + t] == lit_f_v()[t] by {
        assert(body[l + 1 + t] == lit_f_v()[t]);
        assert(s[i + t] == body[l + 1 + t]);
    }
    lemma_has_lit(s, i, lit_f_v());
    assert forall|t: int| 0 <= t < dv implies s[i + 5 + t] == #[trigger] enc_bool(b)[t] by {
        assert(body[l + 6 + t] == enc_bool(b)[t]);
        assert(s[i + 5 + t] == body[l + 6 + t]);
    }
    assert(s[i + 5 + dv] == 125);
    lemma_parse_bool_at(s, i + 5, b);
    assert(end_at(s, i + 5 + dv));
}

/// `Netmessage::EdgeDropped(b)` survives the encode-decode round trip.
#[verifier::rlimit(50)]
proof fn lemma_rt_edge_dropped(b: bool)
    ensures
        spec_decode_netmessage(spec_encode_netmessage(Netmessage::EdgeDropped(b))) == Some(Netmessage::EdgeDropped(b)),
{
    let m = Netmessage::EdgeDropped(b);
    let tg = tag_edge_dropped();
    let body = spec_encode_body(m);
    let s = spec_encode_netmessage(m);
    let l = tg.len() as int;
    lemma_tag_edge_dropped_bytes();
    assert(s == lit_tag_open() + body + lit_rb());
    assert(body == tag_edge_dropped() + lit_q() + lit_f_v() + enc_bool(b));
    assert forall|t: int| 0 <= t < 8 implies s[t] == lit_tag_open()[t] by {
        assert(s[t] == lit_tag_open()[t]);
    }
    lemma_has_lit(s, 0, lit_tag_open());
    assert forall|t: int| 8 <= t < 8 + l implies s[t] != 34 by {
        assert(s[t] == body[t - 8]);
        assert(body[t - 8] == tg[t - 8]);
    }
    assert(body[l] == 34);
    assert(s[8 + l] == body[l]);
    lemma_quote_end_here(s, 8, 8 + l);
    assert forall|t: int| 0 <= t < l implies s.subrange(8, 8 + l)[t] == tg[t] by {
        assert(s[8 + t] == body[t]);
        assert(body[t] == tg[t]);
    }
    assert(s.subrange(8, 8 + l) =~= tg);
    let i = 9 + l;
    let dv = enc_bool(b).len() as int;
    assert forall|t: int| 0 <= t < 5 implies s[i + t] == lit_f_v()[t] by {
        assert(body[l + 1 + t] == lit_f_v()[t]);
        assert(s[i + t] == body[l + 1 + t]);
    }
    lemma_has_lit(s, i, lit_f_v());
    assert forall|t: int| 0 <= t < dv implies s[i + 5 + t] == #[trigger] enc_bool(b)[t] by {
        assert(body[l + 6 + t] == enc_bool(b)[t]);
        assert(s[i + 5 + t] == body[l + 6 + t]);
    }
    assert(s[i + 5 + dv] == 125);
    lemma_parse_bool_at(s, i + 5, b);
    assert(end_at(s, i + 5 + dv));
}

/// `Netmessage::Grabbed(b)` survives the encode-decode round trip.
#[verifier::rlimit(50)]
proof fn lemma_rt_grabbed(b: bool)
    ensures
        spec_decode_netmessage(spec_encode_netmessage(Netmessage::Grabbed(b))) == Some(Netmessage::Grabbed(b)),
{
    let m = Netmessage::Grabbed(b);
    let tg = tag_grabbed();
    let body = spec_encode_body(m);
    let s = spec_encode_netmessage(m);
    let l = tg.len() as int;
    lemma_tag_grabbed_bytes();
    assert(s == lit_tag_open() + body + lit_rb());
    assert(body == tag_grabbed() + lit_q() + lit_f_v() + enc_bool(b));
    assert forall|t: int| 0 <= t < 8 implies s[t] == lit_tag_open()[t] by {
        assert(s[t] == lit_tag_open()[t]);
    }
    lemma_has_lit(s, 0, lit_tag_open());
    assert forall|t: int| 8 <= t < 8 + l implies s[t] != 34 by {
        assert(s[t] == body[t - 8]);
        assert(body[t - 8] == tg[t - 8]);
    }
    assert(body[l] == 34);
    assert(s[8 + l] == body[l]);
    lemma_quote_end_here(s, 8, 8 + l);
    assert forall|t: int| 0 <= t < l implies s.subrange(8, 8 + l)[t] == tg[t] by {
        assert(s[8 + t] == body[t]);
        assert(body[t] == tg[t]);
    }
    assert(s.subrange(8, 8 + l) =~= tg);
    let i = 9 + l;
    let dv = enc_bool(b).len() as int;
    assert forall|t: int| 0 <= t < 5 implies s[i + t] == lit_f_v()[t] by {
        assert(body[l + 1 + t] == lit_f_v()[t]);
        assert(s[i + t] == body[l + 1 + t]);
    }
    lemma_has_lit(s, i, lit_f_v());
    assert forall|t: int| 0 <= t < dv implies s[i + 5 + t] == #[trigger] enc_bool(b)[t] by {
        assert(body[l + 6 + t] == enc_bool(b)[t]);
        assert(s[i + 5 + t] == body[l + 6 + t]);
    }
    assert(s[i + 5 + dv] == 125);
    lemma_parse_bool_at(s, i + 5, b);
    assert(end_at(s, i + 5 + dv));
}

/// `Netmessage::Dropped(b)` survives the encode-decode round trip.
#[verifier::rlimit(50)]
proof fn lemma_rt_dropped(b: bool)
    ensures
        spec_decode_netmessage(spec_encode_netmessage(Netmessage::Dropped(b))) == Some(Netmessage::Dropped(b)),
{
    let m = Netmessage::Dropped(b);
    let tg = tag_dropped();
    let body = spec_encode_body(m);
    let s = spec_encode_netmessage(m);
    let l = tg.len() as int;
    lemma_tag_dropped_bytes();
    assert(s == lit_tag_open() + body + lit_rb());
    assert(body == tag_dropped() + lit_q() + lit_f_v() + enc_bool(b));
    assert forall|t: int| 0 <= t < 8 implies s[t] == lit_tag_open()[t] by {
        assert(s[t] == lit_tag_open()[t]);
    }
    lemma_has_lit(s, 0, lit_tag_open());
    assert forall|t: int| 8 <= t < 8 + l implies s[t] != 34 by {
        assert(s[t] == body[t - 8]);
        assert(body[t - 8] == tg[t - 8]);
    }
    assert(body[l] == 34);
    assert(s[8 + l] == body[l]);
    lemma_quote_end_here(s, 8, 8 + l);
    assert forall|t: int| 0 <= t < l implies s.subrange(8, 8 + l)[t] == tg[t] by {
        assert(s[8 + t] == body[t]);
        assert(body[t] == tg[t]);
    }
    assert(s.subrange(8, 8 + l) =~= tg);
    let i = 9 + l;
    let dv = enc_bool(b).len() as int;
    assert forall|t: int| 0 <= t < 5 implies s[i + t] == lit_f_v()[t] by {
        assert(body[l + 1 + t] == lit_f_v()[t]);
        assert(s[i + t] == body[l + 1 + t]);
    }
    lemma_has_lit(s, i, lit_f_v());
    assert forall|t: int| 0 <= t < dv implies s[i + 5 + t] == #[trigger] enc_bool(b)[t] by {
        assert(body[l + 6 + t] == enc_bool(b)[t]);
        assert(s[i + 5 + t] == body[l + 6 + t]);
    }
    assert(s[i + 5 + dv] == 125);
    lemma_parse_bool_at(s, i + 5, b);
    assert(end_at(s, i + 5 + dv));
}

/// `Netmessage::InPosition(b)` survives the encode-decode round trip.
#[verifier::rlimit(50)]
proof fn lemma_rt_in_position(b: bool)
    ensures
        spec_decode_netmessage(spec_encode_netmessage(Netmessage::InPosition(b))) == Some(Netmessage::InPosition(b)),
{
    let m = Netmessage::InPosition(b);
    let tg = tag_in_position();
    let body = spec_encode_body(m);
    let s = spec_encode_netmessage(m);
    let l = tg.len() as int;
    lemma_tag_in_position_bytes();
    assert(s == lit_tag_open() + body + lit_rb());
    assert(body == tag_in_position() + lit_q() + lit_f_v() + enc_bool(b));
    assert forall|t: int| 0 <= t < 8 implies s[t] == lit_tag_open()[t] by {
        assert(s[t] == lit_tag_open()[t]);
    }
    lemma_has_lit(s, 0, lit_tag_open());
    assert forall|t: int| 8 <= t < 8 + l implies s[t] != 34 by {
        assert(s[t] == body[t - 8]);
        assert(body[t - 8] == tg[t - 8]);
    }
    assert(body[l] == 34);
    assert(s[8 + l] == body[l]);
    lemma_quote_end_here(s, 8, 8 + l);
    assert forall|t: int| 0 <= t < l implies s.subrange(8, 8 + l)[t] == tg[t] by {
        assert(s[8 + t] == body[t]);
        assert(body[t] == tg[t]);
    }
    assert(s.subrange(8, 8 + l) =~= tg);
    let i = 9 + l;
    let dv = enc_bool(b).len() as int;
    assert forall|t: int| 0 <= t < 5 implies s[i + t] == lit_f_v()[t] by {
        assert(body[l + 1 + t] == lit_f_v()[t]);
        assert(s[i + t] == body[l + 1 + t]);
    }
    lemma_has_lit(s, i, lit_f_v());
    assert forall|t: int| 0 <= t < dv implies s[i + 5 + t] == #[trigger] enc_bool(b)[t] by {
        assert(body[l + 6 + t] == enc_bool(b)[t]);
        assert(s[i + 5 + t] == body[l + 6 + t]);
    }
    assert(s[i + 5 + dv] == 125);
    lemma_parse_bool_at(s, i + 5, b);
    assert(end_at(s, i + 5 + dv));
}

/// `Netmessage::Movement { x, y }` survives the encode-decode round trip.
#[verifier::rlimit(50)]
proof fn lemma_rt_movement(x: u32, y: u32)
    ensures
        spec_decode_netmessage(spec_encode_netmessage(Netmessage::Movement { x, y })) == Some(Netmessage::Movement { x, y }),
{
    let m = Netmessage::Movement { x, y };
    let tg = tag_movement();
    let body = spec_encode_body(m);
    let s = spec_encode_netmessage(m);
    let l = tg.len() as int;
    lemma_tag_movement_bytes();
    assert(s == lit_tag_open() + body + lit_rb());
    assert(body == tag_movement() + lit_q() + lit_f_x() + dec_u32(x) + lit_f_y() + dec_u32(y));
    assert forall|t: int| 0 <= t < 8 implies s[t] == lit_tag_open()[t] by {
        assert(s[t] == lit_tag_open()[t]);
    }
    lemma_has_lit(s, 0, lit_tag_open());
    assert forall|t: int| 8 <= t < 8 + l implies s[t] != 34 by {
        assert(s[t] == body[t - 8]);
        assert(body[t - 8] == tg[t - 8]);
    }
    assert(body[l] == 34);
    assert(s[8 + l] == body[l]);
    lemma_quote_end_here(s, 8, 8 + l);
    assert forall|t: int| 0 <= t < l implies s.subrange(8, 8 + l)[t] == tg[t] by {
        assert(s[8 + t] == body[t]);
        assert(body[t] == tg[t]);
    }
    assert(s.subrange(8, 8 + l) =~= tg);
    let i = 9 + l;
    let dx = dec_u32(x).len() as int;
    let dy = dec_u32(y).len() as int;
    assert forall|t: int| 0 <= t < 5 implies s[i + t] == lit_f_x()[t] by {
        assert(body[l + 1 + t] == lit_f_x()[t]);
        assert(s[i + t] == body[l + 1 + t]);
    }
    lemma_has_lit(s, i, lit_f_x());
    assert forall|t: int| 0 <= t < dx implies s[i + 5 + t] == #[trigger] dec_u32(x)[t] by {
        assert(body[l + 6 + t] == dec_u32(x)[t]);
        assert(s[i + 5 + t] == body[l + 6 + t]);
    }
    assert(body[l + 6 + dx] == 44);
    assert(s[i + 5 + dx] == body[l + 6 + dx]);
    lemma_parse_u32_at(s, i + 5, x);
    assert forall|t: int| 0 <= t < 5 implies s[i + 5 + dx + t] == lit_f_y()[t] by {
        assert(body[l + 6 + dx + t] == lit_f_y()[t]);
        assert(s[i + 5 + dx + t] == body[l + 6 + dx + t]);
    }
    lemma_has_lit(s, i + 5 + dx, lit_f_y());
    assert forall|t: int| 0 <= t < dy implies s[i + 10 + dx + t] == #[trigger] dec_u32(y)[t] by {
        assert(body[l + 11 + dx + t] == dec_u32(y)[t]);
        assert(s[i + 10 + dx + t] == body[l + 11 + dx + t]);
    }
    assert(s[i + 10 + dx + dy] == 125);
    lemma_parse_u32_at(s, i + 10 + dx, y);
    assert(end_at(s, i + 10 + dx + dy));
}

/// `Netmessage::Netstats { sent, recv }` survives the encode-decode round trip.
#[verifier::rlimit(50)]
proof fn lemma_rt_netstats(sent: u32, recv: u32)
    ensures
        spec_decode_netmessage(spec_encode_netmessage(Netmessage::Netstats { sent, recv })) == Some(Netmessage::Netstats { sent, recv }),
{
    let m = Netmessage::Netstats { sent, recv };
    let tg = tag_netstats();
    let body = spec_encode_body(m);
    let s = spec_encode_netmessage(m);
    let l = tg.len() as int;
    lemma_tag_netstats_bytes();
    assert(s == lit_tag_open() + body + lit_rb());
    assert(body == tag_netstats() + lit_q() + lit_f_sent() + dec_u32(sent) + lit_f_recv() + dec_u32(recv));
    assert forall|t: int| 0 <= t < 8 implies s[t] == lit_tag_open()[t] by {
        assert(s[t] == lit_tag_open()[t]);
    }
    lemma_has_lit(s, 0, lit_tag_open());
    assert forall|t: int| 8 <= t < 8 + l implies s[t] != 34 by {
        assert(s[t] == body[t - 8]);
        assert(body[t - 8] == tg[t - 8]);
    }
    assert(body[l] == 34);
    assert(s[8 + l] == body[l]);
    lemma_quote_end_here(s, 8, 8 + l);
    assert forall|t: int| 0 <= t < l implies s.subrange(8, 8 + l)[t] == tg[t] by {
        assert(s[8 + t] == body[t]);
        assert(body[t] == tg[t]);
    }
    assert(s.subrange(8, 8 + l) =~= tg);
    let i = 9 + l;
    let ds = dec_u32(sent).len() as int;
    let dr = dec_u32(recv).len() as int;
    assert forall|t: int| 0 <= t < 8 implies s[i + t] == lit_f_sent()[t] by {
        assert(body[l + 1 + t] == lit_f_sent()[t]);
        assert(s[i + t] == body[l + 1 + t]);
    }
    lemma_has_lit(s, i, lit_f_sent());
    assert forall|t: int| 0 <= t < ds implies s[i + 8 + t] == #[trigger] dec_u32(sent)[t] by {
        assert(body[l + 9 + t] == dec_u32(sent)[t]);
        assert(s[i + 8 + t] == body[l + 9 + t]);
    }
    assert(body[l + 9 + ds] == 44);
    assert(s[i + 8 + ds] == body[l + 9 + ds]);
    lemma_parse_u32_at(s, i + 8, sent);
    assert forall|t: int| 0 <= t < 8 implies s[i + 8 + ds + t] == lit_f_recv()[t] by {
        assert(body[l + 9 + ds + t] == lit_f_recv()[t]);
        assert(s[i + 8 + ds + t] == body[l + 9 + ds + t]);
    }
    lemma_has_lit(s, i + 8 + ds, lit_f_recv());
    assert forall|t: int| 0 <= t < dr implies s[i + 16 + ds + t] == #[trigger] dec_u32(recv)[t] by {
        assert(body[l + 17 + ds + t] == dec_u32(recv)[t]);
        assert(s[i + 16 + ds + t] == body[l + 17 + ds + t]);
    }
    assert(s[i + 16 + ds + dr] == 125);
    lemma_parse_u32_at(s, i + 16 + ds, recv);
    assert(end_at(s, i + 16 + ds + dr));
}

/// A world message carrying this piece kind survives the round trip.
#[verifier::rlimit(100)]
#[verifier::spinoff_prover]
proof fn lemma_rt_world_total(frame: u32, n: u32)
    ensures
        spec_decode_netmessage(
            spec_encode_netmessage(Netmessage::World { frame, piece: WorldPiece::Total(n) }),
        ) == Some(Netmessage::World { frame, piece: WorldPiece::Total(n) }),
{
    let m = Netmessage::World { frame, piece: WorldPiece::Total(n) };
    let piece = WorldPiece::Total(n);
    let tg = tag_world();
    let body = spec_encode_body(m);
    let s = spec_encode_netmessage(m);
    let l = tg.len() as int;
    lemma_tag_world_bytes();
    assert(s == lit_tag_open() + body + lit_rb());
    assert(body == tag_world() + lit_q() + lit_f_frame() + dec_u32(frame) + lit_f_piece()
        + enc_piece(piece));
    assert forall|t: int| 0 <= t < 8 implies s[t] == lit_tag_open()[t] by {
        assert(s[t] == lit_tag_open()[t]);
    }
    lemma_has_lit(s, 0, lit_tag_open());
    assert forall|t: int| 8 <= t < 8 + l implies s[t] != 34 by {
        assert(s[t] == body[t - 8]);
        assert(body[t - 8] == tg[t - 8]);
    }
    assert(body[l] == 34);
    assert(s[8 + l] == body[l]);
    lemma_quote_end_here(s, 8, 8 + l);
    assert forall|t: int| 0 <= t < l implies s.subrange(8, 8 + l)[t] == tg[t] by {
        assert(s[8 + t] == body[t]);
        assert(body[t] == tg[t]);
    }
    assert(s.subrange(8, 8 + l) =~= tg);
    let i = 9 + l;
    let wb = enc_world_body(frame, piece);
    let wl = wb.len() as int;
    assert(wb == lit_f_frame() + dec_u32(frame) + lit_f_piece() + enc_piece(piece));
    assert forall|t: int| 0 <= t < wl implies s[i + t] == #[trigger] wb[t] by {
        assert(s[i + t] == body[l + 1 + t]);
        assert(body[l + 1 + t] == wb[t]);
    }
    lemma_parse_world_at(s, i, frame, piece);
    assert(end_at(s, i + wl));
}


/// A world message carrying this piece kind survives the round trip.
#[verifier::rlimit(100)]
#[verifier::spinoff_prover]
proof fn lemma_rt_world_arena_border(frame: u32, p0: EndPoint, p1: EndPoint)
    ensures
        spec_decode_netmessage(
            spec_encode_netmessage(Netmessage::World { frame, piece: WorldPiece::ArenaBorder { p0, p1 } }),
        ) == Some(Netmessage::World { frame, piece: WorldPiece::ArenaBorder { p0, p1 } }),
{
    let m = Netmessage::World { frame, piece: WorldPiece::ArenaBorder { p0, p1 } };
    let piece = WorldPiece::ArenaBorder { p0, p1 };
    let tg = tag_world();
    let body = spec_encode_body(m);
    let s = spec_encode_netmessage(m);
    let l = tg.len() as int;
    lemma_tag_world_bytes();
    assert(s == lit_tag_open() + body + lit_rb());
    assert(body == tag_world() + lit_q() + lit_f_frame() + dec_u32(frame) + lit_f_piece()
        + enc_piece(piece));
    assert forall|t: int| 0 <= t < 8 implies s[t] == lit_tag_open()[t] by {
        assert(s[t] == lit_tag_open()[t]);
    }
    lemma_has_lit(s, 0, lit_tag_open());
    assert forall|t: int| 8 <= t < 8 + l implies s[t] != 34 by {
        assert(s[t] == body[t - 8]);
        assert(body[t - 8] == tg[t - 8]);
    }
    assert(body[l] == 34);
    assert(s[8 + l] == body[l]);
    lemma_quote_end_here(s, 8, 8 + l);
    assert forall|t: int| 0 <= t < l implies s.subrange(8, 8 + l)[t] == tg[t] by {
        assert(s[8 + t] == body[t]);
        assert(body[t] == tg[t]);
    }
    assert(s.subrange(8, 8 + l) =~= tg);
    let i = 9 + l;
    let wb = enc_world_body(frame, piece);
    let wl = wb.len() as int;
    assert(wb == lit_f_frame() + dec_u32(frame) + lit_f_piece() + enc_piece(piece));
    assert forall|t: int| 0 <= t < wl implies s[i + t] == #[trigger] wb[t] by {
        assert(s[i + t] == body[l + 1 + t]);
        assert(body[l + 1 + t] == wb[t]);
    }
    lemma_parse_world_at(s, i, frame, piece);
    assert(end_at(s, i + wl));
}


/// A world message carrying this piece kind survives the round trip.
#[verifier::rlimit(100)]
#[verifier::spinoff_prover]
proof fn lemma_rt_world_visibility_border(frame: u32, p0: EndPoint, p1: EndPoint)
    ensures
        spec_decode_netmessage(
            spec_encode_netmessage(Netmessage::World { frame, piece: WorldPiece::VisibilityBorder { p0, p1 } }),
        ) == Some(Netmessage::World { frame, piece: WorldPiece::VisibilityBorder { p0, p1 } }),
{
    let m = Netmessage::World { frame, piece: WorldPiece::VisibilityBorder { p0, p1 } };
    let piece = WorldPiece::VisibilityBorder { p0, p1 };
    let tg = tag_world();
    let body = spec_encode_body(m);
    let s = spec_encode_netmessage(m);
    let l = tg.len() as int;
    lemma_tag_world_bytes();
    assert(s == lit_tag_open() + body + lit_rb());
    assert(body == tag_world() + lit_q() + lit_f_frame() + dec_u32(frame) + lit_f_piece()
        + enc_piece(piece));
    assert forall|t: int| 0 <= t < 8 implies s[t] == lit_tag_open()[t] by {
        assert(s[t] == lit_tag_open()[t]);
    }
    lemma_has_lit(s, 0, lit_tag_open());
    assert forall|t: int| 8 <= t < 8 + l implies s[t] != 34 by {
        assert(s[t] == body[t - 8]);
        assert(body[t - 8] == tg[t - 8]);
    }
    assert(body[l] == 34);
    assert(s[8 + l] == body[l]);
    lemma_quote_end_here(s, 8, 8 + l);
    assert forall|t: int| 0 <= t < l implies s.subrange(8, 8 + l)[t] == tg[t] by {
        assert(s[8 + t] == body[t]);
        assert(body[t] == tg[t]);
    }
    assert(s.subrange(8, 8 + l) =~= tg);
    let i = 9 + l;
    let wb = enc_world_body(frame, piece);
    let wl = wb.len() as int;
    assert(wb == lit_f_frame() + dec_u32(frame) + lit_f_piece() + enc_piece(piece));
    assert forall|t: int| 0 <= t < wl implies s[i + t] == #[trigger] wb[t] by {
        assert(s[i + t] == body[l + 1 + t]);
        assert(body[l + 1 + t] == wb[t]);
    }
    lemma_parse_world_at(s, i, frame, piece);
    assert(end_at(s, i + wl));
}


/// A world message carrying this piece kind survives the round trip.
#[verifier::rlimit(100)]
#[verifier::spinoff_prover]
proof fn lemma_rt_world_object_border(frame: u32, p0: EndPoint, p1: EndPoint)
    ensures
        spec_decode_netmessage(
            spec_encode_netmessage(Netmessage::World { frame, piece: WorldPiece::ObjectBorder { p0, p1 } }),
        ) == Some(Netmessage::World { frame, piece: WorldPiece::ObjectBorder { p0, p1 } }),
{
    let m = Netmessage::World { frame, piece: WorldPiece::ObjectBorder { p0, p1 } };
    let piece = WorldPiece::ObjectBorder { p0, p1 };
    let tg = tag_world();
    let body = spec_encode_body(m);
    let s = spec_encode_netmessage(m);
    let l = tg.len() as int;
    lemma_tag_world_bytes();
    assert(s == lit_tag_open() + body + lit_rb());
    assert(body == tag_world() + lit_q() + lit_f_frame() + dec_u32(frame) + lit_f_piece()
        + enc_piece(piece));
    assert forall|t: int| 0 <= t < 8 implies s[t] == lit_tag_open()[t] by {
        assert(s[t] == lit_tag_open()[t]);
    }
    lemma_has_lit(s, 0, lit_tag_open());
    assert forall|t: int| 8 <= t < 8 + l implies s[t] != 34 by {
        assert(s[t] == body[t - 8]);
        assert(body[t - 8] == tg[t - 8]);
    }
    assert(body[l] == 34);
    assert(s[8 + l] == body[l]);
    lemma_quote_end_here(s, 8, 8 + l);
    assert forall|t: int| 0 <= t < l implies s.subrange(8, 8 + l)[t] == tg[t] by {
        assert(s[8 + t] == body[t]);
        assert(body[t] == tg[t]);
    }
    assert(s.subrange(8, 8 + l) =~= tg);
    let i = 9 + l;
    let wb = enc_world_body(frame, piece);
    let wl = wb.len() as int;
    assert(wb == lit_f_frame() + dec_u32(frame) + lit_f_piece() + enc_piece(piece));
    assert forall|t: int| 0 <= t < wl implies s[i + t] == #[trigger] wb[t] by {
        assert(s[i + t] == body[l + 1 + t]);
        assert(body[l + 1 + t] == wb[t]);
    }
    lemma_parse_world_at(s, i, frame, piece);
    assert(end_at(s, i + wl));
}


/// A world message carrying this piece kind survives the round trip.
#[verifier::rlimit(100)]
#[verifier::spinoff_prover]
proof fn lemma_rt_world_target(frame: u32, pt: Point)
    ensures
        spec_decode_netmessage(
            spec_encode_netmessage(Netmessage::World { frame, piece: WorldPiece::Target(pt) }),
        ) == Some(Netmessage::World { frame, piece: WorldPiece::Target(pt) }),
{
    let m = Netmessage::World { frame, piece: WorldPiece::Target(pt) };
    let piece = WorldPiece::Target(pt);
    let tg = tag_world();
    let body = spec_encode_body(m);
    let s = spec_encode_netmessage(m);
    let l = tg.len() as int;
    lemma_tag_world_bytes();
    assert(s == lit_tag_open() + body + lit_rb());
    assert(body == tag_world() + lit_q() + lit_f_frame() + dec_u32(frame) + lit_f_piece()
        + enc_piece(piece));
    assert forall|t: int| 0 <= t < 8 implies s[t] == lit_tag_open()[t] by {
        assert(s[t] == lit_tag_open()[t]);
    }
    lemma_has_lit(s, 0, lit_tag_open());
    assert forall|t: int| 8 <= t < 8 + l implies s[t] != 34 by {
        assert(s[t] == body[t - 8]);
        assert(body[t - 8] == tg[t - 8]);
    }
    assert(body[l] == 34);
    assert(s[8 + l] == body[l]);
    lemma_quote_end_here(s, 8, 8 + l);
    assert forall|t: int| 0 <= t < l implies s.subrange(8, 8 + l)[t] == tg[t] by {
        assert(s[8 + t] == body[t]);
        assert(body[t] == tg[t]);
    }
    assert(s.subrange(8, 8 + l) =~= tg);
    let i = 9 + l;
    let wb = enc_world_body(frame, piece);
    let wl = wb.len() as int;
    assert(wb == lit_f_frame() + dec_u32(frame) + lit_f_piece() + enc_piece(piece));
    assert forall|t: int| 0 <= t < wl implies s[i + t] == #[trigger] wb[t] by {
        assert(s[i + t] == body[l + 1 + t]);
        assert(body[l + 1 + t] == wb[t]);
    }
    lemma_parse_world_at(s, i, frame, piece);
    assert(end_at(s, i + wl));
}


/// A world message carrying this piece kind survives the round trip.
#[verifier::rlimit(100)]
#[verifier::spinoff_prover]
proof fn lemma_rt_world_rover_a(frame: u32, ep: EndPoint)
    ensures
        spec_decode_netmessage(
            spec_encode_netmessage(Netmessage::World { frame, piece: WorldPiece::RoverA(ep) }),
        ) == Some(Netmessage::World { frame, piece: WorldPiece::RoverA(ep) }),
{
    let m = Netmessage::World { frame, piece: WorldPiece::RoverA(ep) };
    let piece = WorldPiece::RoverA(ep);
    let tg = tag_world();
    let body = spec_encode_body(m);
    let s = spec_encode_netmessage(m);
    let l = tg.len() as int;
    lemma_tag_world_bytes();
    assert(s == lit_tag_open() + body + lit_rb());
    assert(body == tag_world() + lit_q() + lit_f_frame() + dec_u32(frame) + lit_f_piece()
        + enc_piece(piece));
    assert forall|t: int| 0 <= t < 8 implies s[t] == lit_tag_open()[t] by {
        assert(s[t] == lit_tag_open()[t]);
    }
    lemma_has_lit(s, 0, lit_tag_open());
    assert forall|t: int| 8 <= t < 8 + l implies s[t] != 34 by {
        assert(s[t] == body[t - 8]);
        assert(body[t - 8] == tg[t - 8]);
    }
    assert(body[l] == 34);
    assert(s[8 + l] == body[l]);
    lemma_quote_end_here(s, 8, 8 + l);
    assert forall|t: int| 0 <= t < l implies s.subrange(8, 8 + l)[t] == tg[t] by {
        assert(s[8 + t] == body[t]);
        assert(body[t] == tg[t]);
    }
    assert(s.subrange(8, 8 + l) =~= tg);
    let i = 9 + l;
    let wb = enc_world_body(frame, piece);
    let wl = wb.len() as int;
    assert(wb == lit_f_frame() + dec_u32(frame) + lit_f_piece() + enc_piece(piece));
    assert forall|t: int| 0 <= t < wl implies s[i + t] == #[trigger] wb[t] by {
        assert(s[i + t] == body[l + 1 + t]);
        assert(body[l + 1 + t] == wb[t]);
    }
    lemma_parse_world_at(s, i, frame, piece);
    assert(end_at(s, i + wl));
}


/// A world message carrying this piece kind survives the round trip.
#[verifier::rlimit(100)]
#[verifier::spinoff_prover]
proof fn lemma_rt_world_rover_b(frame: u32, ep: EndPoint)
    ensures
        spec_decode_netmessage(
            spec_encode_netmessage(Netmessage::World { frame, piece: WorldPiece::RoverB(ep) }),
        ) == Some(Netmessage::World { frame, piece: WorldPiece::RoverB(ep) }),
{
    let m = Netmessage::World { frame, piece: WorldPiece::RoverB(ep) };
    let piece = WorldPiece::RoverB(ep);
    let tg = tag_world();
    let body = spec_encode_body(m);
    let s = spec_encode_netmessage(m);
    let l = tg.len() as int;
    lemma_tag_world_bytes();
    assert(s == lit_tag_open() + body + lit_rb());
    assert(body == tag_world() + lit_q() + lit_f_frame() + dec_u32(frame) + lit_f_piece()
        + enc_piece(piece));
    assert forall|t: int| 0 <= t < 8 implies s[t] == lit_tag_open()[t] by {
        assert(s[t] == lit_tag_open()[t]);
    }
    lemma_has_lit(s, 0, lit_tag_open());
    assert forall|t: int| 8 <= t < 8 + l implies s[t] != 34 by {
        assert(s[t] == body[t - 8]);
        assert(body[t - 8] == tg[t - 8]);
    }
    assert(body[l] == 34);
    assert(s[8 + l] == body[l]);
    lemma_quote_end_here(s, 8, 8 + l);
    assert forall|t: int| 0 <= t < l implies s.subrange(8, 8 + l)[t] == tg[t] by {
        assert(s[8 + t] == body[t]);
        assert(body[t] == tg[t]);
    }
    assert(s.subrange(8, 8 + l) =~= tg);
    let i = 9 + l;
    let wb = enc_world_body(frame, piece);
    let wl = wb.len() as int;
    assert(wb == lit_f_frame() + dec_u32(frame) + lit_f_piece() + enc_piece(piece));
    assert forall|t: int| 0 <= t < wl implies s[i + t] == #[trigger] wb[t] by {
        assert(s[i + t] == body[l + 1 + t]);
        assert(body[l + 1 + t] == wb[t]);
    }
    lemma_parse_world_at(s, i, frame, piece);
    assert(end_at(s, i + wl));
}


/// `Netmessage::World { frame, piece }` survives the encode-decode
/// round trip, whatever the piece.
proof fn lemma_rt_world(frame: u32, piece: WorldPiece)
    ensures
        spec_decode_netmessage(spec_encode_netmessage(Netmessage::World { frame, piece })) == Some(
            Netmessage::World { frame, piece },
        ),
{
    match piece {
        WorldPiece::Total(n) => {
            lemma_rt_world_total(frame, n);
        }
        WorldPiece::ArenaBorder { p0, p1 } => {
            lemma_rt_world_arena_border(frame, p0, p1);
        }
        WorldPiece::VisibilityBorder { p0, p1 } => {
            lemma_rt_world_visibility_border(frame, p0, p1);
        }
        WorldPiece::ObjectBorder { p0, p1 } => {
            lemma_rt_world_object_border(frame, p0, p1);
        }
        WorldPiece::Target(pt) => {
            lemma_rt_world_target(frame, pt);
        }
        WorldPiece::RoverA(ep) => {
            lemma_rt_world_rover_a(frame, ep);
        }
        WorldPiece::RoverB(ep) => {
            lemma_rt_world_rover_b(frame, ep);
        }
    }
}

/// Round trip: every message, encoded to its canonical JSON form and
/// decoded again, comes back unchanged.
pub proof fn lemma_netmessage_round_trip(m: Netmessage)
    ensures
        spec_decode_netmessage(spec_encode_netmessage(m)) == Some(m),
{
    match m {
        Netmessage::Heartbeat => {
            lemma_rt_heartbeat();
        }
        Netmessage::ReqNetstats => {
            lemma_rt_req_netstats();
        }
        Netmessage::ReqName => {
            lemma_rt_req_name();
        }
        Netmessage::NameGeordon => {
            lemma_rt_name_geordon();
        }
        Netmessage::NameJosh => {
            lemma_rt_name_josh();
        }
        Netmessage::NameJoe => {
            lemma_rt_name_joe();
        }
        Netmessage::NameZach => {
            lemma_rt_name_zach();
        }
        Netmessage::NameDebugGeordon => {
            lemma_rt_name_debug_geordon();
        }
        Netmessage::NameDebugJosh => {
            lemma_rt_name_debug_josh();
        }
        Netmessage::NameDebugJoe => {
            lemma_rt_name_debug_joe();
        }
        Netmessage::NameDebugZach => {
            lemma_rt_name_debug_zach();
        }
        Netmessage::ReqMovement => {
            lemma_rt_req_movement();
        }
        Netmessage::ReqInPosition => {
            lemma_rt_req_in_position();
        }
        Netmessage::JoeReqPoints => {
            lemma_rt_joe_req_points();
        }
        Netmessage::JoshReqPoints => {
            lemma_rt_josh_req_points();
        }
        Netmessage::ReqStopped => {
            lemma_rt_req_stopped();
        }
        Netmessage::ReqEdgeDetect => {
            lemma_rt_req_edge_detect();
        }
        Netmessage::ReqEdgeDropped => {
            lemma_rt_req_edge_dropped();
        }
        Netmessage::ReqDistance => {
            lemma_rt_req_distance();
        }
        Netmessage::ReqGrabbed => {
            lemma_rt_req_grabbed();
        }
        Netmessage::ReqDropped => {
            lemma_rt_req_dropped();
        }
        Netmessage::JF(v) => {
            lemma_rt_jf(v);
        }
        Netmessage::JE(v) => {
            lemma_rt_je(v);
        }
        Netmessage::CF(v) => {
            lemma_rt_cf(v);
        }
        Netmessage::CE(v) => {
            lemma_rt_ce(v);
        }
        Netmessage::CT(v) => {
            lemma_rt_ct(v);
        }
        Netmessage::Distance(v) => {
            lemma_rt_distance(v);
        }
        Netmessage::Stopped(b) => {
            lemma_rt_stopped(b);
        }
        Netmessage::EdgeDetect(b) => {
            lemma_rt_edge_detect(b);
        }
        Netmessage::EdgeDropped(b) => {
            lemma_rt_edge_dropped(b);
        }
        Netmessage::Grabbed(b) => {
            lemma_rt_grabbed(b);
        }
        Netmessage::Dropped(b) => {
            lemma_rt_dropped(b);
        }
        Netmessage::InPosition(b) => {
            lemma_rt_in_position(b);
        }
        Netmessage::Movement { x, y } => {
            lemma_rt_movement(x, y);
        }
        Netmessage::Netstats { sent, recv } => {
            lemma_rt_netstats(sent, recv);
        }
        Netmessage::World { frame, piece } => {
            lemma_rt_world(frame, piece);
        }
    }
}

} // verus!
