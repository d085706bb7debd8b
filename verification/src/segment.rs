//! Sentence segmentation.
//!
//! A sentence unit is a run of bytes ending in the 3-byte UTF-8 encoding of
//! the full-width period. The scanner keeps a partial-match counter against
//! that pattern: a byte either continues the exact prefix matched so far or
//! resets the counter to zero. A trailing run of bytes in which the pattern
//! never completes is discarded, not emitted. Each completed unit is decoded
//! as UTF-8 (a failure is reported as an item, and scanning goes on with the
//! next unit) and then stripped of all whitespace.

use crate::text::strip_ws;
use crate::text::strip_whitespace;
use vstd::prelude::*;
use vstd::utf8::decode_utf8;
use vstd::utf8::encode_utf8;
use vstd::utf8::encode_utf8_decode_utf8;
use vstd::utf8::valid_utf8;

verus! {

/// The byte at position `i` of the sentence delimiter's UTF-8 encoding.
pub open spec fn delim_byte(i: int) -> u8 {
    if i == 0 {
        0xE3
    } else if i == 1 {
        0x80
    } else {
        0x82
    }
}

/// One step of the delimiter matcher: how many delimiter bytes are matched
/// after reading `b` with `mi` bytes matched before it.
pub open spec fn scan_step(mi: int, b: u8) -> int {
    if b == delim_byte(mi) {
        mi + 1
    } else {
        0
    }
}

/// The position at which the unit that starts scanning at `pos`, with `mi`
/// delimiter bytes already matched, sees the delimiter complete.
pub open spec fn scan_end_from(s: Seq<u8>, pos: int, mi: int) -> Option<int>
    decreases s.len() - pos,
{
    if pos < 0 || pos >= s.len() {
        None
    } else {
        let mi2 = scan_step(mi, s[pos]);
        if mi2 == 3 {
            Some(pos)
        } else {
            scan_end_from(s, pos + 1, mi2)
        }
    }
}

pub proof fn lemma_scan_end_bounds(s: Seq<u8>, pos: int, mi: int)
    ensures
        scan_end_from(s, pos, mi) matches Some(e) ==> pos <= e < s.len(),
    decreases s.len() - pos,
{
    if 0 <= pos < s.len() && scan_step(mi, s[pos]) != 3 {
        lemma_scan_end_bounds(s, pos + 1, scan_step(mi, s[pos]));
    }
}

/// The sentence units of `s` from position `pos` on: each is a byte run
/// ending at a completion of the delimiter pattern. Bytes after the last
/// completion belong to no unit.
pub open spec fn units_from(s: Seq<u8>, pos: int) -> Seq<Seq<u8>>
    decreases s.len() - pos,
    via units_from_decreases
{
    match scan_end_from(s, pos, 0) {
        None => Seq::empty(),
        Some(e) => seq![s.subrange(pos, e + 1)] + units_from(s, e + 1),
    }
}

#[via_fn]
proof fn units_from_decreases(s: Seq<u8>, pos: int) {
    lemma_scan_end_bounds(s, pos, 0);
}

/// All sentence units of a byte stream.
pub open spec fn units_of(s: Seq<u8>) -> Seq<Seq<u8>> {
    units_from(s, 0)
}

/// What one unit's bytes yield: the decoded, whitespace-stripped sentence,
/// or nothing when the bytes are not valid UTF-8.
pub open spec fn sentence_of(u: Seq<u8>) -> Option<Seq<char>> {
    if valid_utf8(u) {
        Some(strip_ws(decode_utf8(u)))
    } else {
        None
    }
}

/// The sentences of the units that decode, in order; units that do not
/// decode contribute nothing.
pub open spec fn ok_sentences(us: Seq<Seq<u8>>) -> Seq<Seq<char>>
    decreases us.len(),
{
    if us.len() == 0 {
        Seq::empty()
    } else {
        ok_sentences(us.drop_last()) + match sentence_of(us.last()) {
            Some(t) => seq![t],
            None => Seq::empty(),
        }
    }
}

/// A leading run of units never yields more sentences than the whole.
pub proof fn lemma_ok_sentences_take_le(us: Seq<Seq<u8>>, j: int)
    requires
        0 <= j <= us.len(),
    ensures
        ok_sentences(us.take(j)).len() <= ok_sentences(us).len(),
    decreases us.len() - j,
{
    if j < us.len() {
        assert(us.take(j + 1).drop_last() =~= us.take(j));
        assert(us.take(j + 1).last() == us[j]);
        lemma_ok_sentences_take_le(us, j + 1);
    } else {
        assert(us.take(j) =~= us);
    }
}

/// A unit that decodes makes the stream's sentence yield non-empty.
pub proof fn lemma_ok_sentences_some(us: Seq<Seq<u8>>, i: int)
    requires
        0 <= i < us.len(),
        sentence_of(us[i]) is Some,
    ensures
        ok_sentences(us).len() > 0,
{
    assert(us.take(i + 1).drop_last() =~= us.take(i));
    assert(us.take(i + 1).last() == us[i]);
    assert(ok_sentences(us.take(i + 1)).len() > 0);
    lemma_ok_sentences_take_le(us, i + 1);
}

proof fn lemma_scan_end_tail(s: Seq<u8>, pos: int, mi: int)
    requires
        0 <= mi <= 2,
    ensures
        scan_end_from(s, pos, mi) matches Some(e) ==> {
            &&& s[e] == 0x82
            &&& (e == pos ==> mi == 2)
            &&& (e > pos ==> s[e - 1] == 0x80)
            &&& (e == pos + 1 ==> mi == 1)
            &&& (e > pos + 1 ==> s[e - 2] == 0xE3)
        },
    decreases s.len() - pos,
{
    if 0 <= pos < s.len() {
        let mi2 = scan_step(mi, s[pos]);
        if mi2 != 3 {
            lemma_scan_end_tail(s, pos + 1, mi2);
            lemma_scan_end_bounds(s, pos + 1, mi2);
        }
    }
}

/// The three bytes every unit ends with are the delimiter's encoding.
proof fn lemma_units_shape(s: Seq<u8>, pos: int)
    ensures
        forall|k: int|
            0 <= k < units_from(s, pos).len() ==> {
                let u = #[trigger] units_from(s, pos)[k];
                u.len() >= 3 && u[u.len() - 1] == 0x82 && u[u.len() - 2] == 0x80 && u[u.len() - 3]
                    == 0xE3
            },
    decreases s.len() - pos,
{
    match scan_end_from(s, pos, 0) {
        None => {},
        Some(e) => {
            lemma_scan_end_bounds(s, pos, 0);
            lemma_scan_end_tail(s, pos, 0);
            assert(e >= pos + 2);
            lemma_units_shape(s, e + 1);
            let u0 = s.subrange(pos, e + 1);
            assert(u0.len() >= 3 && u0[u0.len() - 1] == 0x82 && u0[u0.len() - 2] == 0x80 && u0[u0.len()
                - 3] == 0xE3);
            assert(forall|k: int|
                1 <= k < units_from(s, pos).len() ==> #[trigger] units_from(s, pos)[k]
                    == units_from(s, e + 1)[k - 1]);
        },
    }
}

/// The delimiter's three bytes decode to its one character.
proof fn lemma_delim_bytes_decode()
    ensures
        vstd::utf8::valid_utf8(seq![0xE3u8, 0x80u8, 0x82u8]),
        decode_utf8(seq![0xE3u8, 0x80u8, 0x82u8]) == seq!['\u{3002}'],
{
    let d = seq![0xE3u8, 0x80u8, 0x82u8];
    assert((0xE3u8 & 0x0F) == 3u8) by (bit_vector);
    assert((0x80u8 & 0x3F) == 0u8) by (bit_vector);
    assert((0x82u8 & 0x3F) == 2u8) by (bit_vector);
    assert(((3u32 << 12) | (0u32 << 6) | 2u32) == 0x3002u32) by (bit_vector);
    assert(vstd::utf8::decode_first_codepoint(d) == 0x3002u32);
    assert(vstd::utf8::valid_first_scalar(d));
    assert(vstd::utf8::length_of_first_scalar(d) == 3);
    assert(vstd::utf8::pop_first_scalar(d) =~= Seq::<u8>::empty());
    assert(vstd::utf8::pop_first_scalar(d) == Seq::<u8>::empty());
    assert(valid_utf8(Seq::<u8>::empty()));
    assert(valid_utf8(d));
    assert(decode_utf8(Seq::<u8>::empty()) =~= Seq::<char>::empty());
    assert('\u{3002}' as u32 == 0x3002u32);
    vstd::utf8::char_u32_cast('\u{3002}', 0x3002u32);
    assert(decode_utf8(d) =~= seq![(0x3002u32) as char] + decode_utf8(Seq::<u8>::empty()));
    assert(decode_utf8(d) =~= seq!['\u{3002}']);
}

/// Law: every sentence a unit yields is non-empty. A unit ends in the
/// delimiter, whose character is no whitespace and survives stripping.
pub proof fn lemma_sentence_nonempty(s: Seq<u8>)
    ensures
        forall|k: int|
            0 <= k < units_of(s).len() ==> match sentence_of(#[trigger] units_of(s)[k]) {
                Some(t) => t.len() > 0,
                None => true,
            },
{
    lemma_units_shape(s, 0);
    assert forall|k: int|
        0 <= k < units_of(s).len() implies match sentence_of(#[trigger] units_of(s)[k]) {
        Some(t) => t.len() > 0,
        None => true,
    } by {
        let u = units_of(s)[k];
        if valid_utf8(u) {
            let n = u.len() as int;
            vstd::utf8::is_char_boundary_iff_not_is_continuation_byte(u, n - 3);
            assert(!vstd::utf8::is_continuation_byte(u[n - 3]));
            vstd::utf8::decode_utf8_split(u, n - 3);
            assert(u.subrange(n - 3, n) =~= seq![0xE3u8, 0x80u8, 0x82u8]);
            lemma_delim_bytes_decode();
            let t = decode_utf8(u);
            assert(t =~= decode_utf8(u.subrange(0, n - 3)) + seq!['\u{3002}']);
            assert(t.len() > 0 && t.last() == '\u{3002}');
            assert('\u{3002}' as u32 == 0x3002u32);
            assert(!crate::text::is_ws_char('\u{3002}'));
            assert(strip_ws(t) == strip_ws(t.drop_last()).push(t.last()));
        }
    }
}

/// Law: every sentence the segmenter's stream yields is non-empty.
pub proof fn lemma_ok_sentences_nonempty(s: Seq<u8>)
    ensures
        forall|k: int|
            0 <= k < ok_sentences(units_of(s)).len() ==> (#[trigger] ok_sentences(units_of(s))[k]).len()
                > 0,
{
    lemma_sentence_nonempty(s);
    lemma_ok_sentences_elems(units_of(s));
}

proof fn lemma_ok_sentences_elems(us: Seq<Seq<u8>>)
    requires
        forall|i: int|
            0 <= i < us.len() ==> match sentence_of(#[trigger] us[i]) {
                Some(t) => t.len() > 0,
                None => true,
            },
    ensures
        forall|k: int|
            0 <= k < ok_sentences(us).len() ==> (#[trigger] ok_sentences(us)[k]).len() > 0,
    decreases us.len(),
{
    if us.len() > 0 {
        let d = us.drop_last();
        assert(forall|i: int| 0 <= i < d.len() ==> #[trigger] d[i] == us[i]);
        lemma_ok_sentences_elems(d);
        assert(us.last() == us[us.len() - 1]);
        assert forall|k: int|
            0 <= k < ok_sentences(us).len() implies (#[trigger] ok_sentences(us)[k]).len() > 0 by {
            if k < ok_sentences(d).len() {
                assert(ok_sentences(us)[k] == ok_sentences(d)[k]);
            }
        }
    }
}

/// A sentence unit whose bytes were not valid UTF-8.
#[derive(Debug, Clone, Copy, PartialEq, Eq, Structural)]
pub enum SentenceError {
    Utf8,
}

/// A single-pass producer of the sentences of one byte stream.
pub struct Sentences {
    bytes: Vec<u8>,
    pos: usize,
}

/// Relies on `String::from_utf8`: it succeeds exactly on valid UTF-8, and
/// then returns the string holding the given bytes.
#[verifier::external_body]
fn decode_bytes_raw(bytes: Vec<u8>) -> (r: Option<String>)
    ensures
        r is Some <==> valid_utf8(bytes@),
        r matches Some(s) ==> encode_utf8(s@) == bytes@,
{
    String::from_utf8(bytes).ok()
}

/// Decode one unit's bytes, or report that they are not valid UTF-8.
fn decode_bytes(bytes: Vec<u8>) -> (r: Option<String>)
    ensures
        r is Some <==> valid_utf8(bytes@),
        r matches Some(s) ==> s@ == decode_utf8(bytes@),
{
    let ghost b = bytes@;
    let r = decode_bytes_raw(bytes);
    proof {
        if r is Some {
            encode_utf8_decode_utf8(r->Some_0@);
        }
    }
    r
}

impl Sentences {
    pub closed spec fn wf(self) -> bool {
        self.pos <= self.bytes@.len()
    }

    /// The byte stream this producer was built over.
    pub closed spec fn input(self) -> Seq<u8> {
        self.bytes@
    }

    /// The units not yet produced.
    pub closed spec fn remaining_units(self) -> Seq<Seq<u8>> {
        units_from(self.bytes@, self.pos as int)
    }

    /// Produce the next sentence: `None` once no complete unit is left (a
    /// trailing partial unit is discarded), otherwise the decoded and
    /// whitespace-stripped text of the first remaining unit, or a decode
    /// error in its place.
    pub fn next(&mut self) -> (r: Option<Result<String, SentenceError>>)
        requires
            old(self).wf(),
        ensures
            final(self).wf(),
            final(self).input() == old(self).input(),
            match r {
                None => old(self).remaining_units().len() == 0
                    && final(self).remaining_units().len() == 0,
                Some(item) => {
                    &&& old(self).remaining_units().len() > 0
                    &&& final(self).remaining_units() == old(self).remaining_units().drop_first()
                    &&& match item {
                        Ok(s) => sentence_of(old(self).remaining_units()[0]) == Some(s@),
                        Err(e) => sentence_of(old(self).remaining_units()[0]) is None && e
                            == SentenceError::Utf8,
                    }
                },
            },
    {
        let ghost s = self.bytes@;
        let ghost start = self.pos as int;
        let n = self.bytes.len();
        let mut buf: Vec<u8> = Vec::new();
        let mut mi: usize = 0;
        let mut j = self.pos;
        while j < n && mi < 3
            invariant
                start <= j <= n,
                n == s.len(),
                self.bytes@ == s,
                self.pos == start,
                buf@ == s.subrange(start, j as int),
                mi <= 3,
                mi < 3 ==> scan_end_from(s, start, 0) == scan_end_from(s, j as int, mi as int),
                mi == 3 ==> j >= 1 && scan_end_from(s, start, 0) == Some(j - 1),
            decreases n - j,
        {
            let b = self.bytes[j];
            buf.push(b);
            proof {
                assert(buf@ =~= s.subrange(start, j + 1));
                assert(scan_end_from(s, j as int, mi as int) == {
                    let mi2 = scan_step(mi as int, s[j as int]);
                    if mi2 == 3 {
                        Some(j as int)
                    } else {
                        scan_end_from(s, j + 1, mi2)
                    }
                });
            }
            if (mi == 0 && b == 0xE3) || (mi == 1 && b == 0x80) || (mi == 2 && b == 0x82) {
                mi = mi + 1;
            } else {
                mi = 0;
            }
            j = j + 1;
        }
        if mi == 3 {
            proof {
                assert(units_from(s, start) == seq![s.subrange(start, j as int)] + units_from(
                    s,
                    j as int,
                ));
                assert(units_from(s, start)[0] == buf@);
                assert(units_from(s, start).drop_first() =~= units_from(s, j as int));
            }
            self.pos = j;
            match decode_bytes(buf) {
                Some(decoded) => {
                    let stripped = strip_whitespace(decoded.as_str());
                    Some(Ok(stripped))
                },
                None => Some(Err(SentenceError::Utf8)),
            }
        } else {
            proof {
                assert(scan_end_from(s, j as int, mi as int) is None);
                assert(units_from(s, start) =~= Seq::<Seq<u8>>::empty());
                assert(units_from(s, n as int) =~= Seq::<Seq<u8>>::empty());
            }
            self.pos = n;
            None
        }
    }
}

/// Begin segmenting one byte stream.
pub fn sentences(bytes: Vec<u8>) -> (r: Sentences)
    ensures
        r.wf(),
        r.input() == bytes@,
        r.remaining_units() == units_of(bytes@),
{
    Sentences { bytes, pos: 0 }
}

/// How many times the delimiter pattern completes in `s` from `pos` on,
/// starting with `mi` delimiter bytes matched.
pub open spec fn delim_count_from(s: Seq<u8>, pos: int, mi: int) -> nat
    decreases s.len() - pos,
{
    if pos < 0 || pos >= s.len() {
        0
    } else {
        let mi2 = scan_step(mi, s[pos]);
        if mi2 == 3 {
            1 + delim_count_from(s, pos + 1, 0)
        } else {
            delim_count_from(s, pos + 1, mi2)
        }
    }
}

/// How many well-formed occurrences of the delimiter `s` holds.
pub open spec fn delim_count(s: Seq<u8>) -> nat {
    delim_count_from(s, 0, 0)
}

proof fn lemma_scan_end_count(s: Seq<u8>, pos: int, mi: int)
    ensures
        match scan_end_from(s, pos, mi) {
            None => delim_count_from(s, pos, mi) == 0,
            Some(e) => delim_count_from(s, pos, mi) == 1 + delim_count_from(s, e + 1, 0),
        },
    decreases s.len() - pos,
{
    if 0 <= pos < s.len() && scan_step(mi, s[pos]) != 3 {
        lemma_scan_end_count(s, pos + 1, scan_step(mi, s[pos]));
    }
}

proof fn lemma_units_count_from(s: Seq<u8>, pos: int)
    ensures
        units_from(s, pos).len() == delim_count_from(s, pos, 0),
    decreases s.len() - pos,
{
    lemma_scan_end_count(s, pos, 0);
    match scan_end_from(s, pos, 0) {
        None => {},
        Some(e) => {
            lemma_scan_end_bounds(s, pos, 0);
            lemma_units_count_from(s, e + 1);
        },
    }
}

/// Law: a byte stream holding `n` well-formed occurrences of the delimiter
/// yields exactly `n` sentence units, whatever trails the last occurrence —
/// the trailing partial unit is dropped.
pub proof fn lemma_units_count(s: Seq<u8>)
    ensures
        units_of(s).len() == delim_count(s),
{
    lemma_units_count_from(s, 0);
}

} // verus!
