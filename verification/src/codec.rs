//! The byte encoding of one document's frequency record, as the persistent
//! store holds it.
//!
//! The encoding is a sequence of records, one per entry: the term's length in
//! codepoints, each codepoint, and the count, every field a little-endian
//! 64-bit value. Decoding accepts exactly the well-formed encodings and
//! refuses anything else; a malformed record is a hard error, never silently
//! dropped.

use vstd::prelude::*;
use vstd::bytes::spec_u64_to_le_bytes;
use vstd::bytes::spec_u64_from_le_bytes;
use vstd::bytes::lemma_auto_spec_u64_to_from_le_bytes;
use vstd::bytes::u64_to_le_bytes;
use vstd::bytes::u64_from_le_bytes;
use crate::chars::is_unicode_scalar;
use crate::chars::char_from_u32;
use crate::freq::FreqMap;
use crate::freq::entry_views;
use crate::freq::entries_wf;
use crate::freq::total_of;
use crate::freq::term_eq;
use crate::freq::lemma_total_nonneg;

verus! {

/// A persisted record that no well-formed encoding produces.
#[derive(Clone, Copy, Debug, PartialEq, Eq, Structural)]
pub enum DecodeError {
    Malformed,
}

/// The codepoint with the given scalar value.
pub open spec fn char_with_value(v: u32) -> char {
    v as char
}

/// Whether a stored 64-bit value is a Unicode scalar value.
pub open spec fn valid_scalar(v: u64) -> bool {
    v <= u32::MAX && is_unicode_scalar(v as u32)
}

/// The bytes of one term: each codepoint as a little-endian 64-bit value.
pub open spec fn encode_term(t: Seq<char>) -> Seq<u8>
    decreases t.len(),
{
    if t.len() == 0 {
        Seq::empty()
    } else {
        spec_u64_to_le_bytes((t[0] as u32) as u64) + encode_term(t.drop_first())
    }
}

/// The bytes of one entry: term length, term codepoints, count.
pub open spec fn encode_entry(e: (Seq<char>, u64)) -> Seq<u8> {
    spec_u64_to_le_bytes(e.0.len() as u64) + encode_term(e.0) + spec_u64_to_le_bytes(e.1)
}

/// The bytes of a whole record: its entries, one after the other.
pub open spec fn encode_entries(m: Seq<(Seq<char>, u64)>) -> Seq<u8>
    decreases m.len(),
{
    if m.len() == 0 {
        Seq::empty()
    } else {
        encode_entry(m[0]) + encode_entries(m.drop_first())
    }
}

/// Reads `n` codepoints: the decoded term and the bytes after it, or nothing
/// if the bytes run short or a value is no Unicode scalar.
pub open spec fn spec_decode_chars(b: Seq<u8>, n: nat) -> Option<(Seq<char>, Seq<u8>)>
    decreases n,
{
    if n == 0 {
        Some((Seq::empty(), b))
    } else if b.len() < 8 {
        None
    } else {
        let v = spec_u64_from_le_bytes(b.take(8));
        if !valid_scalar(v) {
            None
        } else {
            match spec_decode_chars(b.skip(8), (n - 1) as nat) {
                None => None,
                Some((t, rest)) => Some((seq![char_with_value(v as u32)] + t, rest)),
            }
        }
    }
}

pub proof fn lemma_decode_chars_len(b: Seq<u8>, n: nat)
    ensures
        spec_decode_chars(b, n) matches Some(p) ==> p.1.len() <= b.len() && p.0.len() == n,
    decreases n,
{
    if n > 0 && b.len() >= 8 {
        lemma_decode_chars_len(b.skip(8), (n - 1) as nat);
    }
}

/// Parses a whole record suffix: the decoded entries, or nothing on any
/// malformed byte, zero count, duplicate term, or overflowing total.
pub open spec fn spec_decode(b: Seq<u8>) -> Option<Seq<(Seq<char>, u64)>>
    decreases b.len(),
    via spec_decode_decreases
{
    if b.len() == 0 {
        Some(Seq::empty())
    } else if b.len() < 8 {
        None
    } else {
        let n = spec_u64_from_le_bytes(b.take(8));
        match spec_decode_chars(b.skip(8), n as nat) {
            None => None,
            Some((t, rest)) => if rest.len() < 8 {
                None
            } else {
                let cnt = spec_u64_from_le_bytes(rest.take(8));
                if cnt == 0 {
                    None
                } else {
                    match spec_decode(rest.skip(8)) {
                        None => None,
                        Some(tail) => if exists|j: int|
                            0 <= j < tail.len() && (#[trigger] tail[j]).0 == t {
                            None
                        } else if cnt + total_of(tail) > u64::MAX {
                            None
                        } else {
                            Some(seq![(t, cnt)] + tail)
                        },
                    }
                }
            },
        }
    }
}

#[via_fn]
proof fn spec_decode_decreases(b: Seq<u8>) {
    if b.len() >= 8 {
        let n = spec_u64_from_le_bytes(b.take(8));
        lemma_decode_chars_len(b.skip(8), n as nat);
    }
}

/// Reads the little-endian 64-bit value stored at `pos`.
fn read_u64_at(bytes: &Vec<u8>, pos: usize) -> (r: u64)
    requires
        pos + 8 <= bytes@.len(),
    ensures
        r == spec_u64_from_le_bytes(bytes@.subrange(pos as int, pos as int + 8)),
{
    let blen: usize = bytes.len();
    let mut tmp: Vec<u8> = Vec::new();
    let mut j: usize = 0;
    while j < 8
        invariant
            j <= 8,
            pos + 8 <= blen,
            blen == bytes@.len(),
            tmp@ == bytes@.subrange(pos as int, pos as int + j),
        decreases 8 - j,
    {
        tmp.push(bytes[pos + j]);
        proof {
            assert(tmp@ =~= bytes@.subrange(pos as int, pos as int + j + 1));
        }
        j = j + 1;
    }
    u64_from_le_bytes(tmp.as_slice())
}

/// Whether some entry already holds this term.
fn contains_term(entries: &Vec<(Vec<char>, u64)>, term: &Vec<char>) -> (r: bool)
    ensures
        r == exists|j: int|
            0 <= j < entries@.len() && (#[trigger] entry_views(entries@)[j]).0 == term@,
{
    let mut i: usize = 0;
    while i < entries.len()
        invariant
            i <= entries@.len(),
            forall|j: int| 0 <= j < i ==> (#[trigger] entry_views(entries@)[j]).0 != term@,
        decreases entries@.len() - i,
    {
        if term_eq(&entries[i].0, term) {
            proof {
                assert(entry_views(entries@)[i as int].0 == entries@[i as int].0@);
            }
            return true;
        }
        proof {
            assert(entry_views(entries@)[i as int].0 == entries@[i as int].0@);
        }
        i = i + 1;
    }
    false
}

/// Sums the counts of an already well-formed entry list.
fn sum_counts(entries: &Vec<(Vec<char>, u64)>) -> (r: u64)
    requires
        total_of(entry_views(entries@)) <= u64::MAX,
    ensures
        r == total_of(entry_views(entries@)),
{
    let ghost m = entry_views(entries@);
    let mut sum: u64 = 0;
    let mut i: usize = 0;
    proof {
        assert(m.skip(0) =~= m);
    }
    while i < entries.len()
        invariant
            i <= entries@.len(),
            m.len() == entries@.len(),
            m == entry_views(entries@),
            total_of(m) <= u64::MAX,
            sum + total_of(m.skip(i as int)) == total_of(m),
        decreases entries@.len() - i,
    {
        proof {
            lemma_total_nonneg(m.skip(i as int));
            lemma_total_nonneg(m.skip(i + 1));
            assert(m.skip(i as int)[0] == m[i as int]);
            assert(m.skip(i as int).drop_first() =~= m.skip(i + 1));
            assert(m[i as int].1 == entries@[i as int].1);
        }
        sum = sum + entries[i].1;
        i = i + 1;
    }
    proof {
        assert(m.skip(i as int).len() == 0);
    }
    sum
}

/// Decodes the record held in `bytes[pos..]`.
fn decode_suffix(bytes: &Vec<u8>, pos: usize) -> (r: Result<
    Vec<(Vec<char>, u64)>,
    DecodeError,
>)
    requires
        pos <= bytes@.len(),
    ensures
        match r {
            Ok(es) => spec_decode(bytes@.skip(pos as int)) == Some(entry_views(es@))
                && entries_wf(entry_views(es@)),
            Err(_) => spec_decode(bytes@.skip(pos as int)) is None,
        },
    decreases bytes@.len() - pos,
{
    let ghost b = bytes@.skip(pos as int);
    if bytes.len() - pos == 0 {
        let es: Vec<(Vec<char>, u64)> = Vec::new();
        proof {
            assert(entry_views(es@) =~= Seq::<(Seq<char>, u64)>::empty());
            assert(spec_decode(b) == Some(Seq::<(Seq<char>, u64)>::empty()));
        }
        return Ok(es);
    }
    if bytes.len() - pos < 8 {
        return Err(DecodeError::Malformed);
    }
    let n = read_u64_at(bytes, pos);
    proof {
        assert(b.take(8) =~= bytes@.subrange(pos as int, pos as int + 8));
    }
    // read the term, one codepoint at a time
    let mut term: Vec<char> = Vec::new();
    let mut k: u64 = 0;
    let mut cur: usize = pos + 8;
    proof {
        assert(bytes@.skip(cur as int) =~= b.skip(8));
    }
    while k < n
        invariant
            pos + 8 <= cur <= bytes@.len(),
            cur == pos + 8 + 8 * (k as int),
            k <= n,
            term@.len() == k,
            b == bytes@.skip(pos as int),
            b.take(8) == bytes@.subrange(pos as int, pos as int + 8),
            n == spec_u64_from_le_bytes(b.take(8)),
            forall|t2: Seq<char>, rest: Seq<u8>|
                spec_decode_chars(bytes@.skip(cur as int), (n - k) as nat) == Some(
                    (t2, rest),
                ) ==> spec_decode_chars(b.skip(8), n as nat) == Some((term@ + t2, rest)),
            spec_decode_chars(bytes@.skip(cur as int), (n - k) as nat) is None
                ==> spec_decode_chars(b.skip(8), n as nat) is None,
        decreases n - k,
    {
        let ghost region = bytes@.skip(cur as int);
        if bytes.len() - cur < 8 {
            proof {
                assert(region.len() < 8);
                assert(spec_decode_chars(region, (n - k) as nat) is None);
            }
            return Err(DecodeError::Malformed);
        }
        let v = read_u64_at(bytes, cur);
        proof {
            assert(region.take(8) =~= bytes@.subrange(cur as int, cur as int + 8));
        }
        if v > 0xFFFFFFFFu64 {
            proof {
                assert(!valid_scalar(v));
                assert(spec_decode_chars(region, (n - k) as nat) is None);
            }
            return Err(DecodeError::Malformed);
        }
        match char_from_u32(v as u32) {
            None => {
                proof {
                    assert(!valid_scalar(v));
                    assert(spec_decode_chars(region, (n - k) as nat) is None);
                }
                return Err(DecodeError::Malformed);
            },
            Some(c) => {
                proof {
                    assert(c as u32 == v as u32);
                    assert(valid_scalar(v));
                    vstd::utf8::char_u32_cast(c, v as u32);
                    assert(char_with_value(v as u32) == c);
                }
                let ghost t0 = term@;
                term.push(c);
                proof {
                    assert(region.skip(8) =~= bytes@.skip(cur as int + 8));
                    assert(term@ =~= t0.push(c));
                    assert forall|t2: Seq<char>, rest: Seq<u8>|
                        spec_decode_chars(bytes@.skip(cur as int + 8), (n - k - 1) as nat)
                            == Some((t2, rest)) implies spec_decode_chars(
                        b.skip(8),
                        n as nat,
                    ) == Some((term@ + t2, rest)) by {
                        assert(spec_decode_chars(region, (n - k) as nat) == Some(
                            (seq![c] + t2, rest),
                        ));
                        assert(t0 + (seq![c] + t2) =~= term@ + t2);
                    }
                    if spec_decode_chars(bytes@.skip(cur as int + 8), (n - k - 1) as nat)
                        is None {
                        assert(spec_decode_chars(region, (n - k) as nat) is None);
                    }
                }
                k = k + 1;
                cur = cur + 8;
            },
        }
    }
    proof {
        assert(spec_decode_chars(bytes@.skip(cur as int), 0) == Some(
            (Seq::<char>::empty(), bytes@.skip(cur as int)),
        ));
        assert(term@ + Seq::<char>::empty() =~= term@);
        assert(spec_decode_chars(b.skip(8), n as nat) == Some((term@, bytes@.skip(cur as int))));
    }
    let ghost rest = bytes@.skip(cur as int);
    if bytes.len() - cur < 8 {
        return Err(DecodeError::Malformed);
    }
    let cnt = read_u64_at(bytes, cur);
    proof {
        assert(rest.take(8) =~= bytes@.subrange(cur as int, cur as int + 8));
    }
    if cnt == 0 {
        return Err(DecodeError::Malformed);
    }
    let tail = match decode_suffix(bytes, cur + 8) {
        Ok(es) => es,
        Err(e) => {
            proof {
                assert(rest.skip(8) =~= bytes@.skip(cur as int + 8));
            }
            return Err(e);
        },
    };
    proof {
        assert(rest.skip(8) =~= bytes@.skip(cur as int + 8));
    }
    if contains_term(&tail, &term) {
        return Err(DecodeError::Malformed);
    }
    let tail_total = sum_counts(&tail);
    if cnt > u64::MAX - tail_total {
        proof {
            lemma_total_nonneg(entry_views(tail@));
        }
        return Err(DecodeError::Malformed);
    }
    let ghost tv = term@;
    let ghost old_tail = tail@;
    let mut out = tail;
    out.insert(0, (term, cnt));
    proof {
        let m2 = entry_views(out@);
        let mt = entry_views(old_tail);
        assert(m2 =~= seq![(tv, cnt)] + mt);
        assert(spec_decode(b) == Some(m2));
        lemma_total_nonneg(mt);
        assert(total_of(m2) == cnt + total_of(mt)) by {
            assert(m2[0] == (tv, cnt));
            assert(m2.drop_first() =~= mt);
        }
        assert forall|a: int, bb: int| 0 <= a < bb < m2.len() implies (#[trigger] m2[a]).0 != (
        #[trigger] m2[bb]).0 by {
            if a == 0 {
                assert(m2[bb] == mt[bb - 1]);
            } else {
                assert(m2[a] == mt[a - 1] && m2[bb] == mt[bb - 1]);
            }
        }
        assert forall|i: int| 0 <= i < m2.len() implies (#[trigger] m2[i]).1 >= 1 by {
            if i > 0 {
                assert(m2[i] == mt[i - 1]);
            }
        }
    }
    Ok(out)
}

/// Serialises the record: every entry, in order, in the fixed byte layout.
pub fn encode(m: &FreqMap) -> (r: Vec<u8>)
    ensures
        r@ == encode_entries(m.model()),
{
    let ghost mm = m.model();
    let es = m.entries();
    let mut out: Vec<u8> = Vec::new();
    let mut i: usize = 0;
    proof {
        assert(mm.skip(0) =~= mm);
        assert(out@ + encode_entries(mm) =~= encode_entries(mm));
    }
    while i < es.len()
        invariant
            i <= es@.len(),
            mm.len() == es@.len(),
            mm == entry_views(es@),
            out@ + encode_entries(mm.skip(i as int)) == encode_entries(mm),
        decreases es@.len() - i,
    {
        let ghost e = mm[i as int];
        proof {
            assert(mm.skip(i as int)[0] == e);
            assert(mm.skip(i as int).drop_first() =~= mm.skip(i + 1));
            assert(encode_entries(mm.skip(i as int)) == encode_entry(e) + encode_entries(
                mm.skip(i + 1),
            ));
            assert(e.0 == es@[i as int].0@ && e.1 == es@[i as int].1);
        }
        let term_len: u64 = es[i].0.len() as u64;
        proof {
            assert(term_len == e.0.len() as u64);
        }
        let mut field = u64_to_le_bytes(term_len);
        out.append(&mut field);
        // the term's codepoints
        let ghost base = out@;
        let mut j: usize = 0;
        proof {
            assert(e.0.skip(0) =~= e.0);
        }
        while j < es[i].0.len()
            invariant
                i < es@.len(),
                j <= es@[i as int].0@.len(),
                mm == entry_views(es@),
                mm.len() == es@.len(),
                e == mm[i as int],
                e.0 == es@[i as int].0@,
                out@ + encode_term(e.0.skip(j as int)) == base + encode_term(e.0),
            decreases es@[i as int].0@.len() - j,
        {
            proof {
                assert(e.0.skip(j as int)[0] == e.0[j as int]);
                assert(e.0.skip(j as int).drop_first() =~= e.0.skip(j + 1));
                assert(encode_term(e.0.skip(j as int)) == spec_u64_to_le_bytes(
                    (e.0[j as int] as u32) as u64,
                ) + encode_term(e.0.skip(j + 1)));
            }
            let c = es[i].0[j];
            proof {
                vstd::utf8::char_is_scalar(c);
            }
            let cu: u32 = c as u32;
            let mut cf = u64_to_le_bytes(cu as u64);
            out.append(&mut cf);
            j = j + 1;
        }
        proof {
            assert(e.0.skip(j as int).len() == 0);
            assert(encode_term(e.0.skip(j as int)) == Seq::<u8>::empty());
            assert(out@ =~= base + encode_term(e.0));
        }
        let mut count_field = u64_to_le_bytes(es[i].1);
        out.append(&mut count_field);
        proof {
            assert(out@ + encode_entries(mm.skip(i + 1)) =~= encode_entries(mm));
        }
        i = i + 1;
    }
    proof {
        assert(mm.skip(i as int).len() == 0);
        assert(encode_entries(mm.skip(i as int)) == Seq::<u8>::empty());
        assert(out@ =~= encode_entries(mm));
    }
    out
}

/// Deserialises a persisted record, accepting exactly the well-formed
/// encodings: any malformed byte, zero count, duplicate term or overflowing
/// total is a hard error.
pub fn decode(bytes: &Vec<u8>) -> (r: Result<FreqMap, DecodeError>)
    ensures
        match r {
            Ok(m) => spec_decode(bytes@) == Some(m.model()) && m.wf(),
            Err(_) => spec_decode(bytes@) is None,
        },
{
    proof {
        assert(bytes@.skip(0) =~= bytes@);
    }
    match decode_suffix(bytes, 0) {
        Ok(es) => Ok(FreqMap::from_entries(es)),
        Err(e) => Err(e),
    }
}

/// Decoding inverts encoding: a well-formed record written by `encode` is
/// read back exactly, never refused and never altered.
pub proof fn lemma_encode_decode(m: Seq<(Seq<char>, u64)>)
    requires
        entries_wf(m),
        forall|i: int| 0 <= i < m.len() ==> (#[trigger] m[i]).0.len() <= u64::MAX,
    ensures
        spec_decode(encode_entries(m)) == Some(m),
    decreases m.len(),
{
    lemma_auto_spec_u64_to_from_le_bytes();
    if m.len() == 0 {
    } else {
        let e = m[0];
        let rest_bytes = encode_entries(m.drop_first());
        let b = encode_entries(m);
        assert(b == encode_entry(e) + rest_bytes);
        let len_field = spec_u64_to_le_bytes(e.0.len() as u64);
        let cnt_field = spec_u64_to_le_bytes(e.1);
        assert(b =~= len_field + (encode_term(e.0) + (cnt_field + rest_bytes)));
        assert(b.len() >= 8);
        assert(b.take(8) =~= len_field);
        assert(spec_u64_from_le_bytes(b.take(8)) == e.0.len() as u64);
        assert(b.skip(8) =~= encode_term(e.0) + (cnt_field + rest_bytes));
        lemma_decode_chars_encode(e.0, cnt_field + rest_bytes);
        assert(spec_decode_chars(b.skip(8), e.0.len()) == Some((e.0, cnt_field + rest_bytes)));
        let rest = cnt_field + rest_bytes;
        assert(rest.len() >= 8);
        assert(rest.take(8) =~= cnt_field);
        assert(spec_u64_from_le_bytes(rest.take(8)) == e.1);
        assert(e.1 >= 1);
        assert(rest.skip(8) =~= rest_bytes);
        // the tail is itself well formed
        assert(m.drop_first().len() == m.len() - 1);
        assert forall|i: int, j: int| 0 <= i < j < m.drop_first().len() implies (
        #[trigger] m.drop_first()[i]).0 != (#[trigger] m.drop_first()[j]).0 by {
            assert(m.drop_first()[i] == m[i + 1] && m.drop_first()[j] == m[j + 1]);
        }
        assert forall|i: int| 0 <= i < m.drop_first().len() implies (
        #[trigger] m.drop_first()[i]).1 >= 1 by {
            assert(m.drop_first()[i] == m[i + 1]);
        }
        assert(total_of(m) == e.1 + total_of(m.drop_first()));
        lemma_total_nonneg(m.drop_first());
        assert(total_of(m.drop_first()) <= u64::MAX);
        assert forall|i: int| 0 <= i < m.drop_first().len() implies (
        #[trigger] m.drop_first()[i]).0.len() <= u64::MAX by {
            assert(m.drop_first()[i] == m[i + 1]);
        }
        lemma_encode_decode(m.drop_first());
        assert(spec_decode(rest_bytes) == Some(m.drop_first()));
        assert forall|j: int| 0 <= j < m.drop_first().len() implies (
        #[trigger] m.drop_first()[j]).0 != e.0 by {
            assert(m.drop_first()[j] == m[j + 1]);
        }
        assert(!(exists|j: int|
            0 <= j < m.drop_first().len() && (#[trigger] m.drop_first()[j]).0 == e.0));
        assert(e.1 + total_of(m.drop_first()) <= u64::MAX);
        assert(seq![(e.0, e.1)] + m.drop_first() =~= m);
        assert(spec_decode(b) == Some(m));
    }
}

/// One codepoint run decodes back to itself, leaving the following bytes.
proof fn lemma_decode_chars_encode(t: Seq<char>, after: Seq<u8>)
    ensures
        spec_decode_chars(encode_term(t) + after, t.len()) == Some((t, after)),
    decreases t.len(),
{
    lemma_auto_spec_u64_to_from_le_bytes();
    if t.len() == 0 {
        assert(encode_term(t) + after =~= after);
    } else {
        let c = t[0];
        let b = encode_term(t) + after;
        let v = (c as u32) as u64;
        let field = spec_u64_to_le_bytes(v);
        assert(b =~= field + (encode_term(t.drop_first()) + after));
        assert(b.len() >= 8);
        assert(b.take(8) =~= field);
        assert(spec_u64_from_le_bytes(b.take(8)) == v);
        vstd::utf8::char_is_scalar(c);
        assert((c as u32) <= 0x10FFFF);
        assert((c as u32) < 0xD800 || (c as u32) >= 0xE000);
        assert(v as u32 == c as u32);
        assert(valid_scalar(v));
        vstd::utf8::char_u32_cast(c, v as u32);
        assert(char_with_value(v as u32) == c);
        assert(b.skip(8) =~= encode_term(t.drop_first()) + after);
        lemma_decode_chars_encode(t.drop_first(), after);
        assert(seq![c] + t.drop_first() =~= t);
        assert(spec_decode_chars(b, t.len()) == Some((t, after)));
    }
}

} // verus!
