use vstd::prelude::*;

verus! {

use vstd::bytes::{spec_u64_to_le_bytes, spec_u64_from_le_bytes, lemma_auto_spec_u64_to_from_le_bytes, u64_from_le_bytes, u64_to_le_bytes};
use vstd::slice::{slice_index_get, slice_subrange, slice_to_vec};
use crate::Payload;

// The fixed wire encodings shared by both sides of the shared-memory
// channel: u64 values as eight little-endian bytes, booleans as a single
// byte holding 0 or 1, and opaque payloads as a u64 length prefix followed
// by the raw payload bytes. Counts travel as u64 so that the layout does
// not depend on either side's pointer width.

pub open spec fn spec_dec_u64(s: Seq<u8>, off: int) -> Option<(u64, int)> {
    if 0 <= off && off + 8 <= s.len() {
        Some((spec_u64_from_le_bytes(s.subrange(off, off + 8)), off + 8))
    } else {
        None
    }
}

pub open spec fn spec_enc_bool(b: bool) -> Seq<u8> {
    seq![if b { 1u8 } else { 0u8 }]
}

pub open spec fn spec_dec_bool(s: Seq<u8>, off: int) -> Option<(bool, int)> {
    if 0 <= off && off < s.len() {
        if s[off] == 0u8 {
            Some((false, off + 1))
        } else if s[off] == 1u8 {
            Some((true, off + 1))
        } else {
            None
        }
    } else {
        None
    }
}

pub open spec fn spec_enc_payload(p: Seq<u8>) -> Seq<u8> {
    spec_u64_to_le_bytes(p.len() as u64) + p
}

pub open spec fn spec_dec_payload(s: Seq<u8>, off: int) -> Option<(Seq<u8>, int)> {
    match spec_dec_u64(s, off) {
        Some((l, o)) => {
            if o + l <= s.len() {
                Some((s.subrange(o, o + l), o + l))
            } else {
                None
            }
        },
        None => None,
    }
}

/// Decoding a u64 right after an arbitrary prefix recovers the value that
/// was encoded there, whatever bytes follow.
pub proof fn lemma_dec_u64_of_enc(pre: Seq<u8>, x: u64, rest: Seq<u8>)
    ensures
        spec_dec_u64(pre + spec_u64_to_le_bytes(x) + rest, pre.len() as int)
            == Some((x, pre.len() + 8 as int)),
{
    lemma_auto_spec_u64_to_from_le_bytes();
    let s = pre + spec_u64_to_le_bytes(x) + rest;
    assert(s.subrange(pre.len() as int, pre.len() + 8 as int) =~= spec_u64_to_le_bytes(x));
}

/// Decoding a bool right after an arbitrary prefix recovers the value that
/// was encoded there, whatever bytes follow.
pub proof fn lemma_dec_bool_of_enc(pre: Seq<u8>, b: bool, rest: Seq<u8>)
    ensures
        spec_dec_bool(pre + spec_enc_bool(b) + rest, pre.len() as int)
            == Some((b, pre.len() + 1 as int)),
{
    let s = pre + spec_enc_bool(b) + rest;
    assert(s[pre.len() as int] == (if b { 1u8 } else { 0u8 }));
}

/// Decoding a payload right after an arbitrary prefix recovers the bytes
/// that were encoded there, whatever bytes follow.
pub proof fn lemma_dec_payload_of_enc(pre: Seq<u8>, p: Seq<u8>, rest: Seq<u8>)
    requires
        p.len() <= u64::MAX,
    ensures
        spec_dec_payload(pre + spec_enc_payload(p) + rest, pre.len() as int)
            == Some((p, pre.len() + 8 + p.len() as int)),
{
    lemma_auto_spec_u64_to_from_le_bytes();
    let s = pre + spec_enc_payload(p) + rest;
    assert(pre + spec_enc_payload(p) + rest
        =~= pre + spec_u64_to_le_bytes(p.len() as u64) + (p + rest));
    lemma_dec_u64_of_enc(pre, p.len() as u64, p + rest);
    assert(spec_dec_u64(s, pre.len() as int) == Some((p.len() as u64, pre.len() + 8 as int)));
    assert(s.subrange(pre.len() + 8 as int, pre.len() + 8 + p.len() as int) =~= p);
}

pub fn append_u64(buf: &mut Vec<u8>, x: u64)
    ensures
        final(buf)@ == old(buf)@ + spec_u64_to_le_bytes(x),
{
    let mut bytes = u64_to_le_bytes(x);
    buf.append(&mut bytes);
}

pub fn retrieve_u64(buf: &[u8], offset: usize) -> (r: Option<(u64, usize)>)
    ensures
        match r {
            Some(v) => spec_dec_u64(buf@, offset as int) == Some((v.0, v.1 as int)),
            None => spec_dec_u64(buf@, offset as int) is None,
        },
{
    if buf.len() >= 8 && offset <= buf.len() - 8 {
        let s = slice_subrange(buf, offset, offset + 8);
        let x = u64_from_le_bytes(s);
        Some((x, offset + 8))
    } else {
        None
    }
}

pub fn append_bool(buf: &mut Vec<u8>, b: bool)
    ensures
        final(buf)@ == old(buf)@ + spec_enc_bool(b),
{
    buf.push(if b { 1u8 } else { 0u8 });
    proof {
        assert(buf@ =~= old(buf)@ + spec_enc_bool(b));
    }
}

pub fn retrieve_bool(buf: &[u8], offset: usize) -> (r: Option<(bool, usize)>)
    ensures
        match r {
            Some(v) => spec_dec_bool(buf@, offset as int) == Some((v.0, v.1 as int)),
            None => spec_dec_bool(buf@, offset as int) is None,
        },
{
    if offset < buf.len() {
        let byte = *slice_index_get(buf, offset);
        if byte == 0 {
            Some((false, offset + 1))
        } else if byte == 1 {
            Some((true, offset + 1))
        } else {
            None
        }
    } else {
        None
    }
}

pub fn append_payload(buf: &mut Vec<u8>, p: &Payload)
    ensures
        final(buf)@ == old(buf)@ + spec_enc_payload(p@),
{
    append_u64(buf, p.len() as u64);
    let mut bytes = slice_to_vec(p.as_slice());
    buf.append(&mut bytes);
    proof {
        assert(buf@ =~= old(buf)@ + spec_enc_payload(p@));
    }
}

pub fn retrieve_payload(buf: &[u8], offset: usize) -> (r: Option<(Payload, usize)>)
    ensures
        match r {
            Some(v) => spec_dec_payload(buf@, offset as int) == Some((v.0@, v.1 as int)),
            None => spec_dec_payload(buf@, offset as int) is None,
        },
{
    match retrieve_u64(buf, offset) {
        Some((l, o)) => {
            if l <= (buf.len() - o) as u64 {
                let l_us = l as usize;
                let p = slice_to_vec(slice_subrange(buf, o, o + l_us));
                Some((p, o + l_us))
            } else {
                None
            }
        },
        None => None,
    }
}

/// An executable byte vector always fits under the u64 length prefix.
pub proof fn lemma_payload_len_bound(p: Payload)
    ensures
        p@.len() <= u64::MAX,
{
    broadcast use vstd::std_specs::vec::axiom_spec_len;

    assert(p.len() == p@.len());
}

/// Duplicates an opaque payload value.
pub fn clone_payload(p: &Payload) -> (r: Payload)
    ensures
        r@ == p@,
{
    slice_to_vec(p.as_slice())
}

/// Duplicates a list of opaque payload values.
pub fn clone_payload_list(l: &Vec<Payload>) -> (r: Vec<Payload>)
    ensures
        r.deep_view() == l.deep_view(),
{
    let mut r: Vec<Payload> = Vec::new();
    let mut i: usize = 0;
    while i < l.len()
        invariant
            i <= l.len(),
            r.len() == i,
            forall|j: int| 0 <= j < i ==> r@[j]@ == l@[j]@,
        decreases l.len() - i,
    {
        r.push(clone_payload(&l[i]));
        i = i + 1;
    }
    proof {
        assert(r.deep_view() =~~= l.deep_view());
    }
    r
}

} // verus!
