//! Nodes of a byte and one LEB128 number: the variable, and the codes of both
//! children with their bits alternating.

use crate::codec::{
    code_of, code_to_ref, lemma_code_roundtrip, ref_below, ref_of_code, ref_to_code, reserve_node,
    Node, Ref,
};
use crate::leb::{
    decode_u128, encode_u128, law_leb_roundtrip, leb_bytes, leb_decode, lemma_encode_len,
    lemma_pow128_values, MAX_LEN,
};
use crate::pair::{
    deinterleave, interleave, lemma_unweave, lemma_weave, lemma_weave_woven, unweave, weave, woven,
};
use vstd::prelude::*;

verus! {

/// The name of this encoding.
pub const ENCODING_NAME: &'static str = "interleaved+u8var";

/// The bytes of node `n` at offset `off`.
pub open spec fn woven_bytes(n: Node, off: u64) -> Seq<u8> {
    seq![n.var as u8] + leb_bytes(
        weave(code_of(n.lo, off) as u64, code_of(n.hi, off) as u64) as nat,
    )
}

/// The node at the head of `s`, taken to stand at offset `off`, and its length in
/// bytes. Of the number the low 128 bits count.
pub open spec fn woven_decode(s: Seq<u8>, off: u64) -> Option<(Node, nat)> {
    if s.len() == 0 {
        None
    } else {
        match leb_decode(s.skip(1)) {
            None => None,
            Some((v, n1)) => {
                let (lo_code, hi_code) = unweave((v % (u128::MAX + 1) as nat) as u128);
                let lo = ref_of_code(lo_code as nat, off);
                let hi = ref_of_code(hi_code as nat, off);
                if n1 <= MAX_LEN && lo is Some && hi is Some {
                    Some(
                        (
                            Node { var: s[0] as u32, lo: lo.unwrap(), hi: hi.unwrap() },
                            1 + n1,
                        ),
                    )
                } else {
                    None
                }
            },
        }
    }
}

/// A node is read as it was written, whatever follows it.
pub proof fn law_roundtrip(n: Node, off: u64, rest: Seq<u8>)
    requires
        n.var < 256,
        ref_below(n.lo, off as nat),
        ref_below(n.hi, off as nat),
        off + 2 <= u64::MAX,
    ensures
        woven_decode(woven_bytes(n, off) + rest, off) == Some((n, woven_bytes(n, off).len())),
{
    let lo = code_of(n.lo, off) as u64;
    let hi = code_of(n.hi, off) as u64;
    let z = weave(lo, hi);
    let s = woven_bytes(n, off) + rest;
    lemma_code_roundtrip(n.lo, off);
    lemma_code_roundtrip(n.hi, off);
    lemma_weave_woven(lo, hi);
    lemma_unweave(lo, hi, z);
    assert(s.skip(1) =~= leb_bytes(z as nat) + rest);
    law_leb_roundtrip(z as nat, rest);
    lemma_pow128_values();
    lemma_encode_len(z as nat, 19);
    vstd::arithmetic::div_mod::lemma_small_mod(z as nat, (u128::MAX + 1) as nat);
}

/// A node is written as its variable, and the number in which the bits of the codes
/// of its low and its high child alternate.
pub proof fn law_layout(n: Node, off: u64, z: u128)
    requires
        n.var < 256,
        ref_below(n.lo, off as nat),
        ref_below(n.hi, off as nat),
        off + 2 <= u64::MAX,
        woven(code_of(n.lo, off) as u64, code_of(n.hi, off) as u64, z),
    ensures
        woven_bytes(n, off)[0] == n.var,
        woven_bytes(n, off).skip(1) == leb_bytes(z as nat),
{
    lemma_weave(code_of(n.lo, off) as u64, code_of(n.hi, off) as u64, z);
    assert(woven_bytes(n, off).skip(1) =~= leb_bytes(z as nat));
}

/// What is read as a node: a byte for the variable, and a number of at most 19 bytes
/// in whose low 128 bits the codes of the children alternate.
pub proof fn law_read(s: Seq<u8>, off: u64, lo: u64, hi: u64, z: u128)
    requires
        s.len() > 0,
        leb_decode(s.skip(1)) matches Some((v, _)) ==> z == v
            % (u128::MAX + 1) as nat,
        woven(lo, hi, z),
    ensures
        woven_decode(s, off) matches Some((n, len)) ==> n.var == s[0] && code_of(n.lo, off) == lo
            && code_of(n.hi, off) == hi && (leb_decode(s.skip(1)) matches Some((_, i)) && i <= 19
            && len == 1 + i),
        woven_decode(s, off) is None <==> (leb_decode(s.skip(1)) matches Some((_, i)) ==> i > 19
            || lo > off + 2 || hi > off + 2),
{
    lemma_unweave(lo, hi, z);
}

/// Appends the node `(var, lo, hi)` to `out`, whose length is the node's offset.
pub fn encode_node_at(var: u32, lo: Ref, hi: Ref, current_offset: u64, out: &mut Vec<u8>)
    requires
        old(out)@.len() == current_offset,
        var < 256,
        ref_below(lo, current_offset as nat),
        ref_below(hi, current_offset as nat),
    ensures
        final(out)@ == old(out)@ + woven_bytes(Node { var, lo, hi }, current_offset),
        current_offset + 2 <= u64::MAX,
{
    reserve_node(out);
    out.push(var as u8);
    let lo_code: u64 = ref_to_code(lo, current_offset);
    let hi_code: u64 = ref_to_code(hi, current_offset);
    let children: u128 = interleave(lo_code, hi_code);
    proof {
        lemma_weave(lo_code, hi_code, children);
    }
    encode_u128(children, out);
    assert(out@ =~= old(out)@ + woven_bytes(Node { var, lo, hi }, current_offset));
}

/// The node at the head of `buf`, and the number of bytes it took.
pub fn decode_node_at(buf: &[u8], current_offset: u64) -> (r: (Node, usize))
    requires
        woven_decode(buf@, current_offset) is Some,
    ensures
        woven_decode(buf@, current_offset) == Some((r.0, r.1 as nat)),
{
    let var: u32 = buf[0] as u32;
    let part = vstd::slice::slice_subrange(buf, 1, buf.len());
    assert(part@ =~= buf@.skip(1));
    let (children, n1): (u128, usize) = decode_u128(part);
    let (lo_code, hi_code): (u64, u64) = deinterleave(children);
    proof {
        lemma_unweave(lo_code, hi_code, children);
        assert(buf@.len() == buf.len());
    }
    let lo = code_to_ref(lo_code, current_offset);
    let hi = code_to_ref(hi_code, current_offset);
    (Node { var, lo, hi }, 1 + n1)
}

/// The variable of the node at the head of `buf`, and the number of bytes read.
#[inline]
pub fn decode_var_at(buf: &[u8], _current_offset: u64) -> (r: (u32, usize))
    requires
        buf@.len() > 0,
    ensures
        r == (buf@[0] as u32, 1usize),
        woven_decode(buf@, _current_offset) matches Some((n, _)) ==> r.0 == n.var,
{
    (buf[0] as u32, 1)
}

} // verus!
