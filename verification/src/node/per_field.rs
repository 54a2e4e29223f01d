//! Nodes of three LEB128 numbers: the variable and the codes of both children.

use crate::codec::{
    code_of, code_to_ref, lemma_code_roundtrip, lemma_low_word, ref_below, ref_of_code,
    ref_to_code, reserve_node, Node, Ref,
};
use crate::leb::{
    decode_u128, encode_u128, law_leb_roundtrip, leb_bytes, leb_decode, lemma_encode_len,
    lemma_pow128_values, MAX_LEN,
};
use vstd::prelude::*;

verus! {

/// The name of this encoding.
pub const ENCODING_NAME: &'static str = "per-field";

/// The bytes of node `n` at offset `off`.
pub open spec fn field_bytes(n: Node, off: u64) -> Seq<u8> {
    leb_bytes(n.var as nat) + leb_bytes(code_of(n.lo, off)) + leb_bytes(code_of(n.hi, off))
}

/// The node at the head of `s`, taken to stand at offset `off`, and its length in
/// bytes. Of the variable the low 32 bits count, of a child's code the low 64.
pub open spec fn field_decode(s: Seq<u8>, off: u64) -> Option<(Node, nat)> {
    match leb_decode(s) {
        None => None,
        Some((var, n0)) => match leb_decode(s.skip(n0 as int)) {
            None => None,
            Some((lo_code, n1)) => match leb_decode(s.skip((n0 + n1) as int)) {
                None => None,
                Some((hi_code, n2)) => {
                    let lo = ref_of_code(lo_code % (u64::MAX + 1) as nat, off);
                    let hi = ref_of_code(hi_code % (u64::MAX + 1) as nat, off);
                    if n0 <= MAX_LEN && n1 <= MAX_LEN && n2 <= MAX_LEN && lo is Some && hi is Some {
                        Some(
                            (
                                Node {
                                    var: (var % (u32::MAX + 1) as nat) as u32,
                                    lo: lo.unwrap(),
                                    hi: hi.unwrap(),
                                },
                                n0 + n1 + n2,
                            ),
                        )
                    } else {
                        None
                    }
                },
            },
        },
    }
}

/// A node is read as it was written, whatever follows it.
pub proof fn law_roundtrip(n: Node, off: u64, rest: Seq<u8>)
    requires
        ref_below(n.lo, off as nat),
        ref_below(n.hi, off as nat),
        off + 2 <= u64::MAX,
    ensures
        field_decode(field_bytes(n, off) + rest, off) == Some((n, field_bytes(n, off).len())),
{
    let v = leb_bytes(n.var as nat);
    let lo = leb_bytes(code_of(n.lo, off));
    let hi = leb_bytes(code_of(n.hi, off));
    let s = field_bytes(n, off) + rest;
    assert(s =~= v + (lo + hi + rest));
    assert(s.skip(v.len() as int) =~= lo + (hi + rest));
    assert(s.skip((v.len() + lo.len()) as int) =~= hi + rest);
    law_leb_roundtrip(n.var as nat, lo + hi + rest);
    law_leb_roundtrip(code_of(n.lo, off), hi + rest);
    law_leb_roundtrip(code_of(n.hi, off), rest);
    lemma_pow128_values();
    lemma_encode_len(n.var as nat, 10);
    lemma_encode_len(code_of(n.lo, off), 10);
    lemma_encode_len(code_of(n.hi, off), 10);
    lemma_code_roundtrip(n.lo, off);
    lemma_code_roundtrip(n.hi, off);
    vstd::arithmetic::div_mod::lemma_small_mod(code_of(n.lo, off), (u64::MAX + 1) as nat);
    vstd::arithmetic::div_mod::lemma_small_mod(code_of(n.hi, off), (u64::MAX + 1) as nat);
    vstd::arithmetic::div_mod::lemma_small_mod(n.var as nat, (u32::MAX + 1) as nat);
}

/// A node is written as three numbers: its variable, and the codes of its low and its
/// high child.
pub proof fn law_layout(n: Node, off: u64)
    ensures
        ({
            let v = leb_bytes(n.var as nat);
            &&& field_bytes(n, off).take(v.len() as int) == v
            &&& field_bytes(n, off).skip(v.len() as int) == leb_bytes(code_of(n.lo, off))
                + leb_bytes(code_of(n.hi, off))
        }),
{
    let v = leb_bytes(n.var as nat);
    assert(field_bytes(n, off).take(v.len() as int) =~= v);
    assert(field_bytes(n, off).skip(v.len() as int) =~= leb_bytes(code_of(n.lo, off)) + leb_bytes(
        code_of(n.hi, off),
    ));
}

/// What is read as a node: three numbers of at most 19 bytes each, of which the low
/// 32 bits of the first and the low 64 bits of the others count.
pub proof fn law_read(s: Seq<u8>, off: u64)
    ensures
        field_decode(s, off) matches Some((n, len)) ==> (leb_decode(s) matches Some((v, h)) && h
            <= 19 && n.var == v % 0x1_0000_0000 && (leb_decode(s.skip(h as int)) matches Some((a, i))
            && i <= 19 && code_of(n.lo, off) == a % 0x1_0000_0000_0000_0000 && (leb_decode(
            s.skip((h + i) as int),
        ) matches Some((b, j)) && j <= 19 && code_of(n.hi, off) == b % 0x1_0000_0000_0000_0000
            && len == h + i + j))),
        field_decode(s, off) is None ==> (leb_decode(s) matches Some((v, h)) ==> h > 19
            || (leb_decode(s.skip(h as int)) matches Some((a, i)) ==> i > 19 || a
            % 0x1_0000_0000_0000_0000 > off + 2 || (leb_decode(s.skip((h + i) as int)) matches Some(
            (b, j),
        ) ==> j > 19 || b % 0x1_0000_0000_0000_0000 > off + 2))),
{
}

/// Appends the node `(var, lo, hi)` to `out`, whose length is the node's offset.
pub fn encode_node_at(var: u32, lo: Ref, hi: Ref, current_offset: u64, out: &mut Vec<u8>)
    requires
        old(out)@.len() == current_offset,
        ref_below(lo, current_offset as nat),
        ref_below(hi, current_offset as nat),
    ensures
        final(out)@ == old(out)@ + field_bytes(Node { var, lo, hi }, current_offset),
        current_offset + 2 <= u64::MAX,
{
    reserve_node(out);
    encode_u128(var as u128, out);
    let lo_code: u64 = ref_to_code(lo, current_offset);
    let hi_code: u64 = ref_to_code(hi, current_offset);
    encode_u128(lo_code as u128, out);
    encode_u128(hi_code as u128, out);
    assert(out@ =~= old(out)@ + field_bytes(Node { var, lo, hi }, current_offset));
}

/// The low 32 bits of a number survive the cut to 128 bits.
proof fn lemma_low_half(v: nat, x: u128)
    requires
        x as nat == v % (u128::MAX + 1) as nat,
    ensures
        #[verifier::truncate] (x as u32) == v % (u32::MAX + 1) as nat,
{
    let m = (u32::MAX + 1) as int;
    let k = (u64::MAX + 1) * (u32::MAX + 1);
    assert(#[verifier::truncate] (x as u32) == x % 0x1_0000_0000) by (bit_vector);
    assert(u128::MAX + 1 == m * k) by (nonlinear_arith)
        requires
            m == u32::MAX + 1,
            k == (u64::MAX + 1) * (u32::MAX + 1),
    ;
    vstd::arithmetic::div_mod::lemma_mod_mod(v as int, m, k);
}

/// The node at the head of `buf`, and the number of bytes it took.
pub fn decode_node_at(buf: &[u8], current_offset: u64) -> (r: (Node, usize))
    requires
        field_decode(buf@, current_offset) is Some,
    ensures
        field_decode(buf@, current_offset) == Some((r.0, r.1 as nat)),
{
    let (var, n0): (u128, usize) = decode_u128(buf);
    let lo_part = vstd::slice::slice_subrange(buf, n0, buf.len());
    assert(lo_part@ =~= buf@.skip(n0 as int));
    let (lo_code, n1): (u128, usize) = decode_u128(lo_part);
    let hi_part = vstd::slice::slice_subrange(buf, n0 + n1, buf.len());
    assert(hi_part@ =~= buf@.skip((n0 + n1) as int));
    let (hi_code, n2): (u128, usize) = decode_u128(hi_part);
    proof {
        lemma_low_half(leb_decode(buf@).unwrap().0, var);
        lemma_low_word(leb_decode(lo_part@).unwrap().0, lo_code);
        lemma_low_word(leb_decode(hi_part@).unwrap().0, hi_code);
        assert(buf@.len() == buf.len());
    }
    let lo = code_to_ref(#[verifier::truncate] (lo_code as u64), current_offset);
    let hi = code_to_ref(#[verifier::truncate] (hi_code as u64), current_offset);
    (Node { var: #[verifier::truncate] (var as u32), lo, hi }, n0 + n1 + n2)
}

/// The variable of the node at the head of `buf`, and the number of bytes read.
#[inline]
pub fn decode_var_at(buf: &[u8], _current_offset: u64) -> (r: (u32, usize))
    requires
        leb_decode(buf@) matches Some((_, n)) && n <= MAX_LEN,
    ensures
        ({
            let (v, n) = leb_decode(buf@)->0;
            r.0 == v % (u32::MAX + 1) as nat && r.1 == n
        }),
{
    let (var, n): (u128, usize) = decode_u128(buf);
    proof {
        lemma_low_half(leb_decode(buf@).unwrap().0, var);
    }
    (#[verifier::truncate] (var as u32), n)
}

} // verus!
