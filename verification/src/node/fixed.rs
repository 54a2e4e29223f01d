//! Nodes of twelve bytes: the variable and both children as 32-bit numbers.
//!
//! A child is 0 or 1 for a terminal, and two more than its offset for a node. No
//! distances are computed, so that decoding is three reads.

use crate::codec::{Node, Ref};
use crate::wire::{
    get_le, law_le_back, le_bytes, le_value, lemma_le_bound, lemma_le_roundtrip,
    lemma_pow256_values, put_le,
};
use vstd::prelude::*;

verus! {

/// The name of this encoding.
pub const ENCODING_NAME: &'static str = "fixed12";

/// The number that stands for `r`.
pub open spec fn packed(r: Ref) -> nat {
    match r {
        Ref::Terminal(false) => 0,
        Ref::Terminal(true) => 1,
        Ref::Node(o) => o as nat + 2,
    }
}

/// The reference that a number stands for.
pub open spec fn unpacked(x: u32) -> Ref {
    if x == 0 {
        Ref::Terminal(false)
    } else if x == 1 {
        Ref::Terminal(true)
    } else {
        Ref::Node((x - 2) as u64)
    }
}

/// The bytes of a node.
pub open spec fn fixed_bytes(n: Node) -> Seq<u8> {
    le_bytes(n.var as nat, 4) + le_bytes(packed(n.lo), 4) + le_bytes(packed(n.hi), 4)
}

/// The node at the head of `s`.
pub open spec fn fixed_node(s: Seq<u8>) -> Node {
    Node {
        var: le_value(s.take(4)) as u32,
        lo: unpacked(le_value(s.subrange(4, 8)) as u32),
        hi: unpacked(le_value(s.subrange(8, 12)) as u32),
    }
}

/// A node is read as it was written, whatever follows it.
pub proof fn law_roundtrip(n: Node, rest: Seq<u8>)
    requires
        packed(n.lo) < u32::MAX,
        packed(n.hi) < u32::MAX,
    ensures
        fixed_bytes(n).len() == 12,
        fixed_node(fixed_bytes(n) + rest) == n,
{
    let s = fixed_bytes(n) + rest;
    lemma_pow256_values();
    lemma_le_roundtrip(n.var as nat, 4);
    lemma_le_roundtrip(packed(n.lo), 4);
    lemma_le_roundtrip(packed(n.hi), 4);
    assert(s.take(4) =~= le_bytes(n.var as nat, 4));
    assert(s.subrange(4, 8) =~= le_bytes(packed(n.lo), 4));
    assert(s.subrange(8, 12) =~= le_bytes(packed(n.hi), 4));
}

/// Where everything stands in a node, and what is read: the variable in the first
/// four bytes, the low child in the next four, and the high child in the last; 0 and
/// 1 are false and true, and every other number is two more than an offset.
pub proof fn law_layout(s: Seq<u8>)
    requires
        s.len() >= 12,
    ensures
        le_value(s.take(4)) == fixed_node(s).var,
        le_value(s.subrange(4, 8)) == (match fixed_node(s).lo {
            Ref::Terminal(value) => if value {
                1int
            } else {
                0
            },
            Ref::Node(o) => o + 2,
        }),
        le_value(s.subrange(8, 12)) == (match fixed_node(s).hi {
            Ref::Terminal(value) => if value {
                1int
            } else {
                0
            },
            Ref::Node(o) => o + 2,
        }),
        fixed_bytes(fixed_node(s)) == s.take(12),
{
    lemma_pow256_values();
    lemma_le_bound(s.take(4));
    lemma_le_bound(s.subrange(4, 8));
    lemma_le_bound(s.subrange(8, 12));
    law_le_back(s.take(4));
    law_le_back(s.subrange(4, 8));
    law_le_back(s.subrange(8, 12));
    assert(s.take(12) =~= s.take(4) + s.subrange(4, 8) + s.subrange(8, 12));
}

#[inline]
fn pack_ref(r: Ref) -> (x: u32)
    requires
        packed(r) < u32::MAX,
    ensures
        x == packed(r),
{
    match r {
        Ref::Terminal(false) => 0,
        Ref::Terminal(true) => 1,
        Ref::Node(off) => off as u32 + 2,
    }
}

#[inline]
fn unpack_ref(x: u32) -> (r: Ref)
    ensures
        r == unpacked(x),
{
    match x {
        0 => Ref::Terminal(false),
        1 => Ref::Terminal(true),
        n => Ref::Node((n - 2) as u64),
    }
}

#[inline]
fn read_u32_le(buf: &[u8]) -> (x: u32)
    requires
        buf@.len() == 4,
    ensures
        x as nat == le_value(buf@),
{
    proof {
        lemma_le_bound(buf@);
        lemma_pow256_values();
    }
    get_le(buf) as u32
}

/// Appends the node `(var, lo, hi)` to `out`, whose length is the node's offset.
pub fn encode_node_at(var: u32, lo: Ref, hi: Ref, current_offset: u64, out: &mut Vec<u8>)
    requires
        old(out)@.len() == current_offset,
        packed(lo) < u32::MAX,
        packed(hi) < u32::MAX,
    ensures
        final(out)@ == old(out)@ + fixed_bytes(Node { var, lo, hi }),
{
    put_le(var as u64, 4, out);
    put_le(pack_ref(lo) as u64, 4, out);
    put_le(pack_ref(hi) as u64, 4, out);
    assert(out@ =~= old(out)@ + fixed_bytes(Node { var, lo, hi }));
}

/// The node at the head of `buf`, and the number of bytes it took.
pub fn decode_node_at(buf: &[u8], _current_offset: u64) -> (r: (Node, usize))
    requires
        buf@.len() >= 12,
    ensures
        r == (fixed_node(buf@), 12usize),
{
    let var_part = vstd::slice::slice_subrange(buf, 0, 4);
    assert(var_part@ =~= buf@.take(4));
    let var: u32 = read_u32_le(var_part);
    let lo = unpack_ref(read_u32_le(vstd::slice::slice_subrange(buf, 4, 8)));
    let hi = unpack_ref(read_u32_le(vstd::slice::slice_subrange(buf, 8, 12)));
    (Node { var, lo, hi }, 12)
}

/// The variable of the node at the head of `buf`, and the number of bytes read.
#[inline]
pub fn decode_var_at(buf: &[u8], _current_offset: u64) -> (r: (u32, usize))
    requires
        buf@.len() >= 4,
    ensures
        r == (le_value(buf@.take(4)) as u32, 4usize),
{
    let part = vstd::slice::slice_subrange(buf, 0, 4);
    assert(part@ =~= buf@.take(4));
    (read_u32_le(part), 4)
}

} // verus!
