//! The node codec under the names that work at a given offset, and three other
//! encodings of a node.

pub use crate::codec::{
    code_to_ref, decode_node, decode_var, encode_node, ref_to_code, ref_to_u64, Node, Ref,
};
use crate::codec::{node_bytes, node_decode, node_fits, ref_below};
use vstd::prelude::*;

pub mod fixed;
pub mod interleaved;
pub mod per_field;

verus! {

/// See [`encode_node`].
#[inline]
pub fn encode_node_at(var: u32, lo: Ref, hi: Ref, current_offset: u64, out: &mut Vec<u8>)
    requires
        old(out)@.len() == current_offset,
        var < 256,
        ref_below(lo, current_offset as nat),
        ref_below(hi, current_offset as nat),
    ensures
        final(out)@ == old(out)@ + node_bytes(Node { var, lo, hi }, current_offset),
        node_fits(Node { var, lo, hi }, current_offset),
{
    encode_node(var, lo, hi, current_offset, out)
}

/// See [`decode_node`].
#[inline]
pub fn decode_node_at(buf: &[u8], current_offset: u64) -> (r: (Node, usize))
    requires
        node_decode(buf@, current_offset) is Some,
    ensures
        node_decode(buf@, current_offset) == Some((r.0, r.1 as nat)),
{
    decode_node(buf, current_offset)
}

/// See [`decode_var`].
#[inline]
pub fn decode_var_at(buf: &[u8], current_offset: u64) -> (r: (u32, usize))
    requires
        buf@.len() > 0,
    ensures
        r == (buf@[0] as u32, 1usize),
        node_decode(buf@, current_offset) matches Some((n, _)) ==> r.0 == n.var,
{
    decode_var(buf, current_offset)
}

} // verus!
