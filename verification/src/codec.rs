//! Node layout and core types.
//!
//! A node is stored as `[u8 var][LEB128(lo_code)][LEB128(hi_code)]`:
//! - `var` is a raw byte, so that reading it takes no decoding.
//! - Children are stored as distances back from the node's own offset, see
//!   [`ref_to_code`].
//! - LEB128 spends one byte on seven bits of magnitude, so a child close to its
//!   parent takes one byte, and a distant one a few more.
//!
//! Offsets are `u64` throughout.

use crate::leb::{
    decode_u128, encode_u128, encoded_len, law_leb_roundtrip, leb_bytes, leb_decode,
    lemma_decode_len, lemma_decode_prefix, lemma_decode_take, lemma_encode_len,
    lemma_encode_min_len, lemma_pow128_values, MAX_LEN,
};
use vstd::prelude::*;

verus! {

/// A reference to a diagram: a terminal, or the node at some arena offset.
#[derive(Copy, Clone, Debug, PartialEq, Eq, Hash, Structural)]
pub enum Ref {
    Terminal(bool),
    Node(u64),
}

/// A decoded node.
#[derive(Copy, Clone, Debug, PartialEq, Eq, Structural)]
pub struct Node {
    pub var: u32,
    pub lo: Ref,
    pub hi: Ref,
}

/// Whether `r` is a terminal or a node that stands before offset `off`.
pub open spec fn ref_below(r: Ref, off: nat) -> bool {
    match r {
        Ref::Terminal(_) => true,
        Ref::Node(o) => o < off,
    }
}

/// The code of `r` as a child of the node at `off`: 0 and 1 are the terminals,
/// and `2 + d` is the node `d` bytes back.
pub open spec fn code_of(r: Ref, off: u64) -> nat {
    match r {
        Ref::Terminal(false) => 0,
        Ref::Terminal(true) => 1,
        Ref::Node(child) => (2 + (off - child)) as nat,
    }
}

/// The reference that `code` stands for in the node at `off`; `None` where it
/// points before the start of the arena.
pub open spec fn ref_of_code(code: nat, off: u64) -> Option<Ref> {
    if code == 0 {
        Some(Ref::Terminal(false))
    } else if code == 1 {
        Some(Ref::Terminal(true))
    } else if code - 2 <= off {
        Some(Ref::Node((off - (code - 2)) as u64))
    } else {
        None
    }
}

/// The bytes of node `n` at offset `off`.
pub open spec fn node_bytes(n: Node, off: u64) -> Seq<u8> {
    seq![n.var as u8] + leb_bytes(code_of(n.lo, off)) + leb_bytes(code_of(n.hi, off))
}

/// The node at the head of `s`, taken to stand at offset `off`, and its length
/// in bytes; `None` where `s` holds no whole node or a child points before
/// offset 0. Of a child's code the low 64 bits count.
pub open spec fn node_decode(s: Seq<u8>, off: u64) -> Option<(Node, nat)> {
    if s.len() == 0 {
        None
    } else {
        match leb_decode(s.skip(1)) {
            None => None,
            Some((lo_code, n1)) => match leb_decode(s.skip(1 + n1 as int)) {
                None => None,
                Some((hi_code, n2)) => {
                    let lo = ref_of_code(lo_code % (u64::MAX + 1) as nat, off);
                    let hi = ref_of_code(hi_code % (u64::MAX + 1) as nat, off);
                    if n1 <= MAX_LEN && n2 <= MAX_LEN && lo is Some && hi is Some {
                        Some(
                            (
                                Node { var: s[0] as u32, lo: lo.unwrap(), hi: hi.unwrap() },
                                1 + n1 + n2,
                            ),
                        )
                    } else {
                        None
                    }
                },
            },
        }
    }
}

/// Whether `n` can be stored at `off`: its variable fits the byte, and its
/// children stand before it.
pub open spec fn node_fits(n: Node, off: u64) -> bool {
    &&& n.var < 256
    &&& ref_below(n.lo, off as nat)
    &&& ref_below(n.hi, off as nat)
    &&& off + 2 <= u64::MAX
}

/// A child's code gives back the child.
pub proof fn lemma_code_roundtrip(r: Ref, off: u64)
    requires
        ref_below(r, off as nat),
    ensures
        ref_of_code(code_of(r, off), off) == Some(r),
        code_of(r, off) <= off + 2,
{
}

/// A node takes at least three bytes.
pub proof fn lemma_node_min_len(n: Node, off: u64)
    ensures
        3 <= node_bytes(n, off).len(),
{
    lemma_encode_min_len(code_of(n.lo, off));
    lemma_encode_min_len(code_of(n.hi, off));
}

/// A node takes between three and 21 bytes.
pub proof fn law_node_len(n: Node, off: u64)
    requires
        node_fits(n, off),
    ensures
        3 <= node_bytes(n, off).len() <= 21,
{
    lemma_pow128_values();
    lemma_encode_len(code_of(n.lo, off), 10);
    lemma_encode_len(code_of(n.hi, off), 10);
}

/// The codes of children: 0 and 1 are false and true, and every other code is two
/// more than the distance back to a node.
pub proof fn law_code(r: Ref, code: nat, off: u64)
    ensures
        ref_below(r, off as nat + 1) ==> code_of(r, off) == (match r {
            Ref::Terminal(value) => if value {
                1int
            } else {
                0
            },
            Ref::Node(child) => 2 + off - child,
        }),
        ref_of_code(code, off) == Some(r) <==> ref_below(r, off as nat + 1) && code_of(r, off)
            == code,
        ref_of_code(code, off) is None <==> code > off + 2,
{
}

/// A node is written as its variable, and the codes of its low and its high child.
pub proof fn law_node_layout(n: Node, off: u64)
    requires
        node_fits(n, off),
    ensures
        node_bytes(n, off)[0] == n.var,
        node_bytes(n, off).skip(1) == leb_bytes(code_of(n.lo, off)) + leb_bytes(
            code_of(n.hi, off),
        ),
{
    assert(node_bytes(n, off).skip(1) =~= leb_bytes(code_of(n.lo, off)) + leb_bytes(
        code_of(n.hi, off),
    ));
}

/// What is read as a node: a byte for the variable, and two numbers of at most 19
/// bytes each, whose low 64 bits are the codes of the children.
pub proof fn law_node_read(s: Seq<u8>, off: u64)
    ensures
        node_decode(s, off) matches Some((n, len)) ==> s.len() > 0 && n.var == s[0] && (leb_decode(
            s.skip(1),
        ) matches Some((a, i)) && i <= 19 && ref_below(n.lo, off as nat + 1) && code_of(n.lo, off)
            == a % 0x1_0000_0000_0000_0000 && (leb_decode(s.skip(1 + i as int)) matches Some((b, j))
            && j <= 19 && ref_below(n.hi, off as nat + 1) && code_of(n.hi, off) == b
            % 0x1_0000_0000_0000_0000 && len == 1 + i + j)),
        node_decode(s, off) is None ==> s.len() == 0 || (leb_decode(s.skip(1)) matches Some((a, i))
            ==> i > 19 || a % 0x1_0000_0000_0000_0000 > off + 2 || (leb_decode(
            s.skip(1 + i as int),
        ) matches Some((b, j)) ==> j > 19 || b % 0x1_0000_0000_0000_0000 > off + 2)),
{
}

/// Decoding gives back the node that was encoded, whatever bytes follow it.
pub proof fn law_node_roundtrip(n: Node, off: u64, rest: Seq<u8>)
    requires
        node_fits(n, off),
    ensures
        node_decode(node_bytes(n, off) + rest, off) == Some((n, node_bytes(n, off).len())),
        node_decode(node_bytes(n, off), off) == Some((n, node_bytes(n, off).len())),
{
    lemma_node_roundtrip_with(n, off, rest);
    lemma_node_roundtrip_with(n, off, seq![]);
    assert(node_bytes(n, off) + Seq::<u8>::empty() =~= node_bytes(n, off));
}

proof fn lemma_node_roundtrip_with(n: Node, off: u64, rest: Seq<u8>)
    requires
        node_fits(n, off),
    ensures
        node_decode(node_bytes(n, off) + rest, off) == Some((n, node_bytes(n, off).len())),
{
    let lo = leb_bytes(code_of(n.lo, off));
    let hi = leb_bytes(code_of(n.hi, off));
    let s = node_bytes(n, off) + rest;
    assert(s.skip(1) =~= lo + (hi + rest));
    assert(s.skip(1 + lo.len() as int) =~= hi + rest);
    law_leb_roundtrip(code_of(n.lo, off), hi + rest);
    law_leb_roundtrip(code_of(n.hi, off), rest);
    lemma_pow128_values();
    lemma_encode_len(code_of(n.lo, off), 10);
    lemma_encode_len(code_of(n.hi, off), 10);
    lemma_code_roundtrip(n.lo, off);
    lemma_code_roundtrip(n.hi, off);
    vstd::arithmetic::div_mod::lemma_small_mod(code_of(n.lo, off), (u64::MAX + 1) as nat);
    vstd::arithmetic::div_mod::lemma_small_mod(code_of(n.hi, off), (u64::MAX + 1) as nat);
}

/// A decoded node takes at least three bytes, and no more than there are.
pub proof fn lemma_node_decode_len(s: Seq<u8>, off: u64)
    ensures
        node_decode(s, off) matches Some((n, len)) ==> 3 <= len <= s.len() && n.var < 256,
{
    if s.len() > 0 {
        lemma_decode_len(s.skip(1));
        if let Some((c, n1)) = leb_decode(s.skip(1)) {
            lemma_decode_len(s.skip(1 + n1 as int));
        }
    }
}

/// Decoding looks at no byte behind the node.
pub proof fn lemma_node_decode_prefix(s: Seq<u8>, t: Seq<u8>, off: u64)
    requires
        node_decode(s, off) is Some,
    ensures
        node_decode(s + t, off) == node_decode(s, off),
{
    lemma_decode_len(s.skip(1));
    let n1 = leb_decode(s.skip(1)).unwrap().1;
    lemma_decode_prefix(s.skip(1), t);
    lemma_decode_prefix(s.skip(1 + n1 as int), t);
    assert((s + t).skip(1) =~= s.skip(1) + t);
    assert((s + t).skip(1 + n1 as int) =~= s.skip(1 + n1 as int) + t);
}

/// Decoding needs no byte behind the node.
pub proof fn lemma_node_decode_take(s: Seq<u8>, off: u64, k: nat)
    requires
        node_decode(s, off) matches Some((n, len)) && len <= k <= s.len(),
    ensures
        node_decode(s.take(k as int), off) == node_decode(s, off),
{
    lemma_decode_len(s.skip(1));
    let n1 = leb_decode(s.skip(1)).unwrap().1;
    lemma_decode_len(s.skip(1 + n1 as int));
    lemma_decode_take(s.skip(1), (k - 1) as nat);
    lemma_decode_take(s.skip(1 + n1 as int), (k - 1 - n1) as nat);
    assert(s.take(k as int).skip(1) =~= s.skip(1).take(k - 1));
    assert(s.take(k as int).skip(1 + n1 as int) =~= s.skip(1 + n1 as int).take(k - 1 - n1));
}

/// The code of child `r` in the node at `current_offset`.
#[inline]
pub fn ref_to_code(r: Ref, current_offset: u64) -> (code: u64)
    requires
        ref_below(r, current_offset as nat),
        code_of(r, current_offset) <= u64::MAX,
    ensures
        code == code_of(r, current_offset),
{
    match r {
        Ref::Terminal(false) => 0,
        Ref::Terminal(true) => 1,
        Ref::Node(child_off) => 2 + (current_offset - child_off),
    }
}

/// The child that `code` stands for in the node at `current_offset`.
#[inline]
pub fn code_to_ref(code: u64, current_offset: u64) -> (r: Ref)
    requires
        code <= current_offset + 2,
    ensures
        Some(r) == ref_of_code(code as nat, current_offset),
{
    match code {
        0 => Ref::Terminal(false),
        1 => Ref::Terminal(true),
        c => Ref::Node(current_offset - (c - 2)),
    }
}

/// `r` as a number, for hashing: small tags for the terminals, and a high bit
/// flipped in the offset of a node.
pub open spec fn ref_bits(r: Ref) -> u64 {
    match r {
        Ref::Terminal(false) => 0x1,
        Ref::Terminal(true) => 0x2,
        Ref::Node(o) => 0x1000_0000_0000_0000u64 ^ o,
    }
}

/// Packs a reference into a number for hashing.
#[inline]
pub fn ref_to_u64(r: Ref) -> (bits: u64)
    ensures
        bits == ref_bits(r),
{
    match r {
        Ref::Terminal(false) => 0x1,
        Ref::Terminal(true) => 0x2,
        Ref::Node(o) => 0x1000_0000_0000_0000u64 ^ o,
    }
}

/// Whether `a` is a terminal and `b` the node whose offset, with the bit flipped,
/// is the tag of that terminal.
pub open spec fn bits_clash(a: Ref, b: Ref) -> bool {
    (a == Ref::Terminal(false) && b == Ref::Node(0x1000_0000_0000_0001)) || (a == Ref::Terminal(
        true,
    ) && b == Ref::Node(0x1000_0000_0000_0002))
}

/// Different references have different numbers, except for each terminal and the
/// one node that has its tag.
pub proof fn law_ref_bits_injective(a: Ref, b: Ref)
    requires
        !bits_clash(a, b),
        !bits_clash(b, a),
        ref_bits(a) == ref_bits(b),
    ensures
        a == b,
{
    let x = match a {
        Ref::Node(o) => o,
        _ => 0,
    };
    let y = match b {
        Ref::Node(o) => o,
        _ => 0,
    };
    assert((0x1000_0000_0000_0000u64 ^ x == 0x1000_0000_0000_0000u64 ^ y ==> x == y) && (
    0x1000_0000_0000_0000u64 ^ x == 1 ==> x == 0x1000_0000_0000_0001) && (0x1000_0000_0000_0000u64
        ^ x == 2 ==> x == 0x1000_0000_0000_0002) && (0x1000_0000_0000_0000u64 ^ y == 1 ==> y
        == 0x1000_0000_0000_0001) && (0x1000_0000_0000_0000u64 ^ y == 2 ==> y
        == 0x1000_0000_0000_0002)) by (bit_vector);
}

/// The numbers of nodes differ as their offsets do, in every bit.
pub proof fn law_ref_bits(a: u64, b: u64)
    ensures
        ref_bits(Ref::Terminal(false)) == 1,
        ref_bits(Ref::Terminal(true)) == 2,
        ref_bits(Ref::Node(0)) == 0x1000_0000_0000_0000,
        ref_bits(Ref::Node(a)) ^ ref_bits(Ref::Node(b)) == a ^ b,
{
    assert(0x1000_0000_0000_0000u64 ^ 0 == 0x1000_0000_0000_0000 && (0x1000_0000_0000_0000u64 ^ a)
        ^ (0x1000_0000_0000_0000u64 ^ b) == a ^ b) by (bit_vector);
}

/// Grows `out` so that the shortest node fits behind it.
pub(crate) fn reserve_node(out: &mut Vec<u8>)
    ensures
        final(out)@ == old(out)@,
        old(out)@.len() + 3 <= usize::MAX,
{
    let len: usize = out.len();
    out.push(0);
    out.push(0);
    out.push(0);
    out.truncate(len);
    assert(out@ =~= old(out)@);
}

/// Appends the node `(var, lo, hi)` to `out`, whose length is the node's
/// offset.
#[inline]
pub fn encode_node(var: u32, lo: Ref, hi: Ref, current_offset: u64, out: &mut Vec<u8>)
    requires
        old(out)@.len() == current_offset,
        var < 256,
        ref_below(lo, current_offset as nat),
        ref_below(hi, current_offset as nat),
    ensures
        final(out)@ == old(out)@ + node_bytes(Node { var, lo, hi }, current_offset),
        node_fits(Node { var, lo, hi }, current_offset),
{
    reserve_node(out);
    out.push(var as u8);
    let lo_code: u64 = ref_to_code(lo, current_offset);
    let hi_code: u64 = ref_to_code(hi, current_offset);
    encode_u128(lo_code as u128, out);
    encode_u128(hi_code as u128, out);
    assert(out@ =~= old(out)@ + node_bytes(Node { var, lo, hi }, current_offset));
}

/// Decodes the node at the head of `buf`, taken to stand at `current_offset`.
/// The result holds the node and the number of bytes it took.
#[inline]
pub fn decode_node(buf: &[u8], current_offset: u64) -> (r: (Node, usize))
    requires
        node_decode(buf@, current_offset) is Some,
    ensures
        node_decode(buf@, current_offset) == Some((r.0, r.1 as nat)),
        3 <= r.1 <= buf@.len(),
{
    proof {
        lemma_node_decode_len(buf@, current_offset);
    }
    let var: u32 = buf[0] as u32;
    let lo_part = vstd::slice::slice_subrange(buf, 1, buf.len());
    assert(lo_part@ =~= buf@.skip(1));
    let (lo_code, n1): (u128, usize) = decode_u128(lo_part);
    let hi_part = vstd::slice::slice_subrange(buf, 1 + n1, buf.len());
    assert(hi_part@ =~= buf@.skip(1 + n1 as int));
    let (hi_code, n2): (u128, usize) = decode_u128(hi_part);
    proof {
        lemma_low_word(leb_decode(lo_part@).unwrap().0, lo_code);
        lemma_low_word(leb_decode(hi_part@).unwrap().0, hi_code);
    }
    let lo = code_to_ref(#[verifier::truncate] (lo_code as u64), current_offset);
    let hi = code_to_ref(#[verifier::truncate] (hi_code as u64), current_offset);
    (Node { var, lo, hi }, 1 + n1 + n2)
}

/// The low 64 bits of a number survive the cut to 128 bits.
pub(crate) proof fn lemma_low_word(v: nat, x: u128)
    requires
        x as nat == v % (u128::MAX + 1) as nat,
    ensures
        #[verifier::truncate] (x as u64) == v % (u64::MAX + 1) as nat,
{
    let m = (u64::MAX + 1) as int;
    assert(#[verifier::truncate] (x as u64) == x % 0x1_0000_0000_0000_0000) by (bit_vector);
    assert(u128::MAX + 1 == m * m) by (nonlinear_arith)
        requires
            m == u64::MAX + 1,
    ;
    vstd::arithmetic::div_mod::lemma_mod_mod(v as int, m, m);
}

/// Decodes the node at the head of `buf`, if there is one.
pub fn try_decode_node(buf: &[u8], current_offset: u64) -> (r: Option<(Node, usize)>)
    ensures
        r matches Some((n, len)) ==> node_decode(buf@, current_offset) == Some((n, len as nat)),
        r is None ==> node_decode(buf@, current_offset) is None,
{
    if buf.len() == 0 {
        return None;
    }
    let lo_part = vstd::slice::slice_subrange(buf, 1, buf.len());
    assert(lo_part@ =~= buf@.skip(1));
    proof {
        lemma_decode_len(lo_part@);
    }
    match encoded_len(lo_part) {
        None => None,
        Some(n1) => {
            let hi_part = vstd::slice::slice_subrange(buf, 1 + n1, buf.len());
            assert(hi_part@ =~= buf@.skip(1 + n1 as int));
            match encoded_len(hi_part) {
                None => None,
                Some(_) => {
                    let (lo_code, _m1): (u128, usize) = decode_u128(lo_part);
                    let (hi_code, _m2): (u128, usize) = decode_u128(hi_part);
                    proof {
                        lemma_low_word(leb_decode(lo_part@).unwrap().0, lo_code);
                        lemma_low_word(leb_decode(hi_part@).unwrap().0, hi_code);
                    }
                    let lo: u64 = #[verifier::truncate] (lo_code as u64);
                    let hi: u64 = #[verifier::truncate] (hi_code as u64);
                    if (lo >= 2 && lo - 2 > current_offset) || (hi >= 2 && hi - 2
                        > current_offset) {
                        None
                    } else {
                        Some(decode_node(buf, current_offset))
                    }
                },
            }
        },
    }
}

/// The variable of the node at the head of `buf`, and the number of bytes read.
#[inline]
pub fn decode_var(buf: &[u8], _current_offset: u64) -> (r: (u32, usize))
    requires
        buf@.len() > 0,
    ensures
        r == (buf@[0] as u32, 1usize),
        node_decode(buf@, _current_offset) matches Some((n, _)) ==> r.0 == n.var,
{
    (buf[0] as u32, 1)
}

} // verus!
