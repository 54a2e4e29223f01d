//! The pieces of the dump format: little-endian numbers, references as numbers,
//! and the CRC32 that guards a dump.

use crate::codec::Ref;
use vstd::arithmetic::div_mod::lemma_div_denominator;
use vstd::arithmetic::power::{lemma_pow_positive, pow};
use vstd::prelude::*;

verus! {

// ---------------------------------------------------------------------------
// Little-endian numbers
// ---------------------------------------------------------------------------

/// The `k` low bytes of `x`, least significant first.
pub open spec fn le_bytes(x: nat, k: nat) -> Seq<u8>
    decreases k,
{
    if k == 0 {
        seq![]
    } else {
        seq![(x % 256) as u8] + le_bytes(x / 256, (k - 1) as nat)
    }
}

/// The number whose bytes, least significant first, are `s`.
pub open spec fn le_value(s: Seq<u8>) -> nat
    decreases s.len(),
{
    if s.len() == 0 {
        0
    } else {
        s[0] as nat + 256 * le_value(s.drop_first())
    }
}

/// `256` to the power of `k`.
pub open spec fn pow256(k: nat) -> nat
    decreases k,
{
    if k == 0 {
        1
    } else {
        256 * pow256((k - 1) as nat)
    }
}

/// The powers that bound the integer widths in use.
pub proof fn lemma_pow256_values()
    ensures
        pow256(2) == 0x1_0000,
        pow256(4) == 0x1_0000_0000,
        pow256(8) == 0x1_0000_0000_0000_0000,
{
    reveal_with_fuel(pow256, 9);
}

/// `k` bytes are `k` bytes, and give back a number that fits them.
pub proof fn lemma_le_roundtrip(x: nat, k: nat)
    requires
        x < pow256(k),
    ensures
        le_bytes(x, k).len() == k,
        le_value(le_bytes(x, k)) == x,
    decreases k,
{
    if k > 0 {
        assert(x / 256 < pow256((k - 1) as nat)) by (nonlinear_arith)
            requires
                x < 256 * pow256((k - 1) as nat),
        ;
        lemma_le_roundtrip(x / 256, (k - 1) as nat);
        assert(le_bytes(x, k).drop_first() =~= le_bytes(x / 256, (k - 1) as nat));
    }
}

/// The length of `k` bytes.
pub proof fn lemma_le_len(x: nat, k: nat)
    ensures
        le_bytes(x, k).len() == k,
    decreases k,
{
    if k > 0 {
        lemma_le_len(x / 256, (k - 1) as nat);
    }
}

/// A number of `s.len()` bytes is below the power.
pub proof fn lemma_le_bound(s: Seq<u8>)
    ensures
        le_value(s) < pow256(s.len()),
    decreases s.len(),
{
    if s.len() > 0 {
        lemma_le_bound(s.drop_first());
        assert(pow256(s.len()) == 256 * pow256((s.len() - 1) as nat));
    }
}

/// Appends the `k` low bytes of `x` to `out`, least significant first.
pub fn put_le(x: u64, k: usize, out: &mut Vec<u8>)
    ensures
        final(out)@ == old(out)@ + le_bytes(x as nat, k as nat),
{
    let ghost start = out@;
    let mut rest: u64 = x;
    let mut left: usize = k;
    while left > 0
        invariant
            start + le_bytes(x as nat, k as nat) == out@ + le_bytes(rest as nat, left as nat),
        decreases left,
    {
        let ghost before = out@;
        out.push((rest % 256) as u8);
        assert(before + le_bytes(rest as nat, left as nat) =~= out@ + le_bytes(
            rest as nat / 256,
            (left - 1) as nat,
        ));
        rest = rest / 256;
        left -= 1;
    }
    assert(out@ =~= start + le_bytes(x as nat, k as nat));
}

/// The number whose bytes, least significant first, are `s`.
pub fn get_le(s: &[u8]) -> (x: u64)
    requires
        s@.len() <= 8,
    ensures
        x == le_value(s@),
{
    let mut x: u64 = 0;
    let mut i: usize = s.len();
    assert(s@.skip(i as int) =~= seq![]);
    while i > 0
        invariant
            i <= s@.len() <= 8,
            x == le_value(s@.skip(i as int)),
        decreases i,
    {
        i -= 1;
        proof {
            let t = s@.skip(i as int);
            assert(t.drop_first() =~= s@.skip(i + 1));
            lemma_le_bound(t);
            lemma_pow256_mono(t.len(), 8);
            lemma_pow256_values();
        }
        x = x * 256 + s[i] as u64;
    }
    assert(s@.skip(0) =~= s@);
    x
}

proof fn lemma_pow256_mono(a: nat, b: nat)
    requires
        a <= b,
    ensures
        pow256(a) <= pow256(b),
    decreases b,
{
    if a < b {
        lemma_pow256_mono(a, (b - 1) as nat);
    }
}

/// Byte `i` of a number is its digit `i` to the base 256.
pub proof fn law_le_digit(x: nat, k: nat, i: int)
    requires
        0 <= i < k,
    ensures
        le_bytes(x, k).len() == k,
        le_bytes(x, k)[i] as int == (x as int / pow(256, i as nat)) % 256,
    decreases k,
{
    lemma_le_len(x, k);
    reveal(pow);
    if i == 0 {
        assert(x as int / 1 == x as int);
    } else {
        let p = pow(256, (i - 1) as nat);
        law_le_digit(x / 256, (k - 1) as nat, i - 1);
        lemma_pow_positive(256, (i - 1) as nat);
        lemma_div_denominator(x as int, 256, p);
        assert(pow(256, i as nat) == 256 * p);
    }
}

/// The bytes of the number that some bytes stand for are those bytes.
pub proof fn law_le_back(s: Seq<u8>)
    ensures
        le_bytes(le_value(s), s.len()) == s,
    decreases s.len(),
{
    if s.len() > 0 {
        let v = le_value(s.drop_first());
        law_le_back(s.drop_first());
        assert((s[0] + 256 * v) % 256 == s[0] && (s[0] + 256 * v) / 256 == v);
        assert(s =~= seq![s[0]] + s.drop_first());
    }
}

// ---------------------------------------------------------------------------
// References
// ---------------------------------------------------------------------------

/// The number of a root in a dump: 0 and 1 for the terminals, and two more than
/// the offset for a node.
pub open spec fn wire_of(r: Ref) -> nat {
    match r {
        Ref::Terminal(false) => 0,
        Ref::Terminal(true) => 1,
        Ref::Node(o) => 2 + o as nat,
    }
}

/// The reference that a number stands for.
pub open spec fn ref_of_wire(code: u64) -> Ref {
    if code == 0 {
        Ref::Terminal(false)
    } else if code == 1 {
        Ref::Terminal(true)
    } else {
        Ref::Node((code - 2) as u64)
    }
}

/// The number of a root gives back the root.
pub proof fn law_wire_roundtrip(r: Ref)
    requires
        wire_of(r) <= u64::MAX,
    ensures
        ref_of_wire(wire_of(r) as u64) == r,
{
}

/// The numbers of roots: 0 and 1 are false and true, and every other number is two
/// more than an offset.
pub proof fn law_wire(r: Ref, code: u64)
    ensures
        wire_of(r) == (match r {
            Ref::Terminal(value) => if value {
                1int
            } else {
                0
            },
            Ref::Node(o) => o + 2,
        }),
        ref_of_wire(code) == r <==> wire_of(r) == code,
{
}

/// The number that stands for `r` in a dump.
#[inline]
pub fn ref_to_wire(r: Ref) -> (code: u64)
    requires
        wire_of(r) <= u64::MAX,
    ensures
        code == wire_of(r),
{
    match r {
        Ref::Terminal(false) => 0,
        Ref::Terminal(true) => 1,
        Ref::Node(off) => 2 + off,
    }
}

/// The reference that a number in a dump stands for. Every number is one: no
/// offset is too wide for `u64`.
#[inline]
pub fn wire_to_ref(code: u64) -> (r: Ref)
    ensures
        r == ref_of_wire(code),
{
    match code {
        0 => Ref::Terminal(false),
        1 => Ref::Terminal(true),
        c => Ref::Node(c - 2),
    }
}

// ---------------------------------------------------------------------------
// CRC32
// ---------------------------------------------------------------------------

/// One step of the division by the IEEE polynomial, bits reversed.
pub open spec fn crc_bit(c: u32) -> u32 {
    if c & 1 != 0 {
        0xedb88320 ^ (c >> 1)
    } else {
        c >> 1
    }
}

/// `k` steps.
pub open spec fn crc_bits(c: u32, k: nat) -> u32
    decreases k,
{
    if k == 0 {
        c
    } else {
        crc_bit(crc_bits(c, (k - 1) as nat))
    }
}

/// The remainder after the bytes `s`, started from all ones.
pub open spec fn crc_rest(s: Seq<u8>) -> u32
    decreases s.len(),
{
    if s.len() == 0 {
        0xffff_ffff
    } else {
        crc_bits(crc_rest(s.drop_last()) ^ (s.last() as u32), 8)
    }
}

/// The CRC32 of `s`.
pub open spec fn crc_of(s: Seq<u8>) -> u32 {
    crc_rest(s) ^ 0xffff_ffff
}

/// A step is linear where the low bit of one part is not set.
proof fn lemma_crc_bit(a: u32, b: u32)
    requires
        b & 1 == 0,
    ensures
        crc_bit(a ^ b) == crc_bit(a) ^ (b >> 1),
{
    assert((if (a ^ b) & 1 != 0 {
        0xedb88320u32 ^ ((a ^ b) >> 1)
    } else {
        (a ^ b) >> 1
    }) == (if a & 1 != 0 {
        0xedb88320u32 ^ (a >> 1)
    } else {
        a >> 1
    }) ^ (b >> 1)) by (bit_vector)
        requires
            b & 1 == 0,
    ;
}

/// The high part of a number is only shifted by the steps of its low part.
proof fn lemma_crc_bits(a: u32, b: u32, k: nat)
    requires
        k <= 24,
        (b >> (k as u32)) << (k as u32) == b,
    ensures
        crc_bits(a ^ b, k) == crc_bits(a, k) ^ (b >> (k as u32)),
    decreases k,
{
    if k == 0 {
        assert(b >> 0u32 == b) by (bit_vector);
    } else {
        let p = (k - 1) as nat;
        let s = p as u32;
        let s1 = k as u32;
        assert((b >> s) << s == b && (b >> s) & 1 == 0 && (b >> s) >> 1 == b >> s1) by (bit_vector)
            requires
                (b >> s1) << s1 == b,
                s < 24,
                s1 == s + 1,
        ;
        lemma_crc_bits(a, b, p);
        lemma_crc_bit(crc_bits(a, p), b >> s);
    }
}

/// Looking the low byte up and shifting the rest does eight steps at once.
proof fn lemma_crc_table(x: u32)
    ensures
        crc_bits(x & 0xff, 8) ^ (x >> 8) == crc_bits(x, 8),
{
    let a = x & 0xff;
    let b = x & 0xffff_ff00;
    assert(a ^ b == x && (b >> 8u32) << 8u32 == b && b >> 8u32 == x >> 8u32) by (bit_vector)
        requires
            a == x & 0xff,
            b == x & 0xffff_ff00,
    ;
    lemma_crc_bits(a, b, 8);
}

/// The table of eight steps for every byte.
fn crc_table() -> (t: [u32; 256])
    ensures
        forall|i: int| 0 <= i < 256 ==> #[trigger] t@[i] == crc_bits(i as u32, 8),
{
    let mut t: [u32; 256] = [0u32; 256];
    let mut i: usize = 0;
    while i < 256
        invariant
            i <= 256,
            forall|j: int| 0 <= j < i ==> #[trigger] t@[j] == crc_bits(j as u32, 8),
        decreases 256 - i,
    {
        let mut c: u32 = i as u32;
        let mut k: u32 = 0;
        while k < 8
            invariant
                i < 256,
                k <= 8,
                c == crc_bits(i as u32, k as nat),
            decreases 8 - k,
        {
            c = if c & 1 != 0 {
                0xedb88320 ^ (c >> 1)
            } else {
                c >> 1
            };
            k += 1;
        }
        t[i] = c;
        i += 1;
    }
    t
}

/// The CRC32 of `bytes`, with the IEEE polynomial.
pub fn crc32(bytes: &[u8]) -> (crc: u32)
    ensures
        crc == crc_of(bytes@),
{
    let table: [u32; 256] = crc_table();
    let mut crc: u32 = 0xffff_ffff;
    let mut i: usize = 0;
    assert(bytes@.take(0) =~= seq![]);
    while i < bytes.len()
        invariant
            i <= bytes@.len(),
            crc == crc_rest(bytes@.take(i as int)),
            forall|j: int| 0 <= j < 256 ==> #[trigger] table@[j] == crc_bits(j as u32, 8),
        decreases bytes@.len() - i,
    {
        let b: u8 = bytes[i];
        let x: u32 = crc ^ (b as u32);
        let low: u32 = x & 0xff;
        proof {
            assert(low < 256 && crc >> 8u32 == x >> 8u32) by (bit_vector)
                requires
                    low == x & 0xff,
                    x == crc ^ (b as u32),
            ;
            lemma_crc_table(x);
            assert(bytes@.take(i + 1).drop_last() =~= bytes@.take(i as int));
        }
        crc = table[low as usize] ^ (crc >> 8);
        i += 1;
    }
    assert(bytes@.take(i as int) =~= bytes@);
    crc ^ 0xffff_ffff
}

// ---------------------------------------------------------------------------
// What the checksum tells apart
// ---------------------------------------------------------------------------

/// Taking `z` into a number and out of it again.
proof fn lemma_xor(x: u32, y: u32, z: u32)
    ensures
        (x ^ z) ^ z == x,
        x ^ 0 == x,
        x ^ x == 0,
        x ^ z == z ^ x,
        x ^ z == y ^ z ==> x == y,
        z ^ x == y <==> x == z ^ y,
{
    assert((x ^ z) ^ z == x && x ^ 0 == x && x ^ x == 0 && x ^ z == z ^ x && (x ^ z == y ^ z ==> x
        == y) && (z ^ x == y <==> x == z ^ y)) by (bit_vector);
}

/// No two remainders become equal by a step.
proof fn lemma_crc_bit_injective(a: u32, b: u32)
    requires
        crc_bit(a) == crc_bit(b),
    ensures
        a == b,
{
    assert((if a & 1 != 0 {
        0xedb88320u32 ^ (a >> 1)
    } else {
        a >> 1
    }) == (if b & 1 != 0 {
        0xedb88320u32 ^ (b >> 1)
    } else {
        b >> 1
    }) ==> a == b) by (bit_vector);
}

/// Nor by many.
proof fn lemma_crc_bits_injective(a: u32, b: u32, k: nat)
    requires
        crc_bits(a, k) == crc_bits(b, k),
    ensures
        a == b,
    decreases k,
{
    if k > 0 {
        lemma_crc_bit_injective(crc_bits(a, (k - 1) as nat), crc_bits(b, (k - 1) as nat));
        lemma_crc_bits_injective(a, b, (k - 1) as nat);
    }
}

/// Steps after steps.
proof fn lemma_crc_bits_add(a: u32, j: nat, k: nat)
    ensures
        crc_bits(crc_bits(a, j), k) == crc_bits(a, j + k),
    decreases k,
{
    if k > 0 {
        lemma_crc_bits_add(a, j, (k - 1) as nat);
    }
}

/// One more byte at the high end of a number.
proof fn lemma_le_push(s: Seq<u8>, b: u8)
    ensures
        le_value(s.push(b)) == le_value(s) + b * pow256(s.len()),
    decreases s.len(),
{
    let t = s.push(b);
    if s.len() == 0 {
        assert(t.drop_first() =~= seq![]);
        assert(le_value(t.drop_first()) == 0);
        assert(b * pow256(0) == b) by (nonlinear_arith)
            requires
                pow256(0) == 1,
        ;
    } else {
        assert(t.drop_first() =~= s.drop_first().push(b));
        lemma_le_push(s.drop_first(), b);
        let p = pow256((s.len() - 1) as nat);
        let v = le_value(s.drop_first());
        assert(pow256(s.len()) == 256 * p);
        assert(256 * (v + b * p) == 256 * v + b * (256 * p)) by (nonlinear_arith);
    }
}

/// Numbers of as many bytes are equal only where the bytes are.
pub proof fn law_le_injective(a: Seq<u8>, b: Seq<u8>)
    requires
        a.len() == b.len(),
        le_value(a) == le_value(b),
    ensures
        a == b,
    decreases a.len(),
{
    if a.len() > 0 {
        law_le_injective(a.drop_first(), b.drop_first());
        assert(a =~= seq![a[0]] + a.drop_first());
        assert(b =~= seq![b[0]] + b.drop_first());
    } else {
        assert(a =~= b);
    }
}

/// Up to four bytes are divided as one number.
proof fn lemma_crc_word(s: Seq<u8>, w: Seq<u8>)
    requires
        w.len() <= 4,
    ensures
        le_value(w) <= u32::MAX,
        crc_rest(s + w) == crc_bits(crc_rest(s) ^ (le_value(w) as u32), 8 * w.len()),
    decreases w.len(),
{
    reveal_with_fuel(pow256, 5);
    lemma_le_bound(w);
    if w.len() == 0 {
        assert(s + w =~= s);
        lemma_xor(crc_rest(s), 0, 0);
    } else {
        let v = w.drop_last();
        let m = v.len();
        let last = w.last();
        lemma_crc_word(s, v);
        lemma_le_bound(v);
        lemma_le_push(v, last);
        assert(w =~= v.push(last));
        assert((s + w).drop_last() =~= s + v);
        assert((s + w).last() == last);
        let r = crc_rest(s);
        let x = le_value(v) as u32;
        let z = le_value(w) as u32;
        let l = last as u32;
        let sh = (8 * m) as u32;
        let h = l << sh;
        assert(z == x + l * (1u32 << sh) && x < (1u32 << sh)) by {
            assert(1u32 << 0u32 == 1 && 1u32 << 8u32 == 0x100 && 1u32 << 16u32 == 0x1_0000 && 1u32
                << 24u32 == 0x100_0000) by (bit_vector);
            assert(m == 0 || m == 1 || m == 2 || m == 3);
        }
        assert(h >> sh == l && (h >> sh) << sh == h && (r ^ x) ^ h == r ^ z) by (bit_vector)
            requires
                h == l << sh,
                l < 256,
                sh == 0 || sh == 8 || sh == 16 || sh == 24,
                x < (1u32 << sh),
                z == x + l * (1u32 << sh),
        ;
        lemma_crc_bits(r ^ x, h, 8 * m);
        lemma_crc_bits_add((r ^ x) ^ h, 8 * m, 8);
    }
}

/// Remainders that differ stay different, as long as the same bytes follow.
proof fn lemma_crc_suffix(a: Seq<u8>, b: Seq<u8>, tail: Seq<u8>)
    requires
        crc_rest(a + tail) == crc_rest(b + tail),
    ensures
        crc_rest(a) == crc_rest(b),
    decreases tail.len(),
{
    if tail.len() == 0 {
        assert(a + tail =~= a);
        assert(b + tail =~= b);
    } else {
        let t = tail.drop_last();
        let l = tail.last() as u32;
        assert((a + tail).drop_last() =~= a + t);
        assert((b + tail).drop_last() =~= b + t);
        let x = crc_rest(a + t);
        let y = crc_rest(b + t);
        lemma_crc_bits_injective(x ^ l, y ^ l, 8);
        lemma_xor(x, y, l);
        lemma_crc_suffix(a, b, t);
    }
}

/// The checksum of no bytes is zero, and one more byte is divided into it bit by
/// bit, lowest first, by the polynomial `0xedb88320`.
pub proof fn law_crc_append(s: Seq<u8>, b: u8)
    ensures
        crc_of(seq![]) == 0,
        ({
            let c0 = crc_of(s) ^ 0xffff_ffff ^ (b as u32);
            let c1 = (c0 >> 1) ^ if c0 & 1 == 1 { 0xedb8_8320u32 } else { 0 };
            let c2 = (c1 >> 1) ^ if c1 & 1 == 1 { 0xedb8_8320u32 } else { 0 };
            let c3 = (c2 >> 1) ^ if c2 & 1 == 1 { 0xedb8_8320u32 } else { 0 };
            let c4 = (c3 >> 1) ^ if c3 & 1 == 1 { 0xedb8_8320u32 } else { 0 };
            let c5 = (c4 >> 1) ^ if c4 & 1 == 1 { 0xedb8_8320u32 } else { 0 };
            let c6 = (c5 >> 1) ^ if c5 & 1 == 1 { 0xedb8_8320u32 } else { 0 };
            let c7 = (c6 >> 1) ^ if c6 & 1 == 1 { 0xedb8_8320u32 } else { 0 };
            let c8 = (c7 >> 1) ^ if c7 & 1 == 1 { 0xedb8_8320u32 } else { 0 };
            crc_of(s.push(b)) ^ 0xffff_ffff == c8
        }),
{
    assert(s.push(b).drop_last() =~= s);
    lemma_xor(0xffff_ffff, 0, 0);
    lemma_xor(crc_rest(s), 0, 0xffff_ffff);
    lemma_xor(crc_rest(s.push(b)), 0, 0xffff_ffff);
    assert(forall|c: u32| #[trigger]
        (c >> 1) ^ (if c & 1 == 1 {
            0xedb8_8320u32
        } else {
            0
        }) == if c & 1 != 0 {
            0xedb88320u32 ^ (c >> 1)
        } else {
            c >> 1
        }) by (bit_vector);
    reveal_with_fuel(crc_bits, 9);
}

/// **Damage within four bytes in a row is always seen**: byte strings of one length
/// that differ, and only there, have different checksums.
pub proof fn law_crc_burst(a: Seq<u8>, b: Seq<u8>, k: int)
    requires
        a.len() == b.len(),
        a != b,
        forall|i: int| 0 <= i < a.len() && !(k <= i < k + 4) ==> a[i] == b[i],
    ensures
        crc_of(a) != crc_of(b),
{
    let n = a.len() as int;
    let j = if k < 0 {
        0
    } else if k > n {
        n
    } else {
        k
    };
    let e = if k + 4 < 0 {
        0
    } else if k + 4 > n {
        n
    } else {
        k + 4
    };
    let head = a.take(j);
    let wa = a.subrange(j, e);
    let wb = b.subrange(j, e);
    let tail = a.skip(e);
    assert(b.take(j) =~= head);
    assert(b.skip(e) =~= tail);
    assert(a =~= head + wa + tail);
    assert(b =~= head + wb + tail);
    if crc_of(a) == crc_of(b) {
        lemma_xor(crc_rest(a), crc_rest(b), 0xffff_ffff);
        lemma_crc_suffix(head + wa, head + wb, tail);
        lemma_crc_word(head, wa);
        lemma_crc_word(head, wb);
        let r = crc_rest(head);
        let va = le_value(wa) as u32;
        let vb = le_value(wb) as u32;
        lemma_crc_bits_injective(r ^ va, r ^ vb, 8 * wa.len());
        lemma_xor(va, vb, r);
        lemma_xor(vb, va, r);
        law_le_injective(wa, wb);
    }
}

/// Two byte strings of one length that differ in exactly one byte have different
/// checksums.
pub proof fn law_crc_byte(s: Seq<u8>, i: int, b: u8)
    requires
        0 <= i < s.len(),
        b != s[i],
    ensures
        crc_of(s.update(i, b)) != crc_of(s),
{
    assert(s.update(i, b)[i] == b);
    law_crc_burst(s, s.update(i, b), i);
}

/// Four bytes behind `s` are its checksum exactly where the remainder of all of it
/// is the one that every such string has.
pub proof fn law_crc_residue(s: Seq<u8>, t: Seq<u8>)
    requires
        t.len() == 4,
    ensures
        le_value(t) == crc_of(s) <==> crc_of(s + t) == crc_of(seq![0u8, 0, 0, 0]),
{
    let none = Seq::<u8>::empty();
    let zeros = seq![0u8, 0, 0, 0];
    lemma_crc_word(s, t);
    lemma_crc_word(none, zeros);
    assert(none + zeros =~= zeros);
    assert(le_value(zeros) == 0) by {
        reveal_with_fuel(le_value, 5);
    }
    let ones = 0xffff_ffffu32;
    let r = crc_rest(s);
    let v = le_value(t) as u32;
    lemma_xor(ones, 0, 0);
    lemma_xor(crc_rest(s + t), crc_rest(zeros), ones);
    lemma_xor(v, ones, r);
    if crc_of(s + t) == crc_of(zeros) {
        lemma_crc_bits_injective(r ^ v, ones, 32);
        assert(v == r ^ ones);
    }
}

} // verus!
