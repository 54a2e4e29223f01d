//! Pairing functions on integers, with which a node can be packed into one
//! `u128`.
//!
//! [`interleave`] alternates the bits of two numbers, which suits numbers of
//! similar magnitude. [`minsky`] puts one of them into the number of trailing
//! zeros, which costs little where it is small. A node packs as
//! `minsky(interleave(lo_code, hi_code), skip)`.

use vstd::prelude::*;

verus! {

/// Bit `i` of `x`.
pub open spec fn bit64(x: u64, i: u64) -> bool {
    (x >> i) & 1 == 1
}

/// Bit `i` of `z`.
pub open spec fn bit128(z: u128, i: u128) -> bool {
    (z >> i) & 1 == 1
}

/// Whether bit `i` of `x` is bit `2 * i` of `z`, and that of `y` the next one.
pub open spec fn woven_at(x: u64, y: u64, z: u128, i: u64) -> bool {
    bit64(x, i) == bit128(z, (2 * i) as u128) && bit64(y, i) == bit128(z, (2 * i + 1) as u128)
}

/// Whether the even bits of `z` are those of `x`, and the odd ones those of `y`.
pub open spec fn woven(x: u64, y: u64, z: u128) -> bool {
    forall|i: u64| i < 64 ==> #[trigger] woven_at(x, y, z, i)
}

/// `x` with its bits at the even positions.
spec fn spread_of(x: u64) -> u128 {
    let x0 = x as u128;
    let x1 = (x0 | (x0 << 32)) & 0x0000_0000_ffff_ffff_0000_0000_ffff_ffff;
    let x2 = (x1 | (x1 << 16)) & 0x0000_ffff_0000_ffff_0000_ffff_0000_ffff;
    let x3 = (x2 | (x2 << 8)) & 0x00ff_00ff_00ff_00ff_00ff_00ff_00ff_00ff;
    let x4 = (x3 | (x3 << 4)) & 0x0f0f_0f0f_0f0f_0f0f_0f0f_0f0f_0f0f_0f0f;
    let x5 = (x4 | (x4 << 2)) & 0x3333_3333_3333_3333_3333_3333_3333_3333;
    (x5 | (x5 << 1)) & 0x5555_5555_5555_5555_5555_5555_5555_5555
}

/// Spreading puts bit `i` at position `2 * i`, and zeros between.
proof fn lemma_spread(x: u64, i: u64)
    requires
        i < 64,
    ensures
        bit64(x, i) == bit128(spread_of(x), (2 * i) as u128),
        !bit128(spread_of(x), (2 * i + 1) as u128),
{
    let x0 = x as u128;
    let x1 = (x0 | (x0 << 32)) & 0x0000_0000_ffff_ffff_0000_0000_ffff_ffff;
    let x2 = (x1 | (x1 << 16)) & 0x0000_ffff_0000_ffff_0000_ffff_0000_ffff;
    let x3 = (x2 | (x2 << 8)) & 0x00ff_00ff_00ff_00ff_00ff_00ff_00ff_00ff;
    let x4 = (x3 | (x3 << 4)) & 0x0f0f_0f0f_0f0f_0f0f_0f0f_0f0f_0f0f_0f0f;
    let x5 = (x4 | (x4 << 2)) & 0x3333_3333_3333_3333_3333_3333_3333_3333;
    let x6 = (x5 | (x5 << 1)) & 0x5555_5555_5555_5555_5555_5555_5555_5555;
    let even = (2 * i) as u128;
    let odd = (2 * i + 1) as u128;
    assert(((x >> i) & 1 == 1) == ((x6 >> even) & 1 == 1) && (x6 >> odd) & 1 != 1) by (bit_vector)
        requires
            i < 64,
            even == 2 * i,
            odd == 2 * i + 1,
            x0 == x as u128,
            x1 == (x0 | (x0 << 32)) & 0x0000_0000_ffff_ffff_0000_0000_ffff_ffffu128,
            x2 == (x1 | (x1 << 16)) & 0x0000_ffff_0000_ffff_0000_ffff_0000_ffffu128,
            x3 == (x2 | (x2 << 8)) & 0x00ff_00ff_00ff_00ff_00ff_00ff_00ff_00ffu128,
            x4 == (x3 | (x3 << 4)) & 0x0f0f_0f0f_0f0f_0f0f_0f0f_0f0f_0f0f_0f0fu128,
            x5 == (x4 | (x4 << 2)) & 0x3333_3333_3333_3333_3333_3333_3333_3333u128,
            x6 == (x5 | (x5 << 1)) & 0x5555_5555_5555_5555_5555_5555_5555_5555u128,
    ;
}

/// One number spread to the even positions, the other to the odd ones.
spec fn merged(x: u64, y: u64) -> u128 {
    spread_of(x) | (spread_of(y) << 1)
}

/// What is merged is interleaved.
proof fn lemma_merged(x: u64, y: u64)
    ensures
        woven(x, y, merged(x, y)),
{
    let a = spread_of(x);
    let b = spread_of(y);
    let z = merged(x, y);
    assert forall|i: u64| i < 64 implies #[trigger] woven_at(x, y, z, i) by {
        let even = (2 * i) as u128;
        let odd = (2 * i + 1) as u128;
        lemma_spread(x, i);
        lemma_spread(y, i);
        if i > 0 {
            lemma_spread(y, (i - 1) as u64);
        }
        let below = if i > 0 {
            (2 * i - 1) as u128
        } else {
            0
        };
        assert(((z >> even) & 1 == 1) == ((a >> even) & 1 == 1 || (i > 0 && (b >> below) & 1 == 1))
            && ((z >> odd) & 1 == 1) == ((a >> odd) & 1 == 1 || (b >> even) & 1 == 1))
            by (bit_vector)
            requires
                i < 64,
                even == 2 * i,
                odd == 2 * i + 1,
                i > 0 ==> below == 2 * i - 1,
                z == a | (b << 1),
        ;
    }
}

/// Spreads the bits of `x` to the even positions.
fn spread(x: u64) -> (z: u128)
    ensures
        z == spread_of(x),
{
    let x0: u128 = x as u128;
    let x1: u128 = (x0 | (x0 << 32)) & 0x0000_0000_ffff_ffff_0000_0000_ffff_ffff;
    let x2: u128 = (x1 | (x1 << 16)) & 0x0000_ffff_0000_ffff_0000_ffff_0000_ffff;
    let x3: u128 = (x2 | (x2 << 8)) & 0x00ff_00ff_00ff_00ff_00ff_00ff_00ff_00ff;
    let x4: u128 = (x3 | (x3 << 4)) & 0x0f0f_0f0f_0f0f_0f0f_0f0f_0f0f_0f0f_0f0f;
    let x5: u128 = (x4 | (x4 << 2)) & 0x3333_3333_3333_3333_3333_3333_3333_3333;
    (x5 | (x5 << 1)) & 0x5555_5555_5555_5555_5555_5555_5555_5555
}

/// Gathers the bits of `z` at the even positions.
fn gather(z: u128) -> (x: u64)
    ensures
        forall|i: u64| i < 64 ==> #[trigger] bit64(x, i) == bit128(z, (2 * i) as u128),
{
    let z0: u128 = z & 0x5555_5555_5555_5555_5555_5555_5555_5555;
    let z1: u128 = (z0 | (z0 >> 1)) & 0x3333_3333_3333_3333_3333_3333_3333_3333;
    let z2: u128 = (z1 | (z1 >> 2)) & 0x0f0f_0f0f_0f0f_0f0f_0f0f_0f0f_0f0f_0f0f;
    let z3: u128 = (z2 | (z2 >> 4)) & 0x00ff_00ff_00ff_00ff_00ff_00ff_00ff_00ff;
    let z4: u128 = (z3 | (z3 >> 8)) & 0x0000_ffff_0000_ffff_0000_ffff_0000_ffff;
    let z5: u128 = (z4 | (z4 >> 16)) & 0x0000_0000_ffff_ffff_0000_0000_ffff_ffff;
    let z6: u128 = (z5 | (z5 >> 32)) & 0x0000_0000_0000_0000_ffff_ffff_ffff_ffff;
    let x: u64 = #[verifier::truncate] (z6 as u64);
    proof {
        assert forall|i: u64| i < 64 implies #[trigger] bit64(x, i) == bit128(
            z,
            (2 * i) as u128,
        ) by {
            let even = (2 * i) as u128;
            assert(((x >> i) & 1 == 1) == ((z >> even) & 1 == 1)) by (bit_vector)
                requires
                    i < 64,
                    even == 2 * i,
                    z0 == z & 0x5555_5555_5555_5555_5555_5555_5555_5555u128,
                    z1 == (z0 | (z0 >> 1)) & 0x3333_3333_3333_3333_3333_3333_3333_3333u128,
                    z2 == (z1 | (z1 >> 2)) & 0x0f0f_0f0f_0f0f_0f0f_0f0f_0f0f_0f0f_0f0fu128,
                    z3 == (z2 | (z2 >> 4)) & 0x00ff_00ff_00ff_00ff_00ff_00ff_00ff_00ffu128,
                    z4 == (z3 | (z3 >> 8)) & 0x0000_ffff_0000_ffff_0000_ffff_0000_ffffu128,
                    z5 == (z4 | (z4 >> 16)) & 0x0000_0000_ffff_ffff_0000_0000_ffff_ffffu128,
                    z6 == (z5 | (z5 >> 32)) & 0x0000_0000_0000_0000_ffff_ffff_ffff_ffffu128,
                    x == z6 as u64,
            ;
        }
    }
    x
}

/// Alternates the bits of two numbers: those of `x` go to the even positions,
/// those of `y` to the odd ones.
pub fn interleave(x: u64, y: u64) -> (z: u128)
    ensures
        woven(x, y, z),
{
    proof {
        lemma_merged(x, y);
    }
    spread(x) | (spread(y) << 1)
}

/// The two numbers whose bits alternate in `z`.
pub fn deinterleave(z: u128) -> (r: (u64, u64))
    ensures
        woven(r.0, r.1, z),
{
    let x: u64 = gather(z);
    let y: u64 = gather(z >> 1);
    proof {
        assert forall|i: u64| i < 64 implies #[trigger] woven_at(x, y, z, i) by {
            let even = (2 * i) as u128;
            let odd = (2 * i + 1) as u128;
            assert(bit64(x, i) == bit128(z, even));
            assert(bit64(y, i) == bit128(z >> 1, even));
            assert((z >> 1) >> even == z >> odd) by (bit_vector)
                requires
                    i < 64,
                    even == 2 * i,
                    odd == 2 * i + 1,
            ;
        }
    }
    (x, y)
}

/// Numbers with the same bits are equal.
proof fn lemma_bits64(a: u64, b: u64, k: u64)
    requires
        k <= 64,
        forall|i: u64| i < 64 ==> #[trigger] bit64(a, i) == bit64(b, i),
    ensures
        k < 64 ==> a >> k == b >> k,
        k == 0 ==> a == b,
    decreases 64 - k,
{
    if k < 64 {
        let n = (k + 1) as u64;
        lemma_bits64(a, b, n);
        assert(bit64(a, k) == bit64(b, k));
        assert(a >> k == b >> k) by (bit_vector)
            requires
                k < 64,
                n == k + 1,
                n < 64 ==> a >> n == b >> n,
                ((a >> k) & 1 == 1) == ((b >> k) & 1 == 1),
        ;
        assert(a >> 0u64 == a && b >> 0u64 == b) by (bit_vector);
    }
}

/// Numbers with the same bits are equal.
#[verifier::rlimit(30)]
proof fn lemma_bits128(a: u128, b: u128, k: u128)
    requires
        k <= 128,
        forall|i: u128| i < 128 ==> #[trigger] bit128(a, i) == bit128(b, i),
    ensures
        k < 128 ==> a >> k == b >> k,
        k == 0 ==> a == b,
    decreases 128 - k,
{
    if k < 128 {
        let n = (k + 1) as u128;
        lemma_bits128(a, b, n);
        assert(bit128(a, k) == bit128(b, k));
        assert(a >> k == b >> k) by (bit_vector)
            requires
                k < 128,
                n == k + 1,
                n < 128 ==> a >> n == b >> n,
                ((a >> k) & 1 == 1) == ((b >> k) & 1 == 1),
        ;
        assert(a >> 0u128 == a && b >> 0u128 == b) by (bit_vector);
    }
}

/// Taking apart what was interleaved gives both numbers back.
pub proof fn law_deinterleave(x: u64, y: u64, x2: u64, y2: u64, z: u128)
    requires
        woven(x, y, z),
        woven(x2, y2, z),
    ensures
        x == x2,
        y == y2,
{
    assert forall|i: u64| i < 64 implies #[trigger] bit64(x, i) == bit64(x2, i) by {
        assert(woven_at(x, y, z, i) && woven_at(x2, y2, z, i));
    }
    assert forall|i: u64| i < 64 implies #[trigger] bit64(y, i) == bit64(y2, i) by {
        assert(woven_at(x, y, z, i) && woven_at(x2, y2, z, i));
    }
    lemma_bits64(x, x2, 0);
    lemma_bits64(y, y2, 0);
}

/// Interleaving what was taken apart gives the number back.
pub proof fn law_interleave(x: u64, y: u64, z: u128, z2: u128)
    requires
        woven(x, y, z),
        woven(x, y, z2),
    ensures
        z == z2,
{
    assert forall|i: u128| i < 128 implies #[trigger] bit128(z, i) == bit128(z2, i) by {
        let j = (i / 2) as u64;
        assert(woven_at(x, y, z, j) && woven_at(x, y, z2, j));
        assert(i == (2 * j) as u128 || i == (2 * j + 1) as u128);
    }
    lemma_bits128(z, z2, 0);
}

/// Where the bits go: those of `x` to the even places, and those of `y` to the odd
/// ones.
pub proof fn law_interleave_bits(x: u64, y: u64, z: u128)
    ensures
        woven(x, y, z) <==> forall|i: u64|
            i < 64 ==> #[trigger] ((x >> i) & 1) as int == ((z >> ((2 * i) as u128)) & 1) as int
                && ((y >> i) & 1) as int == ((z >> ((2 * i + 1) as u128)) & 1) as int,
{
    lemma_low_bits(x, y, z);
    if woven(x, y, z) {
        assert forall|i: u64| i < 64 implies #[trigger] ((x >> i) & 1) as int == ((z >> ((2
            * i) as u128)) & 1) as int && ((y >> i) & 1) as int == ((z >> ((2 * i + 1) as u128))
            & 1) as int by {
            assert(woven_at(x, y, z, i));
        }
    }
    if forall|i: u64|
        i < 64 ==> #[trigger] ((x >> i) & 1) as int == ((z >> ((2 * i) as u128)) & 1) as int && ((y
            >> i) & 1) as int == ((z >> ((2 * i + 1) as u128)) & 1) as int {
        assert forall|i: u64| i < 64 implies #[trigger] woven_at(x, y, z, i) by {
            assert(((x >> i) & 1) as int == ((z >> ((2 * i) as u128)) & 1) as int);
        }
    }
}

/// A bit is zero or one.
proof fn lemma_low_bits(x: u64, y: u64, z: u128)
    ensures
        forall|i: u64| #[trigger] ((x >> i) & 1) <= 1,
        forall|i: u64| #[trigger] ((y >> i) & 1) <= 1,
        forall|i: u128| #[trigger] ((z >> i) & 1) <= 1,
{
    assert((forall|a: u64| #[trigger] (a & 1) <= 1) && (forall|b: u128| #[trigger] (b & 1) <= 1))
        by (bit_vector);
}

/// The number in which the bits of `x` and `y` alternate.
pub open spec fn weave(x: u64, y: u64) -> u128 {
    choose|z: u128| woven(x, y, z)
}

/// There is one such number.
pub proof fn lemma_weave(x: u64, y: u64, z: u128)
    requires
        woven(x, y, z),
    ensures
        weave(x, y) == z,
{
    law_interleave(x, y, weave(x, y), z);
}

/// The number exists.
pub proof fn lemma_weave_woven(x: u64, y: u64)
    ensures
        woven(x, y, weave(x, y)),
{
    lemma_merged(x, y);
}

/// The two numbers whose bits alternate in `z`.
pub open spec fn unweave(z: u128) -> (u64, u64) {
    choose|p: (u64, u64)| woven(p.0, p.1, z)
}

/// There is one such pair.
pub proof fn lemma_unweave(x: u64, y: u64, z: u128)
    requires
        woven(x, y, z),
    ensures
        unweave(z) == (x, y),
{
    let p = (x, y);
    assert(woven(p.0, p.1, z));
    let q = unweave(z);
    law_deinterleave(x, y, q.0, q.1, z);
}

/// The pair of `x` and `y`: the bits of `x`, a one, and `y` zeros.
pub open spec fn paired(x: u128, y: u32) -> u128 {
    (x << ((y + 1) as u32)) | (1u128 << y)
}

/// Whether no bit of `x` is lost in the pair.
pub open spec fn pairs(x: u128, y: u32) -> bool {
    y <= 126 && x >> ((127 - y) as u32) == 0
}

/// Minsky pairing: `x` above a one and `y` zeros. Bits of `x` that do not fit
/// are dropped.
pub fn minsky(x: u128, y: u32) -> (z: u128)
    requires
        y <= 126,
    ensures
        z == paired(x, y),
        z != 0,
{
    let z: u128 = (x << (y + 1)) | (1u128 << y);
    assert(z != 0) by (bit_vector)
        requires
            y <= 126,
            z == (x << ((y + 1) as u32)) | (1u128 << y),
    ;
    z
}

/// The bits of a pair: `y` zeros, a one, and the bits of `x` as far as there is room.
pub proof fn law_minsky_bits(x: u128, y: u32, i: u32)
    requires
        y <= 126,
        i < 128,
    ensures
        (paired(x, y) >> i) & 1 == if i < y {
            0
        } else if i == y {
            1
        } else {
            (x >> ((i - y - 1) as u32)) & 1
        },
{
    let z = paired(x, y);
    let d = (i - y - 1) as u32;
    assert((z >> i) & 1 == if i < y {
        0
    } else if i == y {
        1
    } else {
        (x >> d) & 1
    }) by (bit_vector)
        requires
            y <= 126,
            i < 128,
            i > y ==> d == i - y - 1,
            z == (x << ((y + 1) as u32)) | (1u128 << y),
    ;
}

/// Takes a pair apart. The highest bit alone is not a pair.
#[verifier::rlimit(30)]
pub fn unminsky(z: u128) -> (r: (u128, u32))
    requires
        z != 0,
        z != 0x8000_0000_0000_0000_0000_0000_0000_0000,
    ensures
        pairs(r.0, r.1),
        paired(r.0, r.1) == z,
{
    let mut y: u32 = 0;
    assert(z & sub_one(1u128 << 0u32) == 0) by {
        assert(1u128 << 0u32 == 1) by (bit_vector);
        assert(z & 0 == 0) by (bit_vector);
    }
    while (z >> y) & 1 == 0
        invariant
            y <= 126,
            z != 0,
            z != 0x8000_0000_0000_0000_0000_0000_0000_0000,
            z & sub_one(1u128 << y) == 0,
        decreases 127 - y,
    {
        proof {
            let low = sub_one(1u128 << y);
            let n = (y + 1) as u32;
            assert(1u128 << y >= 1 && 1u128 << n >= 1) by (bit_vector)
                requires
                    y <= 126,
                    n == y + 1,
            ;
            let next = sub_one(1u128 << n);
            assert(z & next == 0 && n <= 126) by (bit_vector)
                requires
                    y <= 126,
                    n == y + 1,
                    low + 1 == 1u128 << y,
                    next + 1 == 1u128 << n,
                    z & low == 0,
                    (z >> y) & 1 == 0,
                    z != 0,
                    z != 0x8000_0000_0000_0000_0000_0000_0000_0000u128,
            ;
        }
        y += 1;
    }
    let x: u128 = z >> (y + 1);
    proof {
        let low = sub_one(1u128 << y);
        assert(1u128 << y >= 1) by (bit_vector)
            requires
                y <= 126,
        ;
        let n = (y + 1) as u32;
        let k = (127 - y) as u32;
        assert((x << n) | (1u128 << y) == z && x >> k == 0) by (bit_vector)
            requires
                y <= 126,
                n == y + 1,
                k == 127 - y,
                low + 1 == 1u128 << y,
                z & low == 0,
                (z >> y) & 1 != 0,
                x == z >> n,
        ;
    }
    (x, y)
}

spec fn sub_one(x: u128) -> u128 {
    (x - 1) as u128
}

/// Taking a pair apart gives back both numbers: no two pairs are equal.
#[verifier::rlimit(30)]
pub proof fn law_minsky(x: u128, y: u32, x2: u128, y2: u32)
    requires
        pairs(x, y),
        pairs(x2, y2),
        paired(x, y) == paired(x2, y2),
    ensures
        x == x2,
        y == y2,
{
    let n = (y + 1) as u32;
    let n2 = (y2 + 1) as u32;
    let k = (127 - y) as u32;
    let k2 = (127 - y2) as u32;
    assert(y == y2 && x == x2) by (bit_vector)
        requires
            y <= 126,
            y2 <= 126,
            n == y + 1,
            n2 == y2 + 1,
            k == 127 - y,
            k2 == 127 - y2,
            x >> k == 0,
            x2 >> k2 == 0,
            (x << n) | (1u128 << y) == (x2 << n2) | (1u128 << y2),
    ;
}

} // verus!
