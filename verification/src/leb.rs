//! Unsigned LEB128 for `u128`: seven payload bits per byte, least significant
//! group first, the high bit set on every byte but the last.

use vstd::arithmetic::div_mod::lemma_div_denominator;
use vstd::arithmetic::power::{lemma_pow0, lemma_pow1, lemma_pow_positive, pow};
use vstd::prelude::*;

verus! {

/// The number of bytes in the longest encoding of a `u128`.
pub const MAX_LEN: usize = 19;

/// The encoding of `x`.
pub open spec fn leb_bytes(x: nat) -> Seq<u8>
    decreases x,
{
    if x < 128 {
        seq![x as u8]
    } else {
        seq![(x % 128 + 128) as u8] + leb_bytes(x / 128)
    }
}

/// The number at the head of `s` and the number of bytes it takes; `None`
/// where `s` ends before a byte without the continuation bit.
pub open spec fn leb_decode(s: Seq<u8>) -> Option<(nat, nat)>
    decreases s.len(),
{
    if s.len() == 0 {
        None
    } else if s[0] < 128 {
        Some((s[0] as nat, 1nat))
    } else {
        match leb_decode(s.drop_first()) {
            Some((v, n)) => Some(((s[0] - 128 + 128 * v) as nat, n + 1)),
            None => None,
        }
    }
}

/// `128` to the power of `n`.
pub open spec fn pow128(n: nat) -> nat
    decreases n,
{
    if n == 0 {
        1
    } else {
        128 * pow128((n - 1) as nat)
    }
}

/// What is decoded takes at least one byte, and no more than there are.
pub proof fn lemma_decode_len(s: Seq<u8>)
    ensures
        leb_decode(s) matches Some((v, n)) ==> 1 <= n <= s.len(),
    decreases s.len(),
{
    if s.len() > 0 && s[0] >= 128 {
        lemma_decode_len(s.drop_first());
    }
}

/// Decoding gives back what was encoded, whatever bytes follow it.
pub proof fn law_leb_roundtrip(x: nat, rest: Seq<u8>)
    ensures
        leb_decode(leb_bytes(x) + rest) == Some((x, leb_bytes(x).len())),
    decreases x,
{
    let s = leb_bytes(x) + rest;
    if x >= 128 {
        law_leb_roundtrip(x / 128, rest);
        assert(s.drop_first() =~= leb_bytes(x / 128) + rest);
        assert(s[0] as nat == x % 128 + 128);
        assert(s[0] - 128 + 128 * (x / 128) == x);
    }
}

/// A number is written in groups of seven bits, the lowest first, without a group
/// that it does not need; all but the last byte have the high bit set.
pub proof fn law_leb_groups(x: nat)
    ensures
        ({
            let s = leb_bytes(x);
            &&& s.len() >= 1
            &&& x < pow(128, s.len())
            &&& s.len() > 1 ==> x >= pow(128, (s.len() - 1) as nat)
            &&& forall|i: int|
                0 <= i < s.len() ==> (#[trigger] s[i]) as int == (x as int / pow(128, i as nat))
                    % 128 + if i < s.len() - 1 {
                    128int
                } else {
                    0
                }
        }),
    decreases x,
{
    reveal(pow);
    let s = leb_bytes(x);
    lemma_pow0(128);
    if x < 128 {
        lemma_pow1(128);
        assert(x as int / 1 == x as int);
    } else {
        let t = leb_bytes(x / 128);
        law_leb_groups(x / 128);
        let p = pow(128, t.len());
        let q = pow(128, (t.len() - 1) as nat);
        assert(pow(128, s.len()) == 128 * p);
        assert(p == 128 * q);
        assert(x < 128 * p) by (nonlinear_arith)
            requires
                x / 128 < p,
        ;
        if t.len() == 1 {
            assert(q == 1);
        }
        assert(x >= p) by (nonlinear_arith)
            requires
                x / 128 >= q,
                p == 128 * q,
        ;
        assert forall|i: int| 0 <= i < s.len() implies (#[trigger] s[i]) as int == (x as int / pow(
            128,
            i as nat,
        )) % 128 + if i < s.len() - 1 {
            128int
        } else {
            0
        } by {
            if i == 0 {
                assert(x as int / 1 == x as int);
            } else {
                let d = pow(128, (i - 1) as nat);
                assert(s[i] == t[i - 1]);
                lemma_pow_positive(128, (i - 1) as nat);
                lemma_div_denominator(x as int, 128, d);
                assert(pow(128, i as nat) == 128 * d);
            }
        }
    }
}

/// What is read as a number: bytes up to the first without the high bit, each of
/// which has seven bits of it, the lowest first.
pub proof fn law_leb_read(s: Seq<u8>)
    ensures
        match leb_decode(s) {
            None => forall|i: int| 0 <= i < s.len() ==> #[trigger] s[i] >= 128,
            Some((v, n)) => {
                &&& 1 <= n <= s.len()
                &&& s[n - 1] < 128
                &&& forall|i: int| 0 <= i < n - 1 ==> #[trigger] s[i] >= 128
                &&& v < pow(128, n)
                &&& forall|i: int|
                    0 <= i < n ==> (v as int / pow(128, i as nat)) % 128 == #[trigger] s[i] % 128
            },
        },
    decreases s.len(),
{
    reveal(pow);
    lemma_pow0(128);
    lemma_pow1(128);
    if s.len() > 0 {
        let t = s.drop_first();
        if s[0] < 128 {
            assert(s[0] as int / 1 == s[0] as int);
        } else {
            law_leb_read(t);
            match leb_decode(t) {
                None => {
                    assert forall|i: int| 0 <= i < s.len() implies #[trigger] s[i] >= 128 by {
                        if i > 0 {
                            assert(s[i] == t[i - 1]);
                        }
                    }
                },
                Some((w, m)) => {
                    let v = (s[0] - 128 + 128 * w) as nat;
                    let n = m + 1;
                    assert(s[n - 1] == t[m - 1]);
                    assert forall|i: int| 0 <= i < n - 1 implies #[trigger] s[i] >= 128 by {
                        if i > 0 {
                            assert(s[i] == t[i - 1]);
                        }
                    }
                    let p = pow(128, m);
                    assert(pow(128, n) == 128 * p);
                    assert(v % 128 == s[0] % 128 && v / 128 == w);
                    assert forall|i: int| 0 <= i < n implies (v as int / pow(128, i as nat)) % 128
                        == #[trigger] s[i] % 128 by {
                        if i == 0 {
                            assert(v as int / 1 == v as int);
                        } else {
                            let d = pow(128, (i - 1) as nat);
                            assert(s[i] == t[i - 1]);
                            lemma_pow_positive(128, (i - 1) as nat);
                            lemma_div_denominator(v as int, 128, d);
                            assert(pow(128, i as nat) == 128 * d);
                        }
                    }
                },
            }
        }
    }
}

/// Decoding looks at no byte behind the number.
pub proof fn lemma_decode_prefix(s: Seq<u8>, t: Seq<u8>)
    requires
        leb_decode(s) is Some,
    ensures
        leb_decode(s + t) == leb_decode(s),
    decreases s.len(),
{
    if s[0] >= 128 {
        assert((s + t).drop_first() =~= s.drop_first() + t);
        lemma_decode_prefix(s.drop_first(), t);
    }
}

/// Decoding needs no byte behind the number.
pub proof fn lemma_decode_take(s: Seq<u8>, k: nat)
    requires
        leb_decode(s) matches Some((v, n)) && n <= k <= s.len(),
    ensures
        leb_decode(s.take(k as int)) == leb_decode(s),
    decreases s.len(),
{
    if s[0] >= 128 {
        lemma_decode_len(s.drop_first());
        assert(s.take(k as int).drop_first() =~= s.drop_first().take(k - 1));
        lemma_decode_take(s.drop_first(), (k - 1) as nat);
    }
}

/// An encoding is never empty.
pub proof fn lemma_encode_min_len(x: nat)
    ensures
        1 <= leb_bytes(x).len(),
{
}

/// An encoding has at least one byte, and `x < 128^k` needs at most `k`.
pub proof fn lemma_encode_len(x: nat, k: nat)
    requires
        k >= 1,
        x < pow128(k),
    ensures
        1 <= leb_bytes(x).len() <= k,
    decreases k,
{
    reveal_with_fuel(pow128, 2);
    if x >= 128 {
        assert(x / 128 < pow128((k - 1) as nat)) by (nonlinear_arith)
            requires
                x < 128 * pow128((k - 1) as nat),
        ;
        lemma_encode_len(x / 128, (k - 1) as nat);
    }
}

/// The powers that bound the two integer widths in use.
pub proof fn lemma_pow128_values()
    ensures
        pow128(1) == 128,
        u64::MAX < pow128(10),
        pow128(18) == 0x4000_0000_0000_0000_0000_0000_0000_0000,
        u128::MAX < pow128(19),
{
    reveal_with_fuel(pow128, 20);
}

/// Appends the encoding of `x` to `out`.
pub fn encode_u128(x: u128, out: &mut Vec<u8>)
    ensures
        final(out)@ == old(out)@ + leb_bytes(x as nat),
        1 <= leb_bytes(x as nat).len() <= MAX_LEN,
{
    let ghost start = out@;
    let mut rest: u128 = x;
    proof {
        lemma_pow128_values();
        lemma_encode_len(x as nat, 19);
    }
    loop
        invariant_except_break
            start + leb_bytes(x as nat) == out@ + leb_bytes(rest as nat),
        ensures
            out@ == start + leb_bytes(x as nat),
        decreases rest,
    {
        let byte: u8 = (rest & 0x7f) as u8;
        let next: u128 = rest >> 7;
        assert(byte == rest % 128 && next == rest / 128 && byte < 128 && (byte | 0x80) == byte
            + 128) by (bit_vector)
            requires
                byte == (rest & 0x7f) as u8,
                next == rest >> 7,
        ;
        if next == 0 {
            out.push(byte);
            assert(out@ =~= start + leb_bytes(x as nat));
            break;
        }
        let ghost before = out@;
        out.push(byte | 0x80);
        assert(before + leb_bytes(rest as nat) =~= out@ + leb_bytes(next as nat));
        rest = next;
    }
}

/// Decodes the number at the head of `buf`; the result holds it and the
/// number of bytes it took. A number that takes nineteen bytes may exceed
/// `u128`: its high bits are dropped.
pub fn decode_u128(buf: &[u8]) -> (r: (u128, usize))
    requires
        leb_decode(buf@) matches Some((_, n)) && n <= MAX_LEN,
    ensures
        leb_decode(buf@) == Some((leb_decode(buf@).unwrap().0, r.1 as nat)),
        r.0 as nat == leb_decode(buf@).unwrap().0 % (u128::MAX + 1) as nat,
        1 <= r.1 <= buf@.len(),
{
    let mut result: u128 = 0;
    let mut shift: u32 = 0;
    let mut i: usize = 0;
    proof {
        assert(buf@.skip(0) =~= buf@);
        lemma_decode_len(buf@);
        assert(1u128 << 0u32 == 1) by (bit_vector);
        lemma_pow128_values();
        assert(1 * leb_decode(buf@).unwrap().0 == leb_decode(buf@).unwrap().0);
    }
    loop
        invariant
            leb_decode(buf@) matches Some((_, n)) && n <= MAX_LEN,
            leb_decode(buf@.skip(i as int)) matches Some((v, n)) && leb_decode(buf@) == Some(
                ((result + pow128(i as nat) * v) as nat, (i + n) as nat),
            ),
            i < MAX_LEN,
            i < buf@.len(),
            shift == 7 * i,
            1u128 << shift == pow128(i as nat),
            result < 1u128 << shift,
            pow128(18) == 0x4000_0000_0000_0000_0000_0000_0000_0000,
        decreases buf@.len() - i,
    {
        let b: u8 = buf[i];
        let chunk: u128 = (b & 0x7f) as u128;
        let ghost s = buf@.skip(i as int);
        let ghost one = 1u128 << shift;
        let ghost part = chunk << shift;
        let ghost before = result;
        result |= chunk << shift;
        proof {
            assert(chunk < 128 && chunk == b % 128) by (bit_vector)
                requires
                    chunk == (b & 0x7f) as u128,
            ;
            assert(before | part == before + part) by (bit_vector)
                requires
                    before < one,
                    one == 1u128 << shift,
                    part == chunk << shift,
                    shift <= 126,
            ;
            if shift <= 119 {
                let up = (shift + 7) as u32;
                assert(part == chunk * one && (1u128 << up) == 128 * one && before + part
                    < 128 * one) by (bit_vector)
                    requires
                        before < one,
                        chunk < 128,
                        one == 1u128 << shift,
                        part == chunk << shift,
                        up == shift + 7,
                        shift <= 119,
                ;
            } else {
                assert(part == (chunk % 4) * one) by (bit_vector)
                    requires
                        chunk < 128,
                        one == 1u128 << 126u32,
                        part == chunk << 126u32,
                ;
            }
            assert((b & 0x80 == 0) == (b < 128)) by (bit_vector);
            lemma_decode_len(s);
        }
        if b & 0x80 == 0 {
            proof {
                let value = before + pow128(i as nat) * b;
                assert(pow128(i as nat) * b == chunk * one) by (nonlinear_arith)
                    requires
                        pow128(i as nat) == one,
                        b == chunk,
                ;
                if shift > 119 {
                    assert(chunk * one == (chunk % 4) * one + (u128::MAX + 1) * (chunk / 4))
                        by (nonlinear_arith)
                        requires
                            one * 4 == u128::MAX + 1,
                    ;
                    assert(value == result + (u128::MAX + 1) * (chunk / 4));
                    vstd::arithmetic::div_mod::lemma_fundamental_div_mod_converse(
                        value,
                        u128::MAX + 1,
                        (chunk / 4) as int,
                        result as int,
                    );
                } else {
                    vstd::arithmetic::div_mod::lemma_small_mod(
                        value as nat,
                        (u128::MAX + 1) as nat,
                    );
                }
            }
            return (result, i + 1);
        }
        proof {
            lemma_decode_len(s.drop_first());
            assert(s.drop_first() =~= buf@.skip(i + 1));
            let v = leb_decode(s.drop_first()).unwrap().0;
            assert(pow128(i as nat) * (chunk + 128 * v) == chunk * one + pow128((i + 1) as nat) * v)
                by (nonlinear_arith)
                requires
                    pow128(i as nat) == one,
                    pow128((i + 1) as nat) == 128 * one,
            ;
        }
        shift += 7;
        i += 1;
    }
}

/// The number of bytes that the number at the head of `buf` takes, if it is
/// whole and takes at most nineteen.
pub fn encoded_len(buf: &[u8]) -> (n: Option<usize>)
    ensures
        n == match leb_decode(buf@) {
            Some((_, k)) => if k <= MAX_LEN {
                Some(k as usize)
            } else {
                None
            },
            None => None,
        },
{
    let mut i: usize = 0;
    assert(buf@.skip(0) =~= buf@);
    while i < buf.len() && i < MAX_LEN
        invariant
            i <= buf@.len(),
            i <= MAX_LEN,
            leb_decode(buf@) is Some <==> leb_decode(buf@.skip(i as int)) is Some,
            leb_decode(buf@.skip(i as int)) matches Some((_, k)) ==> leb_decode(buf@).unwrap().1
                == i + k,
        decreases buf@.len() - i,
    {
        let ghost s = buf@.skip(i as int);
        assert(s.drop_first() =~= buf@.skip(i + 1));
        if buf[i] < 128 {
            return Some(i + 1);
        }
        i += 1;
    }
    proof {
        lemma_decode_len(buf@.skip(i as int));
    }
    None
}

} // verus!
