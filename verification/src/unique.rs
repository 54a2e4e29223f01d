//! Compact open-addressed unique tables, one per variable.
//!
//! A table is two parallel vectors: arena offsets plus one, so that `0` means
//! empty, and one-byte tags derived from the hash, never `0` in a used slot. The
//! key `(var, lo, hi)` itself is in the arena, and a probe reads it there only
//! where the tag matches. Collisions resolve by linear probing.

use crate::arena::{
    extends, lemma_concat, lemma_node_at, lemma_node_count, lemma_starts_from, nodes, parses,
    read_node, starts, starts_from,
};
use crate::codec::{ref_bits, ref_to_u64, Node, Ref};
use vstd::arithmetic::power2::{lemma2_to64, lemma_pow2_pos, lemma_pow2_unfold, pow2};
use vstd::bits::{lemma_u64_low_bits_mask_is_mod, lemma_u64_pow2_no_overflow};
use vstd::prelude::*;

verus! {

/// The number of slots of a new table.
pub const INITIAL_CAP: usize = 1024;

/// The hash of the key `(var, lo, hi)`.
#[verifier::opaque]
pub open spec fn key_hash(var: u32, lo: Ref, hi: Ref) -> u64 {
    let h1 = (var as u64).wrapping_mul(0x9e3779b97f4a7c15) ^ ref_bits(lo);
    let h2 = h1.wrapping_mul(0xbf58476d1ce4e5b9);
    let h3 = (h2 ^ (h2 >> 27)) ^ ref_bits(hi);
    let h4 = h3.wrapping_mul(0x94d049bb133111eb);
    h4 ^ (h4 >> 31)
}

/// The hash of the key of a node.
pub open spec fn node_hash(n: Node) -> u64 {
    key_hash(n.var, n.lo, n.hi)
}

/// A mixing hash for the key `(var, lo, hi)`.
#[inline]
pub fn unique_key_hash(var: u32, lo: Ref, hi: Ref) -> (hash: u64)
    ensures
        hash == key_hash(var, lo, hi),
{
    reveal(key_hash);
    let mut h: u64 = var as u64;
    h = h.wrapping_mul(0x9e3779b97f4a7c15);
    h ^= ref_to_u64(lo);
    h = h.wrapping_mul(0xbf58476d1ce4e5b9);
    h ^= h >> 27;
    h ^= ref_to_u64(hi);
    h = h.wrapping_mul(0x94d049bb133111eb);
    h ^= h >> 31;
    h
}

/// The variable and the children are mixed in turn into what the ones before gave.
pub proof fn law_key_hash(var: u32, lo: Ref, hi: Ref)
    ensures
        ({
            let a = (var as u64).wrapping_mul(0x9e37_79b9_7f4a_7c15) ^ ref_bits(lo);
            let b = a.wrapping_mul(0xbf58_476d_1ce4_e5b9);
            let c = (b ^ (b >> 27) ^ ref_bits(hi)).wrapping_mul(0x94d0_49bb_1331_11eb);
            key_hash(var, lo, hi) == c ^ (c >> 31)
        }),
{
    reveal(key_hash);
}

/// The tag of a hash: its top byte, made odd so that it is not 0.
#[verifier::opaque]
pub open spec fn tag_of(h: u64) -> u8 {
    ((h >> 56) as u8) | 1
}

#[inline]
fn tag_of_hash(h: u64) -> (tag: u8)
    ensures
        tag == tag_of(h),
        tag != 0,
{
    reveal(tag_of);
    assert(((h >> 56) as u8) | 1 != 0) by (bit_vector);
    ((h >> 56) as u8) | 1
}

/// The slot at which the probe for `hash` starts.
#[verifier::opaque]
pub open spec fn home(hash: u64, cap: nat) -> nat {
    (hash & ((cap - 1) as u64)) as nat
}

/// A probe starts at one of the slots.
pub proof fn lemma_home(hash: u64, cap: nat)
    requires
        0 < cap <= u64::MAX,
    ensures
        home(hash, cap) < cap,
{
    reveal(home);
    let mask = (cap - 1) as u64;
    assert(hash & mask <= mask) by (bit_vector);
}

/// Among a power of two of slots, a probe starts at the remainder of the hash.
pub proof fn law_home(hash: u64, k: nat)
    requires
        k < 64,
    ensures
        home(hash, pow2(k)) == hash as nat % pow2(k),
{
    reveal(home);
    lemma_pow2_pos(k);
    lemma_u64_pow2_no_overflow(k);
    lemma_u64_low_bits_mask_is_mod(hash, k);
}

#[inline]
pub(crate) fn home_slot(hash: u64, cap: usize) -> (i: usize)
    requires
        cap > 0,
    ensures
        i == home(hash, cap as nat),
        i < cap,
{
    reveal(home);
    let mask: u64 = cap as u64 - 1;
    let i: u64 = hash & mask;
    assert(i <= mask) by (bit_vector)
        requires
            i == hash & mask,
    ;
    i as usize
}

/// Whether slot `j` lies on the probe path from slot `from` up to, and without,
/// slot `to`.
pub open spec fn on_path(from: int, to: int, j: int) -> bool {
    if from <= to {
        from <= j < to
    } else {
        j >= from || j < to
    }
}

/// The number of used slots.
pub open spec fn used(tags: Seq<u8>) -> nat
    decreases tags.len(),
{
    if tags.len() == 0 {
        0
    } else {
        used(tags.drop_last()) + if tags.last() != 0 {
            1nat
        } else {
            0
        }
    }
}

proof fn lemma_used_bound(tags: Seq<u8>)
    ensures
        used(tags) <= tags.len(),
        used(tags) < tags.len() ==> exists|e: int| 0 <= e < tags.len() && tags[e] == 0,
        (forall|e: int| 0 <= e < tags.len() ==> tags[e] == 0) ==> used(tags) == 0,
    decreases tags.len(),
{
    if tags.len() > 0 {
        let head = tags.drop_last();
        lemma_used_bound(head);
        if used(tags) < tags.len() {
            if tags.last() == 0 {
                assert(tags[tags.len() - 1] == 0);
            } else {
                let e = choose|e: int| 0 <= e < head.len() && head[e] == 0;
                assert(tags[e] == 0);
            }
        }
    }
}

proof fn lemma_used_update(tags: Seq<u8>, i: int, t: u8)
    requires
        0 <= i < tags.len(),
        tags[i] == 0,
        t != 0,
    ensures
        used(tags.update(i, t)) == used(tags) + 1,
    decreases tags.len(),
{
    let next = tags.update(i, t);
    if i == tags.len() - 1 {
        assert(next.drop_last() =~= tags.drop_last());
    } else {
        assert(next.drop_last() =~= tags.drop_last().update(i, t));
        lemma_used_update(tags.drop_last(), i, t);
    }
}

/// Whether used slot `i` holds a node of `s` where a probe will find it.
pub open spec fn slot_ok(slots: Seq<u64>, tags: Seq<u8>, s: Map<u64, Node>, i: int) -> bool {
    let o = (slots[i] - 1) as u64;
    &&& slots[i] >= 1
    &&& s.dom().contains(o)
    &&& tags[i] == tag_of(node_hash(s[o]))
    &&& forall|j: int|
        0 <= j < tags.len() && on_path(home(node_hash(s[o]), tags.len()) as int, i, j)
            ==> #[trigger] tags[j] != 0
}

/// Whether the slots hold the offsets `set` of nodes of `s`.
#[verifier::opaque]
pub open spec fn table_ok(
    slots: Seq<u64>,
    tags: Seq<u8>,
    s: Map<u64, Node>,
    set: Set<u64>,
) -> bool {
    &&& slots.len() == tags.len()
    &&& forall|i: int|
        0 <= i < tags.len() && #[trigger] tags[i] != 0 ==> slot_ok(slots, tags, s, i)
            && set.contains((slots[i] - 1) as u64)
    &&& forall|o: u64| #[trigger]
        set.contains(o) ==> exists|i: int|
            0 <= i < tags.len() && #[trigger] tags[i] != 0 && slots[i] == o + 1
}

/// What a sound table says of a used slot.
proof fn lemma_slot(slots: Seq<u64>, tags: Seq<u8>, s: Map<u64, Node>, set: Set<u64>, i: int)
    requires
        table_ok(slots, tags, s, set),
        0 <= i < tags.len(),
        tags[i] != 0,
    ensures
        slot_ok(slots, tags, s, i),
        set.contains((slots[i] - 1) as u64),
{
    reveal(table_ok);
}

/// The slot of an entry.
proof fn lemma_entry(
    slots: Seq<u64>,
    tags: Seq<u8>,
    s: Map<u64, Node>,
    set: Set<u64>,
    o: u64,
) -> (i: int)
    requires
        table_ok(slots, tags, s, set),
        set.contains(o),
    ensures
        0 <= i < tags.len(),
        tags[i] != 0,
        slots[i] == o + 1,
        slot_ok(slots, tags, s, i),
{
    reveal(table_ok);
    choose|i: int| 0 <= i < tags.len() && #[trigger] tags[i] != 0 && slots[i] == o + 1
}

/// Empty slots hold nothing.
proof fn lemma_empty(slots: Seq<u64>, tags: Seq<u8>, s: Map<u64, Node>)
    requires
        slots.len() == tags.len(),
        forall|i: int| 0 <= i < tags.len() ==> tags[i] == 0,
    ensures
        table_ok(slots, tags, s, Set::empty()),
        used(tags) == 0,
{
    reveal(table_ok);
    lemma_used_bound(tags);
}

/// The first empty slot on the probe path for `hash`.
fn free_slot(tags: &Vec<u8>, hash: u64) -> (i: usize)
    requires
        used(tags@) < tags@.len(),
    ensures
        i < tags@.len(),
        tags@[i as int] == 0,
        forall|j: int|
            0 <= j < tags@.len() && on_path(home(hash, tags@.len()) as int, i as int, j)
                ==> #[trigger] tags@[j] != 0,
{
    let cap: usize = tags.len();
    let start: usize = home_slot(hash, cap);
    let mut i: usize = start;
    proof {
        lemma_used_bound(tags@);
    }
    let ghost e = choose|e: int| 0 <= e < tags@.len() && tags@[e] == 0;
    while tags[i] != 0
        invariant
            cap == tags@.len(),
            i < cap,
            start == home(hash, cap as nat),
            start < cap,
            0 <= e < cap,
            tags@[e] == 0,
            forall|j: int|
                0 <= j < cap && on_path(start as int, i as int, j) ==> #[trigger] tags@[j] != 0,
        decreases
                if i <= e {
                    e - i
                } else {
                    e + cap - i
                },
    {
        i = if i + 1 == cap {
            0
        } else {
            i + 1
        };
    }
    i
}

/// Filling the first empty slot on a node's probe path adds its offset.
proof fn lemma_place(
    slots: Seq<u64>,
    tags: Seq<u8>,
    s: Map<u64, Node>,
    set: Set<u64>,
    o: u64,
    i: int,
)
    requires
        table_ok(slots, tags, s, set),
        s.dom().contains(o),
        o < u64::MAX,
        0 <= i < tags.len(),
        tags[i] == 0,
        forall|j: int|
            0 <= j < tags.len() && on_path(home(node_hash(s[o]), tags.len()) as int, i, j)
                ==> #[trigger] tags[j] != 0,
    ensures
        table_ok(
            slots.update(i, (o + 1) as u64),
            tags.update(i, tag_of(node_hash(s[o]))),
            s,
            set.insert(o),
        ),
        used(tags.update(i, tag_of(node_hash(s[o])))) == used(tags) + 1,
{
    reveal(table_ok);
    let h = node_hash(s[o]);
    let t = tag_of(h);
    assert(t != 0) by {
        reveal(tag_of);
        assert(((h >> 56) as u8) | 1 != 0) by (bit_vector);
    }
    let slots2 = slots.update(i, (o + 1) as u64);
    let tags2 = tags.update(i, t);
    lemma_used_update(tags, i, t);
    assert forall|k: int| 0 <= k < tags2.len() && #[trigger] tags2[k] != 0 implies slot_ok(
        slots2,
        tags2,
        s,
        k,
    ) && set.insert(o).contains((slots2[k] - 1) as u64) by {
        if k != i {
            assert(tags[k] != 0);
            assert(slot_ok(slots, tags, s, k));
            let hk = home(node_hash(s[(slots[k] - 1) as u64]), tags.len()) as int;
            assert forall|j: int| 0 <= j < tags2.len() && on_path(hk, k, j) implies #[trigger] tags2[j]
                != 0 by {
                assert(j == i || tags[j] != 0);
            }
        } else {
            let hk = home(h, tags.len()) as int;
            assert forall|j: int| 0 <= j < tags2.len() && on_path(hk, k, j) implies #[trigger] tags2[j]
                != 0 by {
                assert(tags[j] != 0);
            }
        }
    }
    assert forall|q: u64| #[trigger] set.insert(o).contains(q) implies exists|k: int|
        0 <= k < tags2.len() && #[trigger] tags2[k] != 0 && slots2[k] == q + 1 by {
        if q == o {
            assert(tags2[i] != 0 && slots2[i] == q + 1);
        } else {
            let k = choose|k: int|
                0 <= k < tags.len() && #[trigger] tags[k] != 0 && slots[k] == q + 1;
            assert(tags2[k] != 0 && slots2[k] == q + 1);
        }
    }
}

/// The capacity that `cap` reaches by doubling until it holds `needed` slots.
pub open spec fn grown(cap: nat, needed: nat) -> nat
    decreases
            if cap < needed {
                needed - cap
            } else {
                0
            },
{
    if cap == 0 || cap >= needed {
        cap
    } else {
        grown(2 * cap, needed)
    }
}

/// The slots wanted for `expected` entries at a load of three quarters.
pub open spec fn wanted_slots(expected: nat) -> nat {
    (expected * 4 + 2) / 3
}

/// The capacity for a number of entries: doubled from `cap` as often as it must be for
/// three quarters of it to hold them, and no more often.
pub proof fn law_fitted(cap: nat, expected: nat)
    requires
        cap > 0,
    ensures
        ({
            let fit = grown(cap, wanted_slots(expected));
            &&& 4 * expected <= 3 * fit
            &&& fit == cap || 2 * (4 * expected) > 3 * fit - 4
            &&& exists|k: nat| fit == cap * #[trigger] pow2(k)
        }),
{
    lemma_doubled_up(cap, wanted_slots(expected));
}

/// A capacity doubled until it is large enough.
proof fn lemma_doubled_up(cap: nat, needed: nat)
    requires
        cap > 0,
    ensures
        grown(cap, needed) >= needed,
        grown(cap, needed) == cap || grown(cap, needed) < 2 * needed,
        exists|k: nat| grown(cap, needed) == cap * #[trigger] pow2(k),
    decreases
            if cap < needed {
                needed - cap
            } else {
                0
            },
{
    if cap >= needed {
        lemma2_to64();
        assert(cap * pow2(0) == cap);
    } else {
        lemma_doubled_up(2 * cap, needed);
        let k = choose|k: nat| grown(2 * cap, needed) == (2 * cap) * #[trigger] pow2(k);
        lemma_pow2_unfold(k + 1);
        assert(cap * pow2(k + 1) == (2 * cap) * pow2(k)) by (nonlinear_arith)
            requires
                pow2(k + 1) == 2 * pow2(k),
        ;
    }
}

/// Doubling overshoots by less than a factor of two.
pub proof fn lemma_grown(cap: nat, needed: nat)
    requires
        cap > 0,
    ensures
        grown(cap, needed) == cap || grown(cap, needed) <= 2 * needed,
    decreases
            if cap < needed {
                needed - cap
            } else {
                0
            },
{
    if cap < needed {
        lemma_grown(2 * cap, needed);
    }
}

/// The number of nodes with variable `v` among those at the offsets `offs`.
pub open spec fn count_var(s: Map<u64, Node>, offs: Seq<u64>, v: int) -> nat
    decreases offs.len(),
{
    if offs.len() == 0 {
        0
    } else {
        count_var(s, offs.drop_last(), v) + if s[offs.last()].var == v {
            1nat
        } else {
            0
        }
    }
}

/// One more node counts for its own variable only.
pub proof fn lemma_count_push(s: Map<u64, Node>, offs: Seq<u64>, o: u64, v: int)
    ensures
        count_var(s, offs.push(o), v) == count_var(s, offs, v) + if s[o].var == v {
            1nat
        } else {
            0
        },
{
    assert(offs.push(o).drop_last() =~= offs);
}

/// More nodes count for more.
pub proof fn lemma_count_prefix(s: Map<u64, Node>, offs: Seq<u64>, rest: Seq<u64>, v: int)
    ensures
        count_var(s, offs, v) <= count_var(s, offs + rest, v),
        count_var(s, offs, v) <= offs.len(),
    decreases offs.len() + rest.len(),
{
    if rest.len() > 0 {
        assert((offs + rest).drop_last() =~= offs + rest.drop_last());
        lemma_count_prefix(s, offs, rest.drop_last(), v);
    } else {
        assert(offs + rest =~= offs);
        if offs.len() > 0 {
            lemma_count_prefix(s, offs.drop_last(), rest, v);
        }
    }
}

/// Doubling reaches what is needed, and a table sized for `expected` entries
/// holds them without growing.
pub proof fn lemma_grown_holds(cap: nat, expected: nat)
    requires
        cap > 0,
    ensures
        grown(cap, wanted_slots(expected)) * 3 / 4 >= expected,
{
    lemma_grown_reaches(cap, wanted_slots(expected));
}

proof fn lemma_grown_reaches(cap: nat, needed: nat)
    requires
        cap > 0,
    ensures
        grown(cap, needed) >= needed,
    decreases
            if cap < needed {
                needed - cap
            } else {
                0
            },
{
    if cap < needed {
        lemma_grown_reaches(2 * cap, needed);
    }
}

// ---------------------------------------------------------------------------
// How the tables grow
// ---------------------------------------------------------------------------

/// The capacities after adding an entry for variable `v` to a table that has
/// `len` of them: the table doubles where it would be more than three quarters
/// full.
pub open spec fn caps_step(caps: Seq<nat>, v: int, len: nat) -> Seq<nat> {
    if len + 1 > caps[v] * 3 / 4 {
        caps.update(v, 2 * caps[v])
    } else {
        caps
    }
}

/// One entry more leaves a table at most three quarters full: it doubles where it has
/// to, and no other table changes.
pub proof fn law_caps_step(caps: Seq<nat>, v: int, len: nat)
    requires
        0 <= v < caps.len(),
        4 * len <= 3 * caps[v],
        caps[v] >= 4,
    ensures
        ({
            let next = caps_step(caps, v, len);
            &&& next.len() == caps.len()
            &&& 4 * (len + 1) <= 3 * next[v]
            &&& next[v] == caps[v] || (next[v] == 2 * caps[v] && 4 * (len + 1) > 3 * caps[v])
            &&& forall|u: int| 0 <= u < caps.len() && u != v ==> #[trigger] next[u] == caps[u]
        }),
{
}

/// The capacities after adding the nodes at `offs` from number `k` to number `j`
/// to tables that hold those before.
pub open spec fn caps_from(
    caps: Seq<nat>,
    s: Map<u64, Node>,
    offs: Seq<u64>,
    k: int,
    j: int,
) -> Seq<nat>
    decreases j - k,
{
    if j <= k {
        caps
    } else {
        let v = s[offs[j - 1]].var as int;
        caps_step(caps_from(caps, s, offs, k, j - 1), v, count_var(s, offs.take(j - 1), v))
    }
}

/// The capacities after the arena has grown from `buf` to `out`.
pub open spec fn caps_grown(caps: Seq<nat>, buf: Seq<u8>, out: Seq<u8>) -> Seq<nat> {
    caps_from(
        caps,
        nodes(out),
        starts(out),
        starts(buf).len() as int,
        starts(out).len() as int,
    )
}

/// The capacities of `n` tables that are sized for the nodes of `buf`.
pub open spec fn caps_fitted(n: nat, buf: Seq<u8>) -> Seq<nat> {
    Seq::new(
        n,
        |v: int|
            grown(INITIAL_CAP as nat, wanted_slots(count_var(nodes(buf), starts(buf), v))),
    )
}

/// Adding in two steps is adding in one.
proof fn lemma_caps_split(
    caps: Seq<nat>,
    s: Map<u64, Node>,
    offs: Seq<u64>,
    k: int,
    m: int,
    j: int,
)
    requires
        k <= m <= j,
    ensures
        caps_from(caps_from(caps, s, offs, k, m), s, offs, m, j) == caps_from(caps, s, offs, k, j),
    decreases j - m,
{
    if m < j {
        lemma_caps_split(caps, s, offs, k, m, j - 1);
    }
}

/// Counting looks at the nodes counted alone.
proof fn lemma_count_same(
    s: Map<u64, Node>,
    s2: Map<u64, Node>,
    offs: Seq<u64>,
    v: int,
)
    requires
        forall|i: int| 0 <= i < offs.len() ==> s[#[trigger] offs[i]] == s2[offs[i]],
    ensures
        count_var(s, offs, v) == count_var(s2, offs, v),
    decreases offs.len(),
{
    if offs.len() > 0 {
        let head = offs.drop_last();
        assert forall|i: int| 0 <= i < head.len() implies s[#[trigger] head[i]] == s2[head[i]] by {
            assert(head[i] == offs[i]);
        }
        lemma_count_same(s, s2, head, v);
        assert(s[offs[offs.len() - 1]] == s2[offs[offs.len() - 1]]);
    }
}

/// Capacities look at the nodes added alone.
proof fn lemma_caps_same(
    caps: Seq<nat>,
    s: Map<u64, Node>,
    offs: Seq<u64>,
    s2: Map<u64, Node>,
    offs2: Seq<u64>,
    k: int,
    j: int,
)
    requires
        0 <= k,
        j <= offs.len() <= offs2.len(),
        forall|i: int|
            0 <= i < offs.len() ==> #[trigger] offs[i] == offs2[i] && s[offs[i]] == s2[offs[i]],
    ensures
        caps_from(caps, s, offs, k, j) == caps_from(caps, s2, offs2, k, j),
    decreases j - k,
{
    if k < j {
        lemma_caps_same(caps, s, offs, s2, offs2, k, j - 1);
        let v = s[offs[j - 1]].var as int;
        assert(offs.take(j - 1) =~= offs2.take(j - 1));
        assert forall|i: int| 0 <= i < offs.take(j - 1).len() implies s[#[trigger] offs.take(
            j - 1,
        )[i]] == s2[offs.take(j - 1)[i]] by {
            assert(offs[i] == offs2[i]);
        }
        lemma_count_same(s, s2, offs.take(j - 1), v);
        assert(offs[j - 1] == offs2[j - 1]);
    }
}

/// Growing in two steps is growing in one.
pub proof fn lemma_caps_grown_trans(caps: Seq<nat>, a: Seq<u8>, b: Seq<u8>, c: Seq<u8>)
    requires
        parses(a),
        parses(b),
        parses(c),
        extends(a, b),
        extends(b, c),
    ensures
        caps_grown(caps_grown(caps, a, b), b, c) == caps_grown(caps, a, c),
{
    lemma_starts_prefix(a, b);
    lemma_starts_prefix(b, c);
    let (k, m, j) = (
        starts(a).len() as int,
        starts(b).len() as int,
        starts(c).len() as int,
    );
    lemma_caps_same(caps, nodes(b), starts(b), nodes(c), starts(c), k, m);
    lemma_caps_split(caps, nodes(c), starts(c), k, m, j);
}

/// An arena that does not grow leaves the tables as they are.
pub proof fn lemma_caps_grown_same(caps: Seq<nat>, a: Seq<u8>)
    ensures
        caps_grown(caps, a, a) == caps,
{
}

/// Growing by one node is one step.
pub proof fn lemma_caps_grown_one(caps: Seq<nat>, buf: Seq<u8>, out: Seq<u8>, o: u64)
    requires
        parses(buf),
        parses(out),
        extends(buf, out),
        starts(out) == starts(buf).push(o),
    ensures
        ({
            let v = nodes(out)[o].var as int;
            caps_grown(caps, buf, out) == caps_step(
                caps,
                v,
                count_var(nodes(buf), starts(buf), v),
            )
        }),
{
    let n = starts(buf).len() as int;
    let v = nodes(out)[o].var as int;
    lemma_starts_prefix(buf, out);
    assert(starts(out).take(n) =~= starts(buf));
    lemma_count_same(nodes(buf), nodes(out), starts(buf), v);
    assert(caps_from(caps, nodes(out), starts(out), n, n) == caps);
}

/// The starts of an arena are the first of those of a longer one.
proof fn lemma_starts_prefix(a: Seq<u8>, b: Seq<u8>)
    requires
        parses(a),
        parses(b),
        extends(a, b),
    ensures
        starts(a).len() <= starts(b).len(),
        forall|i: int|
            0 <= i < starts(a).len() ==> #[trigger] starts(a)[i] == starts(b)[i] && nodes(
                a,
            )[starts(a)[i]] == nodes(b)[starts(a)[i]],
{
    let t = b.skip(a.len() as int);
    assert(a + t =~= b);
    lemma_concat(a, t);
    assert forall|i: int| 0 <= i < starts(a).len() implies #[trigger] starts(a)[i] == starts(b)[i]
        && nodes(a)[starts(a)[i]] == nodes(b)[starts(a)[i]] by {
        assert(starts(b)[i] == (starts(a) + starts_from(b, a.len()))[i]);
        assert(nodes(a).dom().contains(starts(a)[i]));
        assert(nodes(b).dom().contains(starts(a)[i]));
    }
}

/// The unique table of one variable: a set of arena offsets, searched by the
/// fields of the nodes that stand there.
pub struct CompactUnique {
    slots: Vec<u64>,
    tags: Vec<u8>,
    len: usize,
    /// The number of entries at which the table doubles.
    resize_at: usize,
    offsets: Ghost<Set<u64>>,
}

impl CompactUnique {
    /// The offsets in the table.
    pub closed spec fn view(&self) -> Set<u64> {
        self.offsets@
    }

    /// The number of slots.
    pub closed spec fn capacity(&self) -> nat {
        self.slots@.len()
    }

    /// Whether the table is sound over the arena `buf`: every entry is a node
    /// there, and a probe finds it.
    pub closed spec fn wf(&self, buf: Seq<u8>) -> bool {
        &&& self.sound()
        &&& table_ok(self.slots@, self.tags@, nodes(buf), self.offsets@)
    }

    /// Whether the table is in order by itself: no fuller than three quarters, and
    /// its entries counted.
    pub closed spec fn sound(&self) -> bool {
        &&& self.slots@.len() == self.tags@.len()
        &&& self.slots@.len() >= INITIAL_CAP
        &&& self.slots@.len() % 4 == 0
        &&& self.resize_at == self.slots@.len() * 3 / 4
        &&& self.len <= self.resize_at
        &&& self.len == used(self.tags@)
        &&& self.offsets@.finite()
        &&& self.offsets@.len() == self.len
    }

    /// An empty table.
    pub fn new() -> (table: Self)
        ensures
            table.sound(),
            forall|buf: Seq<u8>| #[trigger] table.wf(buf),
            table@ == Set::<u64>::empty(),
            table.capacity() == INITIAL_CAP,
    {
        let table = CompactUnique {
            slots: vec![0u64; INITIAL_CAP],
            tags: vec![0u8; INITIAL_CAP],
            len: 0,
            resize_at: INITIAL_CAP / 4 * 3,
            offsets: Ghost(Set::empty()),
        };
        proof {
            assert forall|buf: Seq<u8>| #[trigger] table.wf(buf) by {
                lemma_empty(table.slots@, table.tags@, nodes(buf));
            }
            assert(table.wf(seq![]));
        }
        table
    }

    /// The number of entries.
    pub fn len(&self) -> (n: usize)
        requires
            self.sound(),
        ensures
            self@.finite(),
            n == self@.len(),
    {
        self.len
    }

    #[inline]
    fn cap(&self) -> (n: usize)
        ensures
            n == self.slots@.len(),
    {
        self.slots.len()
    }

    /// What a sound table holds, and how full it is.
    pub proof fn lemma_wf(&self, buf: Seq<u8>)
        requires
            self.wf(buf),
        ensures
            self.sound(),
            self@.finite(),
            forall|o: u64| #[trigger] self@.contains(o) ==> nodes(buf).dom().contains(o),
            self.capacity() >= INITIAL_CAP,
            self.capacity() % 4 == 0,
            self@.len() <= self.capacity() * 3 / 4,
    {
        assert forall|o: u64| #[trigger] self@.contains(o) implies nodes(buf).dom().contains(o) by {
            let i = lemma_entry(self.slots@, self.tags@, nodes(buf), self.offsets@, o);
        }
    }

    /// A table stays sound as nodes are added to the arena.
    pub proof fn lemma_wf_submap(&self, buf: Seq<u8>, later: Seq<u8>)
        requires
            self.wf(buf),
            nodes(buf).submap_of(nodes(later)),
        ensures
            self.wf(later),
    {
        reveal(table_ok);
        let slots = self.slots@;
        let tags = self.tags@;
        assert forall|i: int| 0 <= i < tags.len() && #[trigger] tags[i] != 0 implies slot_ok(
            slots,
            tags,
            nodes(later),
            i,
        ) by {
            assert(slot_ok(slots, tags, nodes(buf), i));
            let o = (slots[i] - 1) as u64;
            assert(nodes(buf).dom().contains(o));
            assert(nodes(later).dom().contains(o));
        }
    }

    /// The offset of the node `(var, lo, hi)`, if it is in the table. `hash` is
    /// the hash of that key, and `buf` the arena.
    pub fn lookup(&self, hash: u64, var: u32, lo: Ref, hi: Ref, buf: &[u8]) -> (r: Option<u64>)
        requires
            self.wf(buf@),
            buf@.len() <= u64::MAX,
            hash == key_hash(var, lo, hi),
        ensures
            r matches Some(o) ==> self@.contains(o) && nodes(buf@)[o] == (Node { var, lo, hi }),
            r is None ==> forall|o: u64| #[trigger]
                self@.contains(o) ==> nodes(buf@)[o] != (Node { var, lo, hi }),
    {
        let cap: usize = self.cap();
        let tag: u8 = tag_of_hash(hash);
        let start: usize = home_slot(hash, cap);
        let mut i: usize = start;
        let ghost s = nodes(buf@);
        let ghost n = Node { var, lo, hi };
        proof {
            lemma_used_bound(self.tags@);
        }
        let ghost e = choose|e: int| 0 <= e < self.tags@.len() && self.tags@[e] == 0;
        loop
            invariant
                self.wf(buf@),
                buf@.len() <= u64::MAX,
                s == nodes(buf@),
                n == (Node { var, lo, hi }),
                hash == node_hash(n),
                tag == tag_of(hash),
                tag != 0,
                cap == self.tags@.len(),
                cap == self.slots@.len(),
                i < cap,
                start < cap,
                start == home(hash, cap as nat),
                0 <= e < cap,
                self.tags@[e] == 0,
                forall|j: int|
                    0 <= j < cap && on_path(start as int, i as int, j) ==> #[trigger] self.tags@[j]
                        != 0,
                forall|j: int|
                    0 <= j < cap && on_path(start as int, i as int, j)
                        ==> s[(#[trigger] self.slots@[j] - 1) as u64] != n,
            decreases
                    if i <= e {
                        e - i
                    } else {
                        e + cap - i
                    },
        {
            let t: u8 = self.tags[i];
            if t == 0 {
                proof {
                    assert forall|o: u64| #[trigger] self@.contains(o) implies s[o] != n by {
                        let k = lemma_entry(self.slots@, self.tags@, s, self.offsets@, o);
                        if s[o] == n {
                            assert(on_path(start as int, k, i as int) || on_path(
                                start as int,
                                i as int,
                                k,
                            ));
                        }
                    }
                }
                return None;
            }
            proof {
                lemma_slot(self.slots@, self.tags@, s, self.offsets@, i as int);
            }
            if t == tag {
                let off: u64 = self.slots[i] - 1;
                proof {
                    lemma_node_at(buf@, off);
                }
                let (found, _len): (Node, usize) = read_node(buf, off);
                if found.var == var && found.lo == lo && found.hi == hi {
                    return Some(off);
                }
            }
            assert(s[(self.slots@[i as int] - 1) as u64] != n);
            i = if i + 1 == cap {
                0
            } else {
                i + 1
            };
        }
    }

    /// Adds `offset`, whose node has the hash `hash` and is not in the table
    /// yet. The table doubles where it would be more than three quarters full.
    pub fn insert(&mut self, hash: u64, offset: u64, buf: &[u8])
        requires
            old(self).wf(buf@),
            buf@.len() <= u64::MAX,
            nodes(buf@).dom().contains(offset),
            !old(self)@.contains(offset),
            hash == node_hash(nodes(buf@)[offset]),
        ensures
            final(self).sound(),
            final(self).wf(buf@),
            final(self)@ == old(self)@.insert(offset),
            final(self).capacity() == if old(self)@.len() + 1 > old(self).capacity() * 3 / 4 {
                2 * old(self).capacity()
            } else {
                old(self).capacity()
            },
    {
        proof {
            lemma_node_at(buf@, offset);
            self.lemma_room(buf@, offset);
            assert(buf@.len() == buf.len());
        }
        if self.len >= self.resize_at {
            self.resize(buf);
        }
        let tag: u8 = tag_of_hash(hash);
        let i: usize = free_slot(&self.tags, hash);
        proof {
            lemma_place(
                self.slots@,
                self.tags@,
                nodes(buf@),
                self.offsets@,
                offset,
                i as int,
            );
        }
        self.slots.set(i, offset + 1);
        self.tags.set(i, tag);
        self.len = self.len + 1;
        self.offsets = Ghost(self.offsets@.insert(offset));
    }

    /// One more node than the table holds takes three bytes of the arena each.
    proof fn lemma_room(&self, buf: Seq<u8>, offset: u64)
        requires
            self.wf(buf),
            buf.len() <= u64::MAX,
            nodes(buf).dom().contains(offset),
            !self@.contains(offset),
        ensures
            3 * (self@.len() + 1) <= buf.len(),
    {
        self.lemma_wf(buf);
        lemma_node_count(buf);
        vstd::set_lib::lemma_len_subset(self@.insert(offset), nodes(buf).dom());
    }

    /// Doubles the table, and gives every entry its new slot.
    fn resize(&mut self, buf: &[u8])
        requires
            old(self).wf(buf@),
            buf@.len() <= u64::MAX,
            old(self).capacity() * 2 <= usize::MAX,
        ensures
            final(self).wf(buf@),
            final(self)@ == old(self)@,
            final(self).capacity() == 2 * old(self).capacity(),
    {
        let cap: usize = self.cap();
        let new_cap: usize = cap * 2;
        let mut new_slots: Vec<u64> = vec![0u64; new_cap];
        let mut new_tags: Vec<u8> = vec![0u8; new_cap];
        let ghost s = nodes(buf@);
        let ghost mut moved = Set::<u64>::empty();
        proof {
            lemma_empty(new_slots@, new_tags@, s);
            assert(self.tags@.take(0) =~= Seq::empty());
        }
        let mut i: usize = 0;
        while i < cap
            invariant
                self.wf(buf@),
                buf@.len() <= u64::MAX,
                s == nodes(buf@),
                cap == self.slots@.len(),
                cap == self.tags@.len(),
                new_cap == 2 * cap,
                i <= cap,
                new_tags@.len() == new_cap,
                new_slots@.len() == new_cap,
                table_ok(new_slots@, new_tags@, s, moved),
                used(new_tags@) == used(self.tags@.take(i as int)),
                forall|o: u64| #[trigger] moved.contains(o) ==> self@.contains(o),
                forall|j: int|
                    0 <= j < i && #[trigger] self.tags@[j] != 0 ==> moved.contains(
                        (self.slots@[j] - 1) as u64,
                    ),
            decreases cap - i,
        {
            proof {
                assert(self.tags@.take(i + 1).drop_last() =~= self.tags@.take(i as int));
                lemma_used_bound(self.tags@.take(i as int));
            }
            if self.tags[i] != 0 {
                proof {
                    lemma_slot(self.slots@, self.tags@, s, self.offsets@, i as int);
                }
                let slot: u64 = self.slots[i];
                let off: u64 = slot - 1;
                proof {
                    lemma_node_at(buf@, off);
                }
                let (n, _len): (Node, usize) = read_node(buf, off);
                let h: u64 = unique_key_hash(n.var, n.lo, n.hi);
                let tag: u8 = tag_of_hash(h);
                let j: usize = free_slot(&new_tags, h);
                proof {
                    lemma_place(new_slots@, new_tags@, s, moved, off, j as int);
                    moved = moved.insert(off);
                }
                new_slots.set(j, slot);
                new_tags.set(j, tag);
            }
            i += 1;
        }
        proof {
            assert(self.tags@.take(cap as int) =~= self.tags@);
            assert(moved =~= self@) by {
                assert forall|o: u64| self@.contains(o) implies moved.contains(o) by {
                    let k = lemma_entry(self.slots@, self.tags@, s, self.offsets@, o);
                    assert(moved.contains((self.slots@[k] - 1) as u64));
                }
            }
        }
        self.slots = new_slots;
        self.tags = new_tags;
        self.resize_at = new_cap / 4 * 3;
    }

    /// Empties the table and sizes it for `expected` entries.
    pub fn resize_for(&mut self, expected: usize)
        requires
            expected <= usize::MAX / 3,
        ensures
            final(self).sound(),
            forall|buf: Seq<u8>| #[trigger] final(self).wf(buf),
            final(self)@ == Set::<u64>::empty(),
            final(self).capacity() == grown(INITIAL_CAP as nat, wanted_slots(expected as nat)),
    {
        let fit: usize = expected + (expected + 2) / 3;
        let needed: usize = if fit > INITIAL_CAP {
            fit
        } else {
            INITIAL_CAP
        };
        let mut new_cap: usize = INITIAL_CAP;
        while new_cap < needed
            invariant
                needed == if fit > INITIAL_CAP {
                    fit
                } else {
                    INITIAL_CAP
                },
                fit == wanted_slots(expected as nat),
                2 * needed <= usize::MAX,
                new_cap >= INITIAL_CAP,
                new_cap % 4 == 0,
                grown(INITIAL_CAP as nat, fit as nat) == grown(new_cap as nat, fit as nat),
            decreases
                    if new_cap < needed {
                        needed - new_cap
                    } else {
                        0
                    },
        {
            new_cap = new_cap * 2;
        }
        self.slots = vec![0u64; new_cap];
        self.tags = vec![0u8; new_cap];
        self.len = 0;
        self.resize_at = new_cap / 4 * 3;
        self.offsets = Ghost(Set::empty());
        proof {
            assert forall|buf: Seq<u8>| #[trigger] self.wf(buf) by {
                lemma_empty(self.slots@, self.tags@, nodes(buf));
            }
            assert(self.wf(seq![]));
        }
    }

    /// The memory that the slots and tags take.
    pub fn bytes(&self) -> (n: usize)
        requires
            self.sound(),
            self.capacity() * 9 <= usize::MAX,
        ensures
            n == self.capacity() * 9,
    {
        self.slots.len() * 8 + self.tags.len()
    }
}

impl Default for CompactUnique {
    fn default() -> (table: Self)
        ensures
            table.sound(),
            forall|buf: Seq<u8>| #[trigger] table.wf(buf),
            table@ == Set::<u64>::empty(),
            table.capacity() == INITIAL_CAP,
    {
        CompactUnique::new()
    }
}

/// Counting different offsets counts a set.
proof fn lemma_count_set(s: Map<u64, Node>, offs: Seq<u64>, v: int)
    requires
        forall|i: int, j: int|
            0 <= i < j < offs.len() ==> #[trigger] offs[i] < #[trigger] offs[j],
    ensures
        ({
            let set = Set::new(|o: u64| offs.contains(o) && s[o].var == v);
            set.finite() && set.len() == count_var(s, offs, v)
        }),
    decreases offs.len(),
{
    let set = Set::new(|o: u64| offs.contains(o) && s[o].var == v);
    if offs.len() == 0 {
        assert(set =~= Set::empty());
    } else {
        let head = offs.drop_last();
        let last = offs.last();
        let before = Set::new(|o: u64| head.contains(o) && s[o].var == v);
        lemma_count_set(s, head, v);
        assert(!head.contains(last)) by {
            if head.contains(last) {
                let i = choose|i: int| 0 <= i < head.len() && head[i] == last;
                assert(offs[i] < offs[offs.len() - 1]);
            }
        }
        assert forall|o: u64| offs.contains(o) <==> head.contains(o) || o == last by {
            if offs.contains(o) {
                let i = choose|i: int| 0 <= i < offs.len() && offs[i] == o;
                if i < head.len() {
                    assert(head[i] == o);
                }
            }
            if head.contains(o) {
                let i = choose|i: int| 0 <= i < head.len() && head[i] == o;
                assert(offs[i] == o);
            }
            if o == last {
                assert(offs[offs.len() - 1] == o);
            }
        }
        if s[last].var == v {
            assert(set =~= before.insert(last));
        } else {
            assert(set =~= before);
        }
    }
}

/// The sum of the sizes of `sets`.
pub open spec fn total(sets: Seq<Set<u64>>) -> nat
    decreases sets.len(),
{
    if sets.len() == 0 {
        0
    } else {
        total(sets.drop_last()) + sets.last().len()
    }
}

/// The sum of `caps`.
pub open spec fn total_slots(caps: Seq<nat>) -> nat
    decreases caps.len(),
{
    if caps.len() == 0 {
        0
    } else {
        total_slots(caps.drop_last()) + caps.last()
    }
}

/// Sums over tables: none is nothing, and one table more adds its own.
pub proof fn law_totals(sets: Seq<Set<u64>>, set: Set<u64>, caps: Seq<nat>, cap: nat)
    ensures
        total(seq![]) == 0,
        total(sets.push(set)) == total(sets) + set.len(),
        total_slots(seq![]) == 0,
        total_slots(caps.push(cap)) == total_slots(caps) + cap,
{
    assert(sets.push(set).drop_last() =~= sets);
    assert(caps.push(cap).drop_last() =~= caps);
}

proof fn lemma_total_prefix(sets: Seq<Set<u64>>, k: nat)
    requires
        k <= sets.len(),
    ensures
        total(sets.take(k as int)) <= total(sets),
    decreases sets.len(),
{
    if k < sets.len() {
        assert(sets.drop_last().take(k as int) =~= sets.take(k as int));
        lemma_total_prefix(sets.drop_last(), k);
    } else {
        assert(sets.take(k as int) =~= sets);
    }
}

proof fn lemma_total_slots_prefix(caps: Seq<nat>, k: nat)
    requires
        k <= caps.len(),
    ensures
        total_slots(caps.take(k as int)) <= total_slots(caps),
    decreases caps.len(),
{
    if k < caps.len() {
        assert(caps.drop_last().take(k as int) =~= caps.take(k as int));
        lemma_total_slots_prefix(caps.drop_last(), k);
    } else {
        assert(caps.take(k as int) =~= caps);
    }
}

/// The offsets of the nodes of `buf` with variable `v`.
pub open spec fn offsets_of_var(buf: Seq<u8>, v: int) -> Set<u64> {
    nodes(buf).dom().filter(|o: u64| nodes(buf)[o].var == v)
}

/// One unique table per variable. Nodes with different variables are never
/// equal, so each is looked for in the table of its variable only.
pub struct UniqueTables {
    tables: Vec<CompactUnique>,
}

impl UniqueTables {
    /// The offsets in each table.
    pub closed spec fn view(&self) -> Seq<Set<u64>> {
        Seq::new(self.tables@.len(), |v: int| self.tables@[v]@)
    }

    /// The number of slots of each table.
    pub closed spec fn capacities(&self) -> Seq<nat> {
        Seq::new(self.tables@.len(), |v: int| self.tables@[v].capacity())
    }

    /// Whether every table is in order by itself.
    pub closed spec fn sound(&self) -> bool {
        forall|v: int| 0 <= v < self.tables@.len() ==> (#[trigger] self.tables@[v]).sound()
    }

    /// Tables that are sound over an arena are in order.
    pub proof fn lemma_sound(&self, buf: Seq<u8>)
        requires
            self.wf(buf),
        ensures
            self.sound(),
    {
        assert forall|v: int| 0 <= v < self.tables@.len() implies (
        #[trigger] self.tables@[v]).sound() by {
            self.tables@[v].lemma_wf(buf);
        }
    }

    /// Whether every table is sound over the arena `buf` and holds nodes of its
    /// own variable only.
    pub closed spec fn wf(&self, buf: Seq<u8>) -> bool {
        forall|v: int|
            0 <= v < self.tables@.len() ==> {
                &&& (#[trigger] self.tables@[v]).wf(buf)
                &&& self.tables@[v]@.subset_of(offsets_of_var(buf, v))
            }
    }

    /// Whether the tables hold all nodes of the arena `buf`.
    pub open spec fn complete(&self, buf: Seq<u8>) -> bool {
        &&& self.wf(buf)
        &&& forall|o: u64| #[trigger]
            nodes(buf).dom().contains(o) ==> nodes(buf)[o].var < self@.len()
                && self@[nodes(buf)[o].var as int].contains(o)
    }

    /// Whether no table is much larger than its entries need.
    pub open spec fn snug(&self) -> bool {
        forall|v: int|
            0 <= v < self@.len() ==> #[trigger] self.capacities()[v] <= INITIAL_CAP + 3
                * self@[v].len()
    }

    /// Adding empty tables keeps the tables snug.
    pub proof fn lemma_snug_extended(&self, before: &Self)
        requires
            before.snug(),
            before@.len() <= self@.len(),
            self@.take(before@.len() as int) == before@,
            self.capacities().take(before@.len() as int) == before.capacities(),
            forall|v: int|
                before@.len() <= v < self@.len() ==> #[trigger] self@[v] == Set::<u64>::empty()
                    && self.capacities()[v] == INITIAL_CAP,
        ensures
            self.snug(),
    {
        assert forall|v: int| 0 <= v < self@.len() implies #[trigger] self.capacities()[v]
            <= INITIAL_CAP + 3 * self@[v].len() by {
            if v < before@.len() {
                assert(self@.take(before@.len() as int)[v] == before@[v]);
                assert(self.capacities().take(before@.len() as int)[v] == before.capacities()[v]);
            } else {
                assert(self@[v] == Set::<u64>::empty());
            }
        }
    }

    /// Adding an entry keeps the tables snug.
    pub proof fn lemma_snug_inserted(&self, before: &Self, buf: Seq<u8>, var: int, offset: u64)
        requires
            before.snug(),
            before.wf(buf),
            0 <= var < before@.len(),
            !before@[var].contains(offset),
            self@ == before@.update(var, before@[var].insert(offset)),
            self.capacities() == before.capacities().update(
                var,
                if before@[var].len() + 1 > before.capacities()[var] * 3 / 4 {
                    2 * before.capacities()[var]
                } else {
                    before.capacities()[var]
                },
            ),
        ensures
            self.snug(),
    {
        before.tables@[var].lemma_wf(buf);
        assert(before@[var].insert(offset).len() == before@[var].len() + 1);
        assert forall|v: int| 0 <= v < self@.len() implies #[trigger] self.capacities()[v]
            <= INITIAL_CAP + 3 * self@[v].len() by {
            assert(before.capacities()[v] <= INITIAL_CAP + 3 * before@[v].len());
        }
    }

    /// The entries of table `v` are nodes with variable `v`.
    pub proof fn lemma_members(&self, buf: Seq<u8>, v: int, o: u64)
        requires
            self.wf(buf),
            0 <= v < self@.len(),
            self@[v].contains(o),
        ensures
            nodes(buf).dom().contains(o),
            nodes(buf)[o].var == v,
    {
        assert(self.tables@[v]@.subset_of(offsets_of_var(buf, v)));
    }

    /// The views have one entry per table.
    pub proof fn lemma_lens(&self)
        ensures
            self@.len() == self.capacities().len(),
    {
    }

    /// No tables.
    pub fn new() -> (tables: Self)
        ensures
            tables.sound(),
            tables@ == Seq::<Set<u64>>::empty(),
            tables.capacities() == Seq::<nat>::empty(),
            forall|buf: Seq<u8>| #[trigger] tables.wf(buf),
    {
        let tables = UniqueTables { tables: Vec::new() };
        assert(tables@ =~= Seq::empty());
        assert(tables.capacities() =~= Seq::empty());
        tables
    }

    /// Adds empty tables until variable `var` has one.
    pub fn ensure_var(&mut self, var: u32)
        ensures
            final(self)@.len() == if old(self)@.len() > var {
                old(self)@.len()
            } else {
                var as nat + 1
            },
            final(self)@.take(old(self)@.len() as int) == old(self)@,
            final(self).capacities().take(old(self)@.len() as int) == old(self).capacities(),
            forall|v: int|
                old(self)@.len() <= v < final(self)@.len() ==> #[trigger] final(self)@[v]
                    == Set::<u64>::empty() && final(self).capacities()[v] == INITIAL_CAP,
            old(self).sound() ==> final(self).sound(),
            forall|buf: Seq<u8>| #[trigger] old(self).wf(buf) ==> final(self).wf(buf),
    {
        let ghost n = self.tables@.len() as int;
        while self.tables.len() <= var as usize
            invariant
                n == old(self).tables@.len(),
                n <= self.tables@.len(),
                self.tables@.len() == n || self.tables@.len() <= var + 1,
                self.tables@.take(n) == old(self).tables@,
                forall|v: int|
                    n <= v < self.tables@.len() ==> (#[trigger] self.tables@[v])@
                        == Set::<u64>::empty() && self.tables@[v].capacity() == INITIAL_CAP
                        && self.tables@[v].sound() && forall|buf: Seq<u8>| #[trigger]
                        self.tables@[v].wf(buf),
            decreases var + 1 - self.tables@.len(),
        {
            let ghost before = self.tables@;
            self.tables.push(CompactUnique::new());
            assert(self.tables@.take(n) =~= before.take(n));
        }
        assert(self@.take(n) =~= old(self)@);
        assert(self.capacities().take(n) =~= old(self).capacities());
        proof {
            if old(self).sound() {
                assert forall|v: int| 0 <= v < self.tables@.len() implies (
                #[trigger] self.tables@[v]).sound() by {
                    if v < n {
                        assert(self.tables@.take(n)[v] == old(self).tables@[v]);
                    }
                }
            }
        }
        assert forall|buf: Seq<u8>| #[trigger] old(self).wf(buf) implies self.wf(buf) by {
            assert forall|v: int| 0 <= v < self.tables@.len() implies (#[trigger] self.tables@[v]).wf(
                buf,
            ) && self.tables@[v]@.subset_of(offsets_of_var(buf, v)) by {
                if v < n {
                    assert(self.tables@.take(n)[v] == old(self).tables@[v]);
                }
            }
        }
    }

    /// The offsets in the first `k` tables.
    closed spec fn first(&self, k: nat) -> Set<u64> {
        Set::new(|o: u64| exists|v: int| 0 <= v < k && #[trigger] self@[v].contains(o))
    }

    /// The tables are disjoint, so that their sizes add up.
    proof fn lemma_total_first(&self, buf: Seq<u8>, k: nat)
        requires
            self.wf(buf),
            k <= self@.len(),
        ensures
            self.first(k).finite(),
            self.first(k).len() == total(self@.take(k as int)),
        decreases k,
    {
        if k == 0 {
            assert(self.first(k) =~= Set::empty());
            assert(self@.take(0) =~= Seq::empty());
        } else {
            let p = (k - 1) as nat;
            self.lemma_total_first(buf, p);
            let last = self@[p as int];
            assert(self.tables@[p as int].wf(buf));
            self.tables@[p as int].lemma_wf(buf);
            assert(self@.take(k as int).drop_last() =~= self@.take(p as int));
            assert(self.first(k) =~= self.first(p).union(last)) by {
                assert forall|o: u64| self.first(k).contains(o) implies self.first(p).union(
                    last,
                ).contains(o) by {
                    let v = choose|v: int| 0 <= v < k && #[trigger] self@[v].contains(o);
                    if v < p {
                        assert(self@[v].contains(o));
                    }
                }
                assert forall|o: u64| self.first(p).union(last).contains(o) implies self.first(
                    k,
                ).contains(o) by {
                    if last.contains(o) {
                        assert(self@[p as int].contains(o));
                    } else {
                        let v = choose|v: int| 0 <= v < p && #[trigger] self@[v].contains(o);
                        assert(0 <= v < k && self@[v].contains(o));
                    }
                }
            }
            assert(self.first(p).disjoint(last)) by {
                assert forall|o: u64| self.first(p).contains(o) implies !last.contains(o) by {
                    let v = choose|v: int| 0 <= v < p && #[trigger] self@[v].contains(o);
                    assert(self.tables@[v].wf(buf));
                    assert(self.tables@[v]@.subset_of(offsets_of_var(buf, v)));
                    assert(self.tables@[p as int]@.subset_of(offsets_of_var(buf, p as int)));
                }
            }
            vstd::set_lib::lemma_set_disjoint_lens(self.first(p), last);
        }
    }

    /// Sound tables hold no more entries than the arena has nodes, and complete
    /// ones hold as many.
    pub proof fn lemma_total(&self, buf: Seq<u8>)
        requires
            self.wf(buf),
            buf.len() <= u64::MAX,
        ensures
            forall|k: int|
                0 <= k <= self@.len() ==> #[trigger] total(self@.take(k)) <= starts(buf).len(),
            self.complete(buf) ==> total(self@) == starts(buf).len(),
    {
        lemma_node_count(buf);
        assert forall|k: int| 0 <= k <= self@.len() implies #[trigger] total(self@.take(k)) <= starts(
            buf,
        ).len() by {
            self.lemma_total_first(buf, k as nat);
            assert forall|o: u64| self.first(k as nat).contains(o) implies nodes(
                buf,
            ).dom().contains(o) by {
                let v = choose|v: int| 0 <= v < k && #[trigger] self@[v].contains(o);
                assert(self.tables@[v]@.subset_of(offsets_of_var(buf, v)));
            }
            vstd::set_lib::lemma_len_subset(self.first(k as nat), nodes(buf).dom());
        }
        if self.complete(buf) {
            let n = self@.len();
            self.lemma_total_first(buf, n);
            assert(self@.take(n as int) =~= self@);
            assert(self.first(n) =~= nodes(buf).dom()) by {
                assert forall|o: u64| nodes(buf).dom().contains(o) implies self.first(n).contains(
                    o,
                ) by {
                    assert(self@[nodes(buf)[o].var as int].contains(o));
                }
                assert forall|o: u64| self.first(n).contains(o) implies nodes(buf).dom().contains(
                    o,
                ) by {
                    let v = choose|v: int| 0 <= v < n && #[trigger] self@[v].contains(o);
                    assert(self.tables@[v]@.subset_of(offsets_of_var(buf, v)));
                }
            }
        }
    }

    /// A table of complete tables has as many entries as the arena has nodes with
    /// its variable.
    pub proof fn lemma_entries(&self, buf: Seq<u8>, v: int)
        requires
            self.complete(buf),
            parses(buf),
            0 <= v < self@.len(),
        ensures
            self@[v].len() == count_var(nodes(buf), starts(buf), v),
    {
        let s = nodes(buf);
        let offs = starts(buf);
        lemma_starts_from(buf, 0);
        lemma_count_set(s, offs, v);
        let set = Set::new(|o: u64| offs.contains(o) && s[o].var == v);
        assert(self@[v] =~= set) by {
            assert forall|o: u64| self@[v].contains(o) <==> set.contains(o) by {
                if self@[v].contains(o) {
                    self.lemma_members(buf, v, o);
                }
                if set.contains(o) {
                    assert(s.dom().contains(o));
                }
            }
        }
    }

    /// Adding the entry of a new node is one step of growth.
    pub proof fn lemma_caps_inserted(
        &self,
        before: &Self,
        buf: Seq<u8>,
        out: Seq<u8>,
        var: int,
        offset: u64,
    )
        requires
            before.complete(buf),
            parses(buf),
            parses(out),
            extends(buf, out),
            starts(out) == starts(buf).push(offset),
            nodes(out)[offset].var == var,
            0 <= var < before@.len(),
            self.capacities() == before.capacities().update(
                var,
                if before@[var].len() + 1 > before.capacities()[var] * 3 / 4 {
                    2 * before.capacities()[var]
                } else {
                    before.capacities()[var]
                },
            ),
        ensures
            self.capacities() == caps_grown(before.capacities(), buf, out),
    {
        before.lemma_entries(buf, var);
        before.lemma_lens();
        lemma_caps_grown_one(before.capacities(), buf, out, offset);
        assert(self.capacities() =~= caps_grown(before.capacities(), buf, out));
    }

    /// The number of slots of snug tables, at most.
    pub proof fn lemma_snug_slots(&self, k: nat)
        requires
            self.snug(),
            k <= self@.len(),
        ensures
            total_slots(self.capacities().take(k as int)) <= INITIAL_CAP * k + 3 * total(
                self@.take(k as int),
            ),
        decreases k,
    {
        if k == 0 {
            assert(self.capacities().take(0) =~= Seq::empty());
        } else {
            self.lemma_snug_slots((k - 1) as nat);
            assert(self.capacities().take(k as int).drop_last() =~= self.capacities().take(k - 1));
            assert(self@.take(k as int).drop_last() =~= self@.take(k - 1));
            assert(self.capacities()[k - 1] <= INITIAL_CAP + 3 * self@[k - 1].len());
        }
    }

    /// The number of entries in all tables.
    pub fn len(&self) -> (n: usize)
        requires
            self.sound(),
            total(self@) <= usize::MAX,
        ensures
            n == total(self@),
    {
        let mut n: usize = 0;
        let mut v: usize = 0;
        assert(self@.take(0) =~= Seq::empty());
        while v < self.tables.len()
            invariant
                self.sound(),
                v <= self.tables@.len(),
                n == total(self@.take(v as int)),
                total(self@) <= usize::MAX,
            decreases self.tables@.len() - v,
        {
            proof {
                assert(self@.take(v + 1).drop_last() =~= self@.take(v as int));
                lemma_total_prefix(self@, (v + 1) as nat);
                assert(self.tables@[v as int].sound());
            }
            n = n + self.tables[v].len();
            v += 1;
        }
        assert(self@.take(v as int) =~= self@);
        n
    }

    /// The memory that all tables take.
    pub fn bytes(&self) -> (n: usize)
        requires
            self.sound(),
            total_slots(self.capacities()) * 9 <= usize::MAX,
        ensures
            n == total_slots(self.capacities()) * 9,
    {
        let mut n: usize = 0;
        let mut v: usize = 0;
        assert(self.capacities().take(0) =~= Seq::empty());
        while v < self.tables.len()
            invariant
                self.sound(),
                v <= self.tables@.len(),
                n == total_slots(self.capacities().take(v as int)) * 9,
                total_slots(self.capacities()) * 9 <= usize::MAX,
            decreases self.tables@.len() - v,
        {
            proof {
                let caps = self.capacities();
                assert(caps.take(v + 1).drop_last() =~= caps.take(v as int));
                lemma_total_slots_prefix(caps, (v + 1) as nat);
                assert(self.tables@[v as int].sound());
            }
            n = n + self.tables[v].bytes();
            v += 1;
        }
        assert(self.capacities().take(v as int) =~= self.capacities());
        n
    }

    /// The offset of the node `(var, lo, hi)`, if the table of `var` holds it.
    #[inline]
    pub fn lookup(&self, hash: u64, var: u32, lo: Ref, hi: Ref, buf: &[u8]) -> (r: Option<u64>)
        requires
            self.wf(buf@),
            buf@.len() <= u64::MAX,
            var < self@.len(),
            hash == key_hash(var, lo, hi),
        ensures
            r matches Some(o) ==> self@[var as int].contains(o) && nodes(buf@).dom().contains(o)
                && nodes(buf@)[o] == (Node { var, lo, hi }),
            r is None ==> forall|o: u64| #[trigger]
                self@[var as int].contains(o) ==> nodes(buf@)[o] != (Node { var, lo, hi }),
    {
        assert(self.tables@[var as int].wf(buf@));
        let r = self.tables[var as usize].lookup(hash, var, lo, hi, buf);
        assert(self.tables@[var as int]@.subset_of(offsets_of_var(buf@, var as int)));
        r
    }

    /// Adds `offset`, whose node has variable `var` and hash `hash`, to the table
    /// of `var`.
    #[inline]
    pub fn insert(&mut self, hash: u64, var: u32, offset: u64, buf: &[u8])
        requires
            old(self).wf(buf@),
            buf@.len() <= u64::MAX,
            var < old(self)@.len(),
            nodes(buf@).dom().contains(offset),
            nodes(buf@)[offset].var == var,
            !old(self)@[var as int].contains(offset),
            hash == node_hash(nodes(buf@)[offset]),
        ensures
            final(self).sound(),
            final(self).wf(buf@),
            final(self)@ == old(self)@.update(
                var as int,
                old(self)@[var as int].insert(offset),
            ),
            final(self).capacities() == old(self).capacities().update(
                var as int,
                if old(self)@[var as int].len() + 1 > old(self).capacities()[var as int] * 3 / 4 {
                    2 * old(self).capacities()[var as int]
                } else {
                    old(self).capacities()[var as int]
                },
            ),
    {
        assert(self.tables@[var as int].wf(buf@));
        assert(self.tables@[var as int]@.subset_of(offsets_of_var(buf@, var as int)));
        self.tables[var as usize].insert(hash, offset, buf);
        proof {
            assert(self@ =~= old(self)@.update(
                var as int,
                old(self)@[var as int].insert(offset),
            ));
            assert(self.capacities() =~= old(self).capacities().update(
                var as int,
                self.tables@[var as int].capacity(),
            ));
            assert forall|v: int| 0 <= v < self.tables@.len() implies (#[trigger] self.tables@[v]).wf(
                buf@,
            ) && self.tables@[v]@.subset_of(offsets_of_var(buf@, v)) by {
                assert(old(self).tables@[v].wf(buf@));
                assert(old(self).tables@[v]@.subset_of(offsets_of_var(buf@, v)));
            }
            self.lemma_sound(buf@);
        }
    }

    /// Sound tables stay sound as nodes are added to the arena.
    pub proof fn lemma_wf_submap(&self, buf: Seq<u8>, later: Seq<u8>)
        requires
            self.wf(buf),
            nodes(buf).submap_of(nodes(later)),
        ensures
            self.wf(later),
    {
        assert forall|v: int| 0 <= v < self.tables@.len() implies (#[trigger] self.tables@[v]).wf(
            later,
        ) && self.tables@[v]@.subset_of(offsets_of_var(later, v)) by {
            self.tables@[v].lemma_wf_submap(buf, later);
            assert(self.tables@[v]@.subset_of(offsets_of_var(buf, v)));
            assert forall|o: u64| self.tables@[v]@.contains(o) implies offsets_of_var(
                later,
                v,
            ).contains(o) by {
                assert(offsets_of_var(buf, v).contains(o));
                assert(nodes(buf).dom().contains(o));
                assert(nodes(later).dom().contains(o));
            }
        }
    }

    /// Empties all tables, and sizes each for the number of entries expected in
    /// it: none where `per_var_expected` does not reach.
    pub fn reset_for(&mut self, per_var_expected: &[usize])
        requires
            per_var_expected@.len() <= u32::MAX,
            forall|v: int|
                0 <= v < per_var_expected@.len() ==> #[trigger] per_var_expected@[v] <= usize::MAX
                    / 3,
        ensures
            final(self)@.len() == if old(self)@.len() >= per_var_expected@.len() && old(
                self,
            )@.len() >= 1 {
                old(self)@.len()
            } else if per_var_expected@.len() >= 1 {
                per_var_expected@.len()
            } else {
                1
            },
            forall|v: int|
                0 <= v < final(self)@.len() ==> #[trigger] final(self)@[v] == Set::<u64>::empty(),
            forall|v: int|
                0 <= v < final(self)@.len() ==> #[trigger] final(self).capacities()[v] == grown(
                    INITIAL_CAP as nat,
                    wanted_slots(
                        if v < per_var_expected@.len() {
                            per_var_expected@[v] as nat
                        } else {
                            0
                        },
                    ),
                ),
            final(self).sound(),
            forall|buf: Seq<u8>| #[trigger] final(self).wf(buf),
    {
        let wanted: usize = per_var_expected.len();
        self.ensure_var(
            if wanted == 0 {
                0
            } else {
                (wanted - 1) as u32
            },
        );
        let mut v: usize = 0;
        let ghost n = self.tables@.len();
        while v < self.tables.len()
            invariant
                self.tables@.len() == n,
                v <= n,
                wanted == per_var_expected@.len(),
                forall|k: int|
                    0 <= k < per_var_expected@.len() ==> #[trigger] per_var_expected@[k]
                        <= usize::MAX / 3,
                forall|k: int|
                    0 <= k < v ==> (#[trigger] self.tables@[k])@ == Set::<u64>::empty()
                        && self.tables@[k].capacity() == grown(
                        INITIAL_CAP as nat,
                        wanted_slots(
                            if k < per_var_expected@.len() {
                                per_var_expected@[k] as nat
                            } else {
                                0
                            },
                        ),
                    ) && self.tables@[k].sound() && forall|buf: Seq<u8>| #[trigger]
                        self.tables@[k].wf(buf),
            decreases n - v,
        {
            let expected: usize = if v < wanted {
                per_var_expected[v]
            } else {
                0
            };
            self.tables[v].resize_for(expected);
            v += 1;
        }
    }

    /// The number of tables.
    pub fn num_vars(&self) -> (n: usize)
        ensures
            n == self@.len(),
    {
        self.tables.len()
    }
}

impl Default for UniqueTables {
    fn default() -> (tables: Self)
        ensures
            tables.sound(),
            tables@ == Seq::<Set<u64>>::empty(),
            tables.capacities() == Seq::<nat>::empty(),
            forall|buf: Seq<u8>| #[trigger] tables.wf(buf),
    {
        UniqueTables::new()
    }
}

} // verus!
