//! The direct-mapped apply cache of if-then-else, and its counters.
//!
//! The cache has a fixed number of slots. A triple has one slot, and a new entry
//! evicts whatever was there.

use crate::apply::Triple;
use crate::codec::{ref_bits, ref_to_u64, Ref};
use crate::unique::{home, home_slot, lemma_home};
use vstd::prelude::*;

verus! {

// ---------------------------------------------------------------------------
// Counters
// ---------------------------------------------------------------------------

/// Counters of the outcomes of cache probes, and of the shapes of the triples
/// that were looked for. They count only while enabled, and wrap around.
#[derive(Copy, Clone, Debug, PartialEq, Eq, Structural)]
pub struct ApplyStats {
    pub enabled: bool,
    pub hits: u64,
    pub coll: u64,
    pub empty: u64,
    /// `h` is false: `f` and `g`.
    pub pat_and: u64,
    /// `g` is true: `f` or `h`.
    pub pat_or: u64,
    /// `g` is false and `h` is true: not `f`.
    pub pat_not: u64,
    /// None of these.
    pub pat_other: u64,
}

/// The outcome of a probe: the triple's result, another triple's entry, or an
/// empty slot.
#[derive(Copy, Clone, Debug, PartialEq, Eq, Structural)]
pub enum ApplyEvent {
    Hit,
    Coll,
    Empty,
}

/// `s` with the outcome `ev` counted.
pub open spec fn count_event(s: ApplyStats, ev: ApplyEvent) -> ApplyStats {
    if !s.enabled {
        s
    } else {
        match ev {
            ApplyEvent::Hit => ApplyStats { hits: s.hits.wrapping_add(1), ..s },
            ApplyEvent::Coll => ApplyStats { coll: s.coll.wrapping_add(1), ..s },
            ApplyEvent::Empty => ApplyStats { empty: s.empty.wrapping_add(1), ..s },
        }
    }
}

/// `s` with the shape of `t` counted.
pub open spec fn count_pattern(s: ApplyStats, t: Triple) -> ApplyStats {
    if !s.enabled {
        s
    } else if t.g == Ref::Terminal(false) && t.h == Ref::Terminal(true) {
        ApplyStats { pat_not: s.pat_not.wrapping_add(1), ..s }
    } else if t.g == Ref::Terminal(true) {
        ApplyStats { pat_or: s.pat_or.wrapping_add(1), ..s }
    } else if t.h == Ref::Terminal(false) {
        ApplyStats { pat_and: s.pat_and.wrapping_add(1), ..s }
    } else {
        ApplyStats { pat_other: s.pat_other.wrapping_add(1), ..s }
    }
}

/// All counters zero.
pub open spec fn zeroed(enabled: bool) -> ApplyStats {
    ApplyStats {
        enabled,
        hits: 0,
        coll: 0,
        empty: 0,
        pat_and: 0,
        pat_or: 0,
        pat_not: 0,
        pat_other: 0,
    }
}

/// Which counter each shape goes to: a negation is `(f, 0, 1)`, a disjunction has 1
/// for `g`, a conjunction has 0 for `h`, and every other triple is none of them. A
/// counter that is off stays as it is.
pub proof fn law_patterns(s: ApplyStats, f: Ref, g: Ref, h: Ref)
    ensures
        ({
            let off = Ref::Terminal(false);
            let on = Ref::Terminal(true);
            let up = |x: u64, y: u64| y == x.wrapping_add(1);
            let not = count_pattern(s, Triple { f, g: off, h: on });
            let or = count_pattern(s, Triple { f, g: on, h });
            let and = count_pattern(s, Triple { f, g, h: off });
            let other = count_pattern(s, Triple { f, g, h });
            if !s.enabled {
                not == s && or == s && and == s && other == s
            } else {
                &&& up(s.pat_not, not.pat_not) && not == (ApplyStats { pat_not: not.pat_not, ..s })
                &&& up(s.pat_or, or.pat_or) && or == (ApplyStats { pat_or: or.pat_or, ..s })
                &&& g != on ==> up(s.pat_and, and.pat_and) && and == (ApplyStats {
                    pat_and: and.pat_and,
                    ..s
                })
                &&& g != on && h != off && !(g == off && h == on) ==> up(
                    s.pat_other,
                    other.pat_other,
                ) && other == (ApplyStats { pat_other: other.pat_other, ..s })
            }
        }),
{
}

/// After a reset nothing is counted, and the counters are on or off as before.
pub proof fn law_zeroed(enabled: bool)
    ensures
        ({
            let z = zeroed(enabled);
            &&& z.enabled == enabled
            &&& z.hits == 0 && z.coll == 0 && z.empty == 0
            &&& z.pat_and == 0 && z.pat_or == 0 && z.pat_not == 0 && z.pat_other == 0
        }),
{
}

/// Each outcome of a probe is counted by its own counter.
pub proof fn law_events(s: ApplyStats)
    ensures
        ({
            let hit = count_event(s, ApplyEvent::Hit);
            let coll = count_event(s, ApplyEvent::Coll);
            let empty = count_event(s, ApplyEvent::Empty);
            if !s.enabled {
                hit == s && coll == s && empty == s
            } else {
                &&& hit == (ApplyStats { hits: s.hits.wrapping_add(1), ..s })
                &&& coll == (ApplyStats { coll: s.coll.wrapping_add(1), ..s })
                &&& empty == (ApplyStats { empty: s.empty.wrapping_add(1), ..s })
            }
        }),
{
}

impl ApplyStats {
    /// Counters at zero, not enabled.
    pub fn new() -> (s: Self)
        ensures
            s == zeroed(false),
    {
        ApplyStats {
            enabled: false,
            hits: 0,
            coll: 0,
            empty: 0,
            pat_and: 0,
            pat_or: 0,
            pat_not: 0,
            pat_other: 0,
        }
    }

    /// Counts the outcome of a probe.
    #[inline]
    pub(crate) fn bump(&mut self, ev: ApplyEvent)
        ensures
            *final(self) == count_event(*old(self), ev),
    {
        if !self.enabled {
            return ;
        }
        match ev {
            ApplyEvent::Hit => {
                self.hits = self.hits.wrapping_add(1);
            },
            ApplyEvent::Coll => {
                self.coll = self.coll.wrapping_add(1);
            },
            ApplyEvent::Empty => {
                self.empty = self.empty.wrapping_add(1);
            },
        }
    }

    /// Counts the shape of a triple.
    #[inline]
    pub(crate) fn bump_pattern(&mut self, f: Ref, g: Ref, h: Ref)
        ensures
            *final(self) == count_pattern(*old(self), Triple { f, g, h }),
    {
        if !self.enabled {
            return ;
        }
        let t = Ref::Terminal(true);
        let ff = Ref::Terminal(false);
        if g == ff && h == t {
            self.pat_not = self.pat_not.wrapping_add(1);
        } else if g == t {
            self.pat_or = self.pat_or.wrapping_add(1);
        } else if h == ff {
            self.pat_and = self.pat_and.wrapping_add(1);
        } else {
            self.pat_other = self.pat_other.wrapping_add(1);
        }
    }
}

// ---------------------------------------------------------------------------
// Entries
// ---------------------------------------------------------------------------

/// The hash of a triple.
#[verifier::opaque]
pub open spec fn triple_hash(t: Triple) -> u64 {
    let x1 = ref_bits(t.f).wrapping_mul(0x9e3779b97f4a7c15) ^ ref_bits(t.g);
    let x2 = x1.wrapping_mul(0xbf58476d1ce4e5b9);
    let x3 = (x2 ^ (x2 >> 27)) ^ ref_bits(t.h);
    let x4 = x3.wrapping_mul(0x94d049bb133111eb);
    x4 ^ (x4 >> 31)
}

/// A mixing hash for a triple.
#[inline]
fn ite_key_hash(f: Ref, g: Ref, h: Ref) -> (hash: u64)
    ensures
        hash == triple_hash(Triple { f, g, h }),
{
    reveal(triple_hash);
    let mut x: u64 = ref_to_u64(f);
    x = x.wrapping_mul(0x9e3779b97f4a7c15);
    x ^= ref_to_u64(g);
    x = x.wrapping_mul(0xbf58476d1ce4e5b9);
    x ^= x >> 27;
    x ^= ref_to_u64(h);
    x = x.wrapping_mul(0x94d049bb133111eb);
    x ^= x >> 31;
    x
}

/// Each reference is mixed in turn into what the ones before it gave.
pub proof fn law_triple_hash(f: Ref, g: Ref, h: Ref)
    ensures
        ({
            let a = ref_bits(f).wrapping_mul(0x9e37_79b9_7f4a_7c15) ^ ref_bits(g);
            let b = a.wrapping_mul(0xbf58_476d_1ce4_e5b9);
            let c = (b ^ (b >> 27) ^ ref_bits(h)).wrapping_mul(0x94d0_49bb_1331_11eb);
            triple_hash(Triple { f, g, h }) == c ^ (c >> 31)
        }),
{
    reveal(triple_hash);
}

/// The number that stands for `r` in the cache: 0 and 1 for the terminals, 2 for
/// no reference at all, and three more than the offset for a node.
pub open spec fn packed(r: Ref) -> int {
    match r {
        Ref::Terminal(false) => 0,
        Ref::Terminal(true) => 1,
        Ref::Node(o) => o + 3,
    }
}

/// The reference that the number stands for.
pub open spec fn unpacked(p: u64) -> Ref {
    if p == 0 {
        Ref::Terminal(false)
    } else if p == 1 {
        Ref::Terminal(true)
    } else {
        Ref::Node((p - 3) as u64)
    }
}

/// Packing loses nothing, and never gives the number of no reference.
pub proof fn law_pack_roundtrip(r: Ref)
    requires
        packed(r) <= u64::MAX,
    ensures
        packed(r) != 2,
        unpacked(packed(r) as u64) == r,
{
}

/// A reference packed into one word.
#[derive(Copy, Clone, PartialEq, Eq, Structural)]
struct PackedRef {
    bits: u64,
}

impl PackedRef {
    #[inline]
    fn vacant() -> (p: Self)
        ensures
            p.bits == 2,
    {
        PackedRef { bits: 2 }
    }

    #[inline]
    fn pack(r: Ref) -> (p: Self)
        requires
            packed(r) <= u64::MAX,
        ensures
            p.bits == packed(r),
    {
        match r {
            Ref::Terminal(false) => PackedRef { bits: 0 },
            Ref::Terminal(true) => PackedRef { bits: 1 },
            Ref::Node(off) => PackedRef { bits: off + 3 },
        }
    }

    #[inline]
    fn unpack(self) -> (r: Ref)
        requires
            self.bits != 2,
        ensures
            r == unpacked(self.bits),
    {
        match self.bits {
            0 => Ref::Terminal(false),
            1 => Ref::Terminal(true),
            v => Ref::Node(v - 3),
        }
    }
}

/// A slot: a triple and its result, or vacant where `f` is.
#[derive(Copy, Clone)]
struct IteCacheEntry {
    f: PackedRef,
    g: PackedRef,
    h: PackedRef,
    r: PackedRef,
}

/// The memory that a slot takes: four words.
pub const ENTRY_BYTES: usize = 32;

/// A triple and its result.
pub struct Entry {
    pub t: Triple,
    pub r: Ref,
}

impl IteCacheEntry {
    #[inline]
    fn vacant() -> (e: Self)
        ensures
            e.ok(),
            e@ is None,
    {
        IteCacheEntry {
            f: PackedRef::vacant(),
            g: PackedRef::vacant(),
            h: PackedRef::vacant(),
            r: PackedRef::vacant(),
        }
    }

    spec fn ok(&self) -> bool {
        self.f.bits != 2 ==> self.g.bits != 2 && self.h.bits != 2 && self.r.bits != 2
    }

    spec fn view(&self) -> Option<Entry> {
        if self.f.bits == 2 {
            None
        } else {
            Some(
                Entry {
                    t: Triple {
                        f: unpacked(self.f.bits),
                        g: unpacked(self.g.bits),
                        h: unpacked(self.h.bits),
                    },
                    r: unpacked(self.r.bits),
                },
            )
        }
    }
}

// ---------------------------------------------------------------------------
// The cache
// ---------------------------------------------------------------------------

/// The slot of a triple in a cache of `n` slots.
pub open spec fn slot_of(t: Triple, n: nat) -> int {
    home(triple_hash(t), n) as int
}

/// What a probe for `t` gives, and its outcome.
pub open spec fn probe(memo: Seq<Option<Entry>>, t: Triple) -> (Option<Ref>, ApplyEvent) {
    match memo[slot_of(t, memo.len())] {
        None => (None, ApplyEvent::Empty),
        Some(e) => if e.t == t {
            (Some(e.r), ApplyEvent::Hit)
        } else {
            (None, ApplyEvent::Coll)
        },
    }
}

/// The cache after storing the result `r` of `t`.
pub open spec fn stored(memo: Seq<Option<Entry>>, t: Triple, r: Ref) -> Seq<Option<Entry>> {
    memo.update(slot_of(t, memo.len()), Some(Entry { t, r }))
}

/// The number of entries.
pub open spec fn filled(memo: Seq<Option<Entry>>) -> nat
    decreases memo.len(),
{
    if memo.len() == 0 {
        0
    } else {
        filled(memo.drop_last()) + if memo.last() is Some {
            1nat
        } else {
            0
        }
    }
}

/// A cache of `n` vacant slots.
pub open spec fn vacant(n: nat) -> Seq<Option<Entry>> {
    Seq::new(n, |i: int| None)
}

/// What is stored for a triple is found for it.
pub proof fn law_cache_hit(memo: Seq<Option<Entry>>, t: Triple, r: Ref)
    requires
        0 < memo.len() <= u64::MAX,
    ensures
        stored(memo, t, r).len() == memo.len(),
        probe(stored(memo, t, r), t) == (Some(r), ApplyEvent::Hit),
{
    lemma_home(triple_hash(t), memo.len());
}

/// What is found for a triple was stored for it: storing for another one can make
/// it forgotten, and nothing else.
pub proof fn law_cache_other(memo: Seq<Option<Entry>>, t: Triple, r: Ref, u: Triple)
    requires
        0 < memo.len() <= u64::MAX,
        u != t,
    ensures
        probe(stored(memo, t, r), u) == probe(memo, u) || probe(stored(memo, t, r), u) == (
            None::<Ref>,
            ApplyEvent::Coll,
        ),
{
    lemma_home(triple_hash(t), memo.len());
    lemma_home(triple_hash(u), memo.len());
}

/// In a cache without entries nothing is found.
pub proof fn law_cache_vacant(n: nat, t: Triple)
    requires
        0 < n <= u64::MAX,
    ensures
        vacant(n).len() == n,
        probe(vacant(n), t) == (None::<Ref>, ApplyEvent::Empty),
        filled(vacant(n)) == 0,
{
    lemma_home(triple_hash(t), n);
    law_filled(vacant(n));
    let taken = Set::new(|i: int| 0 <= i < n && vacant(n)[i] is Some);
    assert(taken =~= Set::empty());
}

/// The number of entries is that of the slots that are not vacant.
pub proof fn law_filled(memo: Seq<Option<Entry>>)
    ensures
        ({
            let taken = Set::new(|i: int| 0 <= i < memo.len() && memo[i] is Some);
            taken.finite() && filled(memo) == taken.len()
        }),
    decreases memo.len(),
{
    let taken = Set::new(|i: int| 0 <= i < memo.len() && memo[i] is Some);
    if memo.len() == 0 {
        assert(taken =~= Set::empty());
    } else {
        let head = memo.drop_last();
        let last = memo.len() - 1;
        let before = Set::new(|i: int| 0 <= i < head.len() && head[i] is Some);
        law_filled(head);
        if memo.last() is Some {
            assert(taken =~= before.insert(last));
        } else {
            assert(taken =~= before);
        }
    }
}

proof fn lemma_filled_bound(memo: Seq<Option<Entry>>)
    ensures
        filled(memo) <= memo.len(),
        (forall|i: int| 0 <= i < memo.len() ==> memo[i] is None) ==> filled(memo) == 0,
        (exists|i: int| 0 <= i < memo.len() && memo[i] is None) ==> filled(memo) < memo.len(),
    decreases memo.len(),
{
    if memo.len() > 0 {
        lemma_filled_bound(memo.drop_last());
        if exists|i: int| 0 <= i < memo.len() && memo[i] is None {
            let i = choose|i: int| 0 <= i < memo.len() && memo[i] is None;
            if i < memo.len() - 1 {
                assert(memo.drop_last()[i] is None);
            }
        }
    }
}

proof fn lemma_filled_update(memo: Seq<Option<Entry>>, i: int, e: Entry)
    requires
        0 <= i < memo.len(),
    ensures
        filled(memo.update(i, Some(e))) == filled(memo) + if memo[i] is None {
            1nat
        } else {
            0
        },
    decreases memo.len(),
{
    let next = memo.update(i, Some(e));
    if i == memo.len() - 1 {
        assert(next.drop_last() =~= memo.drop_last());
    } else {
        assert(next.drop_last() =~= memo.drop_last().update(i, Some(e)));
        lemma_filled_update(memo.drop_last(), i, e);
    }
}

/// Whether the references of `t` can be packed.
pub open spec fn packable(t: Triple) -> bool {
    packed(t.f) <= u64::MAX && packed(t.g) <= u64::MAX && packed(t.h) <= u64::MAX
}

/// The apply cache.
pub struct IteCache {
    entries: Vec<IteCacheEntry>,
    len: usize,
}

impl IteCache {
    /// The slots.
    pub closed spec fn view(&self) -> Seq<Option<Entry>> {
        Seq::new(self.entries@.len(), |i: int| self.entries@[i]@)
    }

    pub closed spec fn wf(&self) -> bool {
        &&& self.entries@.len() >= 1
        &&& self.len == filled(self@)
        &&& forall|i: int| 0 <= i < self.entries@.len() ==> (#[trigger] self.entries@[i]).ok()
    }

    /// A cache with `slots` vacant slots.
    pub fn new(slots: usize) -> (cache: Self)
        requires
            slots >= 1,
        ensures
            cache.wf(),
            cache@ == vacant(slots as nat),
    {
        let cache = IteCache { entries: vec![IteCacheEntry::vacant(); slots], len: 0 };
        proof {
            lemma_filled_bound(cache@);
            assert(cache@ =~= vacant(slots as nat));
        }
        cache
    }

    /// The number of slots.
    pub fn slots(&self) -> (n: usize)
        ensures
            n == self@.len(),
    {
        self.entries.len()
    }

    /// The number of entries.
    pub fn len(&self) -> (n: usize)
        requires
            self.wf(),
        ensures
            n == filled(self@),
            n <= self@.len(),
    {
        proof {
            lemma_filled_bound(self@);
        }
        self.len
    }

    /// Looks for the result of `(f, g, h)` and counts the probe.
    #[inline]
    pub fn get(&self, f: Ref, g: Ref, h: Ref, stats: &mut ApplyStats) -> (r: Option<Ref>)
        requires
            self.wf(),
            packable(Triple { f, g, h }),
        ensures
            ({
                let t = Triple { f, g, h };
                let (found, ev) = probe(self@, t);
                &&& r == found
                &&& *final(stats) == count_event(count_pattern(*old(stats), t), ev)
            }),
    {
        stats.bump_pattern(f, g, h);
        let slot: usize = home_slot(ite_key_hash(f, g, h), self.entries.len());
        let e: IteCacheEntry = self.entries[slot];
        assert(self@[slot as int] == e@);
        assert(e.ok());
        if e.f == PackedRef::pack(f) && e.g == PackedRef::pack(g) && e.h == PackedRef::pack(h) {
            stats.bump(ApplyEvent::Hit);
            Some(e.r.unpack())
        } else if e.f == PackedRef::vacant() {
            stats.bump(ApplyEvent::Empty);
            None
        } else {
            stats.bump(ApplyEvent::Coll);
            None
        }
    }

    /// Stores the result `r` of `(f, g, h)`.
    #[inline]
    pub fn put(&mut self, f: Ref, g: Ref, h: Ref, r: Ref)
        requires
            old(self).wf(),
            packable(Triple { f, g, h }),
            packed(r) <= u64::MAX,
        ensures
            final(self).wf(),
            final(self)@ == stored(old(self)@, Triple { f, g, h }, r),
    {
        let slot: usize = home_slot(ite_key_hash(f, g, h), self.entries.len());
        proof {
            let t = Triple { f, g, h };
            lemma_filled_update(self@, slot as int, Entry { t, r });
            lemma_filled_bound(self@);
            assert(self@[slot as int] == self.entries@[slot as int]@);
        }
        if self.entries[slot].f == PackedRef::vacant() {
            assert(self@[slot as int] is None);
            self.len = self.len + 1;
        }
        self.entries.set(
            slot,
            IteCacheEntry {
                f: PackedRef::pack(f),
                g: PackedRef::pack(g),
                h: PackedRef::pack(h),
                r: PackedRef::pack(r),
            },
        );
        assert(self@ =~= stored(old(self)@, Triple { f, g, h }, r));
    }

    /// Vacates all slots.
    pub fn clear(&mut self)
        requires
            old(self).wf(),
        ensures
            final(self).wf(),
            final(self)@ == vacant(old(self)@.len()),
    {
        let n: usize = self.entries.len();
        let mut i: usize = 0;
        while i < n
            invariant
                i <= n,
                n == self.entries@.len(),
                n == old(self).entries@.len(),
                forall|j: int|
                    0 <= j < i ==> (#[trigger] self.entries@[j]).ok() && self.entries@[j]@ is None,
            decreases n - i,
        {
            self.entries.set(i, IteCacheEntry::vacant());
            i += 1;
        }
        self.len = 0;
        proof {
            lemma_filled_bound(self@);
            assert(self@ =~= vacant(old(self)@.len()));
        }
    }
}

} // verus!
