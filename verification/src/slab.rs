//! Slabs and diffs: the units in which diagrams are shipped.
//!
//! A [`Slab`] is the bytes of an arena and the roots of interest in it. A
//! [`Diff`] is what has to be appended to a known slab to get further roots.
//! What is emitted is clean: it holds nothing but what its roots reach, so that
//! collecting it again would remove nothing.
//!
//! Children are stored as distances back, so the bytes of nodes that are appended
//! to a base do not depend on who appends them. Whoever holds the same base can
//! append the tail of a diff as it is.

use crate::arena::{
    arena_ok, boundary, closed, extends, holds_ref, lemma_cut, lemma_extends, lemma_node_at,
    lemma_tree_ordered, nodes, parses, rank, read_node, ref_in, ref_level, scan_max_var, starts,
    tree, var_count,
};
use crate::cache::{vacant, zeroed};
use crate::codec::{Node, Ref};
use crate::collect::{
    clean, collected, lemma_reach, lemma_visit_roots, post_order, reach, roots_in, settled,
    visit_roots,
};
use crate::diagram::{
    count_sat, doubled, lemma_doubled, lemma_models, lemma_models_doubled, models, support,
    vars_below, Bdd,
};
use crate::manager::{larger, DEFAULT_ITE_CACHE_SLOTS, Manager};
use crate::unique::caps_fitted;
use crate::validate::{arena_is_closed, arena_is_sound};
use std::collections::{BTreeSet, HashMap};
use vstd::prelude::*;

verus! {

/// Arena bytes and the roots that are exported from them.
#[derive(Debug, Clone)]
pub struct Slab {
    /// Encoded nodes.
    pub bytes: Vec<u8>,
    /// References into [`bytes`](Slab::bytes), or terminals.
    pub roots: Vec<Ref>,
}

/// The bytes that extend a known base, and new roots in the whole.
#[derive(Debug, Clone)]
pub struct Diff {
    /// The length of the base that the tail continues.
    pub base_len: u64,
    /// The bytes to append to the base.
    pub tail: Vec<u8>,
    /// References into the base with the tail behind it.
    pub new_roots: Vec<Ref>,
}

/// `x`, if it fits `u128`.
pub open spec fn fits(x: nat) -> Option<u128> {
    if x <= u128::MAX {
        Some(x as u128)
    } else {
        None
    }
}

/// Whether `counts` holds the count for the node at `o` over the variables from
/// its own to `n`.
spec fn counted(s: Map<u64, Node>, n: nat, counts: Map<u64, Option<u128>>, o: u64) -> bool {
    counts.dom().contains(o) && counts[o] == fits(models(tree(s, Ref::Node(o)), s[o].var as nat, n))
}

impl Slab {
    /// A slab of the given bytes and roots.
    pub fn new(bytes: Vec<u8>, roots: Vec<Ref>) -> (slab: Self)
        ensures
            slab.bytes@ == bytes@,
            slab.roots@ == roots@,
    {
        Slab { bytes, roots }
    }

    /// The length of the bytes, which is the base of later diffs.
    pub fn base_len(&self) -> (n: u64)
        ensures
            n == self.bytes@.len(),
    {
        self.bytes.len() as u64
    }

    /// The diagram of `r`.
    pub open spec fn tree(&self, r: Ref) -> Bdd {
        tree(nodes(self.bytes@), r)
    }

    /// Whether the bytes are nodes, each behind its children, and `r` is one of
    /// them.
    pub open spec fn readable(&self, r: Ref) -> bool {
        parses(self.bytes@) && closed(nodes(self.bytes@)) && ref_in(nodes(self.bytes@), r)
    }

    /// Whether `r` can be asked about: the bytes are nodes, each behind its children
    /// and of an earlier variable, and `r` is one of them or a terminal.
    pub fn can_read(&self, r: Ref) -> (yes: bool)
        ensures
            yes == self.readable(r),
    {
        arena_is_closed(self.bytes.as_slice()) && holds_ref(self.bytes.as_slice(), r)
    }

    /// The variables that `r` depends on.
    pub fn support(&self, r: Ref) -> (vars: BTreeSet<u32>)
        requires
            self.readable(r),
        ensures
            vars@ == support(self.tree(r)),
    {
        let ghost s = nodes(self.bytes@);
        let roots: [Ref; 1] = [r];
        let order: Vec<u64> = post_order(self.bytes.as_slice(), 0, roots.as_slice());
        let mut vars: BTreeSet<u32> = BTreeSet::new();
        let mut i: usize = 0;
        proof {
            lemma_single_root(s, r, roots@);
            reveal(listed);
        }
        while i < order.len()
            invariant
                self.readable(r),
                s == nodes(self.bytes@),
                i <= order@.len(),
                forall|o: u64| #[trigger] order@.contains(o) <==> reach(s, r).contains(o),
                settled(s, 0, order@),
                forall|v: u32| #[trigger] vars@.contains(v) <==> listed(s, order@, i as int, v),
            decreases order@.len() - i,
        {
            let off: u64 = order[i];
            proof {
                assert(order@.contains(order@[i as int]));
                lemma_reach(s, r, off);
                lemma_node_at(self.bytes@, off);
            }
            let (node, _len): (Node, usize) = read_node(self.bytes.as_slice(), off);
            add_var(&mut vars, node.var);
            proof {
                lemma_listed_next(s, order@, i as int);
            }
            i += 1;
        }
        proof {
            assert(vars@ =~= support(self.tree(r))) by {
                assert forall|v: u32| vars@.contains(v) <==> support(self.tree(r)).contains(v) by {
                    reveal(listed);
                    lemma_support_reach(s, r, v);
                    if vars@.contains(v) {
                        let k = choose|k: int|
                            0 <= k < order@.len() && s[#[trigger] order@[k]].var == v;
                        assert(order@.contains(order@[k]));
                    }
                    if support(self.tree(r)).contains(v) {
                        let o = choose|o: u64| #[trigger] reach(s, r).contains(o) && s[o].var == v;
                        assert(order@.contains(o));
                        let k = choose|k: int| 0 <= k < order@.len() && order@[k] == o;
                        assert(s[order@[k]].var == v);
                    }
                }
            }
        }
        vars
    }

    /// The number of assignments to the first `nvars` variables that make `r`
    /// true; `None` where it exceeds `u128`.
    pub fn sat_count(&self, r: Ref, nvars: u32) -> (count: Option<u128>)
        requires
            self.readable(r),
            vars_below(self.tree(r), nvars as int),
        ensures
            count == fits(count_sat(self.tree(r), nvars as nat)),
            match count {
                Some(c) => c == count_sat(self.tree(r), nvars as nat),
                None => count_sat(self.tree(r), nvars as nat) > u128::MAX,
            },
    {
        broadcast use vstd::std_specs::hash::group_hash_axioms;

        let ghost s = nodes(self.bytes@);
        let ghost n = nvars as nat;
        let roots: [Ref; 1] = [r];
        let order: Vec<u64> = post_order(self.bytes.as_slice(), 0, roots.as_slice());
        let mut counts: HashMap<u64, Option<u128>> = HashMap::new();
        let mut i: usize = 0;
        proof {
            lemma_single_root(s, r, roots@);
        }
        while i < order.len()
            invariant
                self.readable(r),
                vars_below(self.tree(r), nvars as int),
                s == nodes(self.bytes@),
                n == nvars,
                i <= order@.len(),
                forall|o: u64| #[trigger] order@.contains(o) <==> reach(s, r).contains(o),
                settled(s, 0, order@),
                forall|k: int| 0 <= k < i ==> counted(s, n, counts@, #[trigger] order@[k]),
            decreases order@.len() - i,
        {
            broadcast use vstd::std_specs::hash::group_hash_axioms;

            let off: u64 = order[i];
            proof {
                assert(order@.contains(order@[i as int]));
                lemma_reach(s, r, off);
                lemma_reach_below(s, r, off, n as int);
                lemma_listed_children(s, order@, i as int);
            }
            let own: Option<u128> = self.count_node(&counts, off, nvars);
            let ghost before = counts@;
            counts.insert(off, own);
            proof {
                assert forall|k: int| 0 <= k < i + 1 implies counted(
                    s,
                    n,
                    counts@,
                    #[trigger] order@[k],
                ) by {
                    if k < i {
                        assert(order@[k] != off) by {
                            reveal(settled);
                        }
                        assert(counted(s, n, before, order@[k]));
                    }
                }
            }
            i += 1;
        }
        proof {
            if let Ref::Node(o) = r {
                assert(order@.contains(o));
                let k = choose|k: int| 0 <= k < order@.len() && order@[k] == o;
                assert(counted(s, n, counts@, order@[k]));
            }
            lemma_tree_ordered(s, r);
            lemma_models(self.tree(r), |v: u32| false, 0, n);
        }
        self.count_below(&counts, r, 0, nvars)
    }

    /// The count for the node at `off` over the variables from its own on, where
    /// those of its children are in `counts`.
    fn count_node(
        &self,
        counts: &HashMap<u64, Option<u128>>,
        off: u64,
        nvars: u32,
    ) -> (count: Option<u128>)
        requires
            self.readable(Ref::Node(off)),
            vars_below(self.tree(Ref::Node(off)), nvars as int),
            nodes(self.bytes@)[off].lo matches Ref::Node(c) ==> counted(
                nodes(self.bytes@),
                nvars as nat,
                counts@,
                c,
            ),
            nodes(self.bytes@)[off].hi matches Ref::Node(c) ==> counted(
                nodes(self.bytes@),
                nvars as nat,
                counts@,
                c,
            ),
        ensures
            count == fits(
                models(
                    self.tree(Ref::Node(off)),
                    nodes(self.bytes@)[off].var as nat,
                    nvars as nat,
                ),
            ),
    {
        let ghost s = nodes(self.bytes@);
        proof {
            lemma_node_at(self.bytes@, off);
            reveal(closed);
        }
        let (node, _len): (Node, usize) = read_node(self.bytes.as_slice(), off);
        let lo: Option<u128> = self.count_below(counts, node.lo, node.var + 1, nvars);
        let hi: Option<u128> = self.count_below(counts, node.hi, node.var + 1, nvars);
        match (lo, hi) {
            (Some(a), Some(b)) => a.checked_add(b),
            _ => None,
        }
    }

    /// The count for `r` over the variables from `from` to `nvars`, where that of
    /// its node over the variables from its own on is in `counts`.
    fn count_below(
        &self,
        counts: &HashMap<u64, Option<u128>>,
        r: Ref,
        from: u32,
        nvars: u32,
    ) -> (count: Option<u128>)
        requires
            self.readable(r),
            vars_below(self.tree(r), nvars as int),
            from <= ref_level(nodes(self.bytes@), r),
            from <= nvars,
            r matches Ref::Node(o) ==> counted(nodes(self.bytes@), nvars as nat, counts@, o),
        ensures
            count == fits(models(self.tree(r), from as nat, nvars as nat)),
    {
        broadcast use vstd::std_specs::hash::group_hash_axioms;

        proof {
            lemma_tree_ordered(nodes(self.bytes@), r);
            lemma_models_doubled(self.tree(r), from as nat, nvars as nat);
        }
        match r {
            Ref::Terminal(b) => double(
                Some(
                    if b {
                        1
                    } else {
                        0
                    },
                ),
                nvars - from,
                Ghost(
                    if b {
                        1
                    } else {
                        0
                    },
                ),
            ),
            Ref::Node(off) => {
                proof {
                    lemma_node_at(self.bytes@, off);
                }
                let (node, _len): (Node, usize) = read_node(self.bytes.as_slice(), off);
                let own: Option<u128> = *counts.get(&off).unwrap();
                double(
                    own,
                    node.var - from,
                    Ghost(models(self.tree(r), node.var as nat, nvars as nat)),
                )
            },
        }
    }
}

impl Diff {
    /// The length of the tail.
    pub fn tail_len(&self) -> (n: u64)
        ensures
            n == self.tail@.len(),
    {
        self.tail.len() as u64
    }
}

impl Manager {
    /// Takes in the bytes of a base slab. The arena must be empty; what comes on
    /// top of a base is a [`Diff`]. Returns the roots of the slab, which stand
    /// where they stood.
    pub fn ingest_slab(&mut self, slab: &Slab) -> (roots: Vec<Ref>)
        requires
            old(self).wf(),
            old(self).arena().len() == 0,
            arena_ok(slab.bytes@),
        ensures
            final(self).arena() == slab.bytes@,
            final(self).memo() == old(self).memo(),
            final(self).counters() == old(self).counters(),
            final(self).vars() == old(self).vars(),
            final(self).tables_fitted(old(self)),
            final(self).wf(),
            roots@ == slab.roots@,
    {
        assert(self.arena() + slab.bytes@ =~= slab.bytes@);
        self.extend_arena(slab.bytes.as_slice());
        copy_refs(slab.roots.as_slice())
    }

    /// The slab of what `roots` reach. The manager itself is collected to that.
    pub fn slab_for(&mut self, roots: &[Ref]) -> (slab: Slab)
        requires
            old(self).wf(),
            roots_in(old(self).nodes(), roots@),
        ensures
            (slab.bytes@, slab.roots@) == collected(old(self).arena(), 0, roots@),
            final(self).arena() == slab.bytes@,
            final(self).memo() == if old(self).arena().len() == 0 {
                old(self).memo()
            } else {
                vacant(old(self).memo().len())
            },
            final(self).counters() == old(self).counters(),
            final(self).vars() == old(self).vars(),
            if old(self).arena().len() == 0 {
                final(self).unique_caps() == old(self).unique_caps()
            } else {
                final(self).tables_fitted(old(self))
            },
            final(self).wf(),
            arena_ok(slab.bytes@),
            clean(nodes(slab.bytes@), 0, slab.roots@),
            slab.roots@.len() == roots@.len(),
            forall|i: int|
                0 <= i < roots@.len() ==> slab.readable(#[trigger] slab.roots@[i]) && slab.tree(
                    slab.roots@[i],
                ) == old(self).tree(roots@[i]),
            forall|i: int|
                0 <= i < roots@.len() && old(self).ready(roots@[i]) ==> final(self).ready(
                    #[trigger] slab.roots@[i],
                ),
            starts(slab.bytes@).len() == visit_roots(old(self).nodes(), 0, roots@).len(),
    {
        let new_roots: Vec<Ref> = self.drop_roots(roots);
        let bytes: Vec<u8> = self.tail_copy(0);
        proof {
            assert(self.arena().skip(0) =~= self.arena());
            self.lemma_wf();
            assert forall|i: int| 0 <= i < roots@.len() implies ref_in(
                nodes(bytes@),
                #[trigger] new_roots@[i],
            ) by {
                assert(self.has(new_roots@[i]));
            }
        }
        Slab { bytes, roots: new_roots }
    }

    /// The diff from the arena as it was at length `base_len` to `new_roots`: the
    /// tail is collected to what they reach. The roots of the diff are those to
    /// be used from then on, here too.
    pub fn diff_since(&mut self, base_len: u64, new_roots: &[Ref]) -> (diff: Diff)
        requires
            old(self).wf(),
            boundary(old(self).arena(), base_len as int),
            roots_in(old(self).nodes(), new_roots@),
        ensures
            diff.base_len == base_len,
            (old(self).arena().take(base_len as int) + diff.tail@, diff.new_roots@) == collected(
                old(self).arena(),
                base_len,
                new_roots@,
            ),
            final(self).arena() == old(self).arena().take(base_len as int) + diff.tail@,
            final(self).memo() == if base_len == old(self).arena().len() {
                old(self).memo()
            } else {
                vacant(old(self).memo().len())
            },
            final(self).counters() == old(self).counters(),
            final(self).vars() == old(self).vars(),
            if base_len == old(self).arena().len() {
                final(self).unique_caps() == old(self).unique_caps()
            } else {
                final(self).tables_fitted(old(self))
            },
            final(self).wf(),
            arena_ok(final(self).arena()),
            clean(final(self).nodes(), base_len, diff.new_roots@),
            diff.new_roots@.len() == new_roots@.len(),
            forall|i: int|
                0 <= i < new_roots@.len() ==> final(self).has(#[trigger] diff.new_roots@[i])
                    && final(self).tree(diff.new_roots@[i]) == old(self).tree(new_roots@[i]),
            forall|i: int|
                0 <= i < new_roots@.len() && old(self).ready(new_roots@[i]) ==> final(self).ready(
                    #[trigger] diff.new_roots@[i],
                ),
    {
        proof {
            self.lemma_wf();
            lemma_cut(self.arena(), base_len as nat);
        }
        let cleaned_roots: Vec<Ref> = self.gc(base_len, new_roots);
        let tail: Vec<u8> = self.tail_copy(base_len as usize);
        proof {
            self.lemma_wf();
            let head = old(self).arena().take(base_len as int);
            assert(self.arena() =~= head + tail@) by {
                assert(self.arena().take(base_len as int) =~= head);
                assert(self.arena() =~= self.arena().take(base_len as int) + tail@);
            }
        }
        Diff { base_len, tail, new_roots: cleaned_roots }
    }

    /// Whether `diff` continues the arena: it was made for a base of this length, and
    /// its tail makes the whole a sound arena.
    pub fn can_apply(&self, diff: &Diff) -> (yes: bool)
        ensures
            yes == (self.arena().len() == diff.base_len && arena_ok(self.arena() + diff.tail@)),
    {
        if self.buf_len() as u64 != diff.base_len {
            return false;
        }
        let mut whole: Vec<u8> = self.tail_copy(0);
        whole.extend_from_slice(diff.tail.as_slice());
        proof {
            assert(self.arena().skip(0) =~= self.arena());
            assert(whole@ =~= self.arena() + diff.tail@);
        }
        arena_is_sound(whole.as_slice())
    }

    /// Appends a diff to the base that it was made for. Returns its roots, which
    /// stand where they stood.
    pub fn apply_diff(&mut self, diff: &Diff) -> (roots: Vec<Ref>)
        requires
            old(self).wf(),
            old(self).arena().len() == diff.base_len,
            arena_ok(old(self).arena() + diff.tail@),
        ensures
            final(self).arena() == old(self).arena() + diff.tail@,
            final(self).memo() == old(self).memo(),
            final(self).counters() == old(self).counters(),
            final(self).vars() == old(self).vars(),
            final(self).tables_fitted(old(self)),
            final(self).wf(),
            final(self).keeps(old(self)),
            roots@ == diff.new_roots@,
    {
        self.extend_arena(diff.tail.as_slice());
        copy_refs(diff.new_roots.as_slice())
    }

    /// Whether this is a fresh manager with the slab `base` taken in, and as many
    /// variables declared as it uses.
    pub open spec fn loaded_with(&self, base: &Slab) -> bool {
        &&& self.wf()
        &&& self.arena() == base.bytes@
        &&& self.vars() == var_count(base.bytes@)
        &&& self.memo() == vacant(
            DEFAULT_ITE_CACHE_SLOTS as nat,
        )
        &&& self.counters() == zeroed(false)
        &&& self.unique_caps() == caps_fitted(
            larger(1, var_count(base.bytes@)),
            base.bytes@,
        )
    }

    /// Runs `ops` on a fresh manager that holds `base`, and returns the diff from
    /// `base` to the roots that `ops` returns. `ops` gets the roots of the base,
    /// may add nodes, and must return references of the arena.
    pub fn extend_slab_generic<F>(base: &Slab, ops: F) -> (diff: Diff) where
        F: FnOnce(&mut Manager, &[Ref]) -> Vec<Ref>,

        requires
            arena_ok(base.bytes@),
            forall|m: &mut Manager, roots: &[Ref]|
                m.loaded_with(base) && roots@ == base.roots@ ==> #[trigger] call_requires(
                    ops,
                    (m, roots),
                ),
            forall|m: &mut Manager, roots: &[Ref], out: Vec<Ref>|
                m.loaded_with(base) && roots@ == base.roots@ && #[trigger] call_ensures(
                    ops,
                    (m, roots),
                    out,
                ) ==> extended_by(base, final(m), out@),
        ensures
            diff.base_len == base.bytes@.len(),
            exists|m: &mut Manager, roots: &[Ref], out: Vec<Ref>|
                m.loaded_with(base) && roots@ == base.roots@ && #[trigger] call_ensures(
                    ops,
                    (m, roots),
                    out,
                ) && diff_from(base, final(m), out@, diff),
    {
        let mut m: Manager = Manager::default();
        let count: u32 = scan_max_var(base.bytes.as_slice());
        let mut i: u32 = 0;
        while i < count
            invariant
                i <= count,
                m.wf(),
                m.arena() == Seq::<u8>::empty(),
                m.vars() == i,
                m.memo() == vacant(
                    DEFAULT_ITE_CACHE_SLOTS as nat,
                ),
                m.counters() == zeroed(false),
                m.unique_caps().len() == i,
            decreases count - i,
        {
            let _v: u32 = m.new_var();
            i += 1;
        }
        let base_roots: Vec<Ref> = m.ingest_slab(base);
        let base_len: u64 = m.buf_len() as u64;
        let new_roots: Vec<Ref> = ops(&mut m, base_roots.as_slice());
        proof {
            m.lemma_wf();
            lemma_extends(base.bytes@, m.arena());
        }
        m.diff_since(base_len, new_roots.as_slice())
    }

    /// See [`Manager::extend_slab_generic`].
    pub fn extend_slab<F>(base: &Slab, ops: F) -> (diff: Diff) where
        F: FnOnce(&mut Manager, &[Ref]) -> Vec<Ref>,

        requires
            arena_ok(base.bytes@),
            forall|m: &mut Manager, roots: &[Ref]|
                m.loaded_with(base) && roots@ == base.roots@ ==> #[trigger] call_requires(
                    ops,
                    (m, roots),
                ),
            forall|m: &mut Manager, roots: &[Ref], out: Vec<Ref>|
                m.loaded_with(base) && roots@ == base.roots@ && #[trigger] call_ensures(
                    ops,
                    (m, roots),
                    out,
                ) ==> extended_by(base, final(m), out@),
        ensures
            diff.base_len == base.bytes@.len(),
            exists|m: &mut Manager, roots: &[Ref], out: Vec<Ref>|
                m.loaded_with(base) && roots@ == base.roots@ && #[trigger] call_ensures(
                    ops,
                    (m, roots),
                    out,
                ) && diff_from(base, final(m), out@, diff),
    {
        Manager::extend_slab_generic(base, ops)
    }
}

/// Whether `m` has added nodes to the slab `base`, and holds the references
/// `roots`.
pub open spec fn extended_by(base: &Slab, m: &Manager, roots: Seq<Ref>) -> bool {
    &&& m.wf()
    &&& extends(base.bytes@, m.arena())
    &&& roots_in(m.nodes(), roots)
}

/// Whether `diff` leads from the slab `base` to what `roots` reach in `m`.
pub open spec fn diff_from(base: &Slab, m: &Manager, roots: Seq<Ref>, diff: Diff) -> bool {
    let whole = base.bytes@ + diff.tail@;
    &&& (whole, diff.new_roots@) == collected(m.arena(), base.bytes@.len() as u64, roots)
    &&& arena_ok(whole)
    &&& clean(nodes(whole), base.bytes@.len() as u64, diff.new_roots@)
    &&& diff.new_roots@.len() == roots.len()
    &&& forall|i: int|
        0 <= i < roots.len() ==> ref_in(nodes(whole), #[trigger] diff.new_roots@[i]) && tree(
            nodes(whole),
            diff.new_roots@[i],
        ) == m.tree(roots[i])
}

/// A copy of `refs`.
fn copy_refs(refs: &[Ref]) -> (copy: Vec<Ref>)
    ensures
        copy@ == refs@,
{
    let mut copy: Vec<Ref> = Vec::new();
    copy.extend_from_slice(refs);
    assert(copy@ =~= refs@);
    copy
}

/// Doubles a count `d` times.
fn double(count: Option<u128>, d: u32, exact: Ghost<nat>) -> (out: Option<u128>)
    requires
        count == fits(exact@),
    ensures
        out == fits(doubled(exact@, d as nat)),
{
    proof {
        lemma_doubled(exact@, d as nat);
    }
    let start: u128 = match count {
        None => {
            return None;
        },
        Some(x) => x,
    };
    if start == 0 {
        return Some(0);
    }
    let mut x: u128 = start;
    let mut left: u32 = d;
    while left > 0
        invariant
            x > 0,
            left <= d,
            doubled(x as nat, left as nat) == doubled(exact@, d as nat),
        decreases left,
    {
        proof {
            lemma_doubled(x as nat, (left - 1) as nat);
            lemma_doubled(2 * x as nat, (left - 1) as nat);
        }
        match x.checked_add(x) {
            None => {
                return None;
            },
            Some(y) => {
                x = y;
            },
        }
        left -= 1;
    }
    Some(x)
}

/// Adds a variable to a set.
fn add_var(vars: &mut BTreeSet<u32>, v: u32)
    ensures
        final(vars)@ == old(vars)@.insert(v),
{
    broadcast use vstd::laws_cmp::group_laws_cmp;

    vars.insert(v);
}

/// The nodes that one root reaches, from offset 0 on, are all that it reaches.
proof fn lemma_single_root(s: Map<u64, Node>, r: Ref, roots: Seq<Ref>)
    requires
        closed(s),
        ref_in(s, r),
        roots.len() == 1,
        roots[0] == r,
    ensures
        roots_in(s, roots),
        settled(s, 0, visit_roots(s, 0, roots)),
        forall|o: u64| #[trigger]
            visit_roots(s, 0, roots).contains(o) <==> reach(s, r).contains(o),
{
    lemma_visit_roots(s, 0, roots);
    assert forall|o: u64| #[trigger] visit_roots(s, 0, roots).contains(o) <==> reach(
        s,
        r,
    ).contains(o) by {
        if reach(s, r).contains(o) {
            assert(reach(s, roots[0]).contains(o));
        }
    }
}

/// The children of a listed node are listed before it.
proof fn lemma_listed_children(s: Map<u64, Node>, order: Seq<u64>, i: int)
    requires
        closed(s),
        settled(s, 0, order),
        0 <= i < order.len(),
    ensures
        s[order[i]].lo matches Ref::Node(c) ==> exists|k: int|
            0 <= k < i && #[trigger] order[k] == c,
        s[order[i]].hi matches Ref::Node(c) ==> exists|k: int|
            0 <= k < i && #[trigger] order[k] == c,
        ref_in(s, s[order[i]].lo),
        ref_in(s, s[order[i]].hi),
        ref_level(s, s[order[i]].lo) > s[order[i]].var,
        ref_level(s, s[order[i]].hi) > s[order[i]].var,
{
    reveal(settled);
    reveal(closed);
    let o = order[i];
    assert(s.dom().contains(o));
    if let Ref::Node(c) = s[o].lo {
        assert(order.take(i).contains(c));
        let k = choose|k: int| 0 <= k < i && order.take(i)[k] == c;
        assert(order[k] == c);
    }
    if let Ref::Node(c) = s[o].hi {
        assert(order.take(i).contains(c));
        let k = choose|k: int| 0 <= k < i && order.take(i)[k] == c;
        assert(order[k] == c);
    }
}

/// What is reached is built over the same variables.
pub proof fn lemma_reach_below(s: Map<u64, Node>, r: Ref, o: u64, n: int)
    requires
        closed(s),
        ref_in(s, r),
        vars_below(tree(s, r), n),
        reach(s, r).contains(o),
    ensures
        vars_below(tree(s, Ref::Node(o)), n),
    decreases rank(r),
{
    reveal(closed);
    let p = r->Node_0;
    assert(s.dom().contains(p));
    if o != p {
        if reach(s, s[p].lo).contains(o) {
            lemma_reach_below(s, s[p].lo, o, n);
        } else {
            lemma_reach_below(s, s[p].hi, o, n);
        }
    }
}

/// Whether one of the first `i` nodes of `order` has variable `v`.
#[verifier::opaque]
spec fn listed(s: Map<u64, Node>, order: Seq<u64>, i: int, v: u32) -> bool {
    exists|k: int| 0 <= k < i && s[#[trigger] order[k]].var == v
}

/// One node more lists its own variable.
proof fn lemma_listed_next(s: Map<u64, Node>, order: Seq<u64>, i: int)
    requires
        0 <= i < order.len(),
    ensures
        forall|v: u32| #[trigger]
            listed(s, order, i + 1, v) <==> listed(s, order, i, v) || v == s[order[i]].var,
{
    reveal(listed);
    assert forall|v: u32| #[trigger] listed(s, order, i + 1, v) <==> listed(s, order, i, v) || v
        == s[order[i]].var by {
        if listed(s, order, i, v) {
            let k = choose|k: int| 0 <= k < i && s[#[trigger] order[k]].var == v;
            assert(0 <= k < i + 1 && s[order[k]].var == v);
        }
    }
}

/// The support is made of the variables of the nodes reached.
proof fn lemma_support_reach(s: Map<u64, Node>, r: Ref, v: u32)
    requires
        closed(s),
        ref_in(s, r),
    ensures
        support(tree(s, r)).contains(v) <==> exists|o: u64| #[trigger]
            reach(s, r).contains(o) && s[o].var == v,
    decreases rank(r),
{
    reveal(closed);
    if let Ref::Node(p) = r {
        assert(s.dom().contains(p));
        lemma_support_reach(s, s[p].lo, v);
        lemma_support_reach(s, s[p].hi, v);
        if support(tree(s, r)).contains(v) {
            if v == s[p].var {
                assert(reach(s, r).contains(p));
            } else if support(tree(s, s[p].lo)).contains(v) {
                let o = choose|o: u64| #[trigger] reach(s, s[p].lo).contains(o) && s[o].var == v;
                assert(reach(s, r).contains(o));
            } else {
                let o = choose|o: u64| #[trigger] reach(s, s[p].hi).contains(o) && s[o].var == v;
                assert(reach(s, r).contains(o));
            }
        }
    }
}

} // verus!
