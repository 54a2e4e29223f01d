//! The live diagram manager: an append-only byte arena, unique tables that keep
//! it free of equal nodes, and a direct-mapped apply cache for if-then-else.

use crate::apply::{
    branch, cofactor_of, expandable, find, intern, internable, ite_bool, ite_means, ite_on,
    lemma_branch, lemma_expandable, lemma_find, lemma_intern, lemma_same_trees, rank3, top,
    triple_in, trivial, Triple,
};
use crate::arena::{
    arena_ok, boundary, closed, extends, holds_ref, lemma_append, lemma_boundary_zero, lemma_cut,
    lemma_empty_arena, lemma_extends, lemma_extends_trans, lemma_max_var_count, lemma_next_node,
    lemma_node_at, lemma_node_count, lemma_tree_submap, max_var_count, nodes, parses, parses_from,
    read_node, ref_in, ref_level, starts, starts_from, tree, var_count,
};
use crate::cache::{
    filled, packable, probe, stored, vacant, zeroed, ENTRY_BYTES, ApplyStats, Entry, IteCache,
};
use crate::codec::{decode_node, decode_var, encode_node, Node, Ref};
use crate::collect::{
    clean, collected, lemma_collected_none, lemma_layout_facts, lemma_relaid,
    lemma_relaid_children, lemma_root_listed, lemma_settled_prefix, lemma_visit_roots, moved,
    post_order, relaid, roots_in, settled, theorem_collected, visit_roots,
};
use crate::diagram::{eval, leaf_level, lemma_vars_below_mono, vars_below, Bdd, Env};
use crate::memo::{
    after_probe, combine, enter, enter_cost, entry_ok, expanded, ite_call, ite_memo, lemma_call,
    lemma_cost_push, lemma_expand_cost, lemma_memo_extends, lemma_memo_stored, lemma_run_whole,
    lemma_step_combine, lemma_step_empty, lemma_step_enter, lemma_step_results, memo_ok, run,
    stack_cost, state_ok, Frame, Outcome, State,
};
use crate::unique::{
    caps_fitted, caps_grown, count_var, grown, key_hash, lemma_caps_grown_trans,
    lemma_count_prefix, lemma_count_push, lemma_grown, lemma_grown_holds, total_slots,
    unique_key_hash, wanted_slots, INITIAL_CAP, UniqueTables,
};
use std::collections::HashMap;
use vstd::arithmetic::power2::is_pow2;
use vstd::prelude::*;

verus! {

/// Default number of slots in the apply cache: 2^21, which take 64 MiB.
pub const DEFAULT_ITE_CACHE_SLOTS: usize = 0x20_0000;

/// Construction-time options for [`Manager`].
#[derive(Debug, Clone, Copy)]
pub struct ManagerConfig {
    ite_cache_slots: usize,
}

impl ManagerConfig {
    /// The number of slots of the apply cache.
    pub closed spec fn slots(&self) -> nat {
        self.ite_cache_slots as nat
    }

    /// Whether the number of slots is a power of two, and at least 2.
    pub open spec fn valid(&self) -> bool {
        is_pow2(self.slots() as int) && self.slots() >= 2
    }

    /// [`DEFAULT_ITE_CACHE_SLOTS`] slots.
    pub fn new() -> (config: Self)
        ensures
            config.valid(),
            config.slots() == DEFAULT_ITE_CACHE_SLOTS,
    {
        assert(is_pow2(0x20_0000)) by {
            reveal_with_fuel(is_pow2, 22);
        }
        ManagerConfig { ite_cache_slots: DEFAULT_ITE_CACHE_SLOTS }
    }

    /// Sets the number of slots, a power of two so that a slot is found by
    /// masking the hash.
    #[must_use]
    pub fn with_cache_slots(self, slots: usize) -> (config: Self)
        requires
            is_pow2(slots as int),
            slots >= 2,
        ensures
            config.valid(),
            config.slots() == slots,
    {
        ManagerConfig { ite_cache_slots: slots }
    }

    /// The number of slots.
    pub fn ite_cache_slots(self) -> (slots: usize)
        ensures
            slots == self.slots(),
    {
        self.ite_cache_slots
    }
}

impl Default for ManagerConfig {
    fn default() -> (config: Self)
        ensures
            config.valid(),
            config.slots() == DEFAULT_ITE_CACHE_SLOTS,
    {
        ManagerConfig::new()
    }
}

/// The live diagram engine.
pub struct Manager {
    buf: Vec<u8>,
    unique: UniqueTables,
    num_vars: u32,
    cache: IteCache,
    stats: ApplyStats,
}

impl Manager {
    /// The bytes of the arena.
    pub closed spec fn arena(&self) -> Seq<u8> {
        self.buf@
    }

    /// The number of declared variables.
    pub closed spec fn vars(&self) -> u32 {
        self.num_vars
    }

    /// The slots of the apply cache.
    pub closed spec fn memo(&self) -> Seq<Option<Entry>> {
        self.cache@
    }

    /// The counters of the apply cache.
    pub closed spec fn counters(&self) -> ApplyStats {
        self.stats
    }

    /// The number of slots of each unique table.
    pub closed spec fn unique_caps(&self) -> Seq<nat> {
        self.unique.capacities()
    }

    /// Whether the unique tables are those of `before`, grown as needed by the nodes
    /// added since.
    pub open spec fn tables_grew(&self, before: &Self) -> bool {
        self.unique_caps() == caps_grown(before.unique_caps(), before.arena(), self.arena())
    }

    /// Whether the unique tables have been sized anew for the nodes of the arena.
    pub open spec fn tables_fitted(&self, before: &Self) -> bool {
        self.unique_caps() == caps_fitted(
            table_count(before.unique_caps().len(), self.vars(), self.arena()),
            self.arena(),
        )
    }

    /// What if-then-else works on.
    pub open spec fn state(&self) -> State {
        State { buf: self.arena(), memo: self.memo(), stats: self.counters() }
    }

    /// The nodes of the arena by their offsets.
    pub open spec fn nodes(&self) -> Map<u64, Node> {
        nodes(self.arena())
    }

    /// Whether `r` is a terminal or a node of the arena.
    pub open spec fn has(&self, r: Ref) -> bool {
        ref_in(self.nodes(), r)
    }

    /// What `r` unfolds to.
    pub open spec fn tree(&self, r: Ref) -> Bdd {
        tree(self.nodes(), r)
    }

    /// Whether `r` is in the arena and built over declared variables.
    pub open spec fn ready(&self, r: Ref) -> bool {
        self.has(r) && vars_below(self.tree(r), self.vars() as int)
    }

    /// Whether the if-then-else of `t` needs no expansion, or one that builds nodes
    /// of declared variables only, as it does for operands that are ready.
    pub open spec fn admits(&self, t: Triple) -> bool {
        trivial(t) is Some || (triple_in(self.nodes(), t) && ((self.ready(t.f) && self.ready(t.g)
            && self.ready(t.h)) || expandable(self.arena(), self.vars() as int, t)))
    }

    /// Whether the manager is sound: the arena holds a shared, ordered and
    /// reduced diagram, the unique tables hold exactly its nodes, and the cache
    /// holds true results.
    pub closed spec fn wf(&self) -> bool {
        &&& arena_ok(self.buf@)
        &&& self.buf@.len() <= usize::MAX
        &&& self.unique.complete(self.buf@)
        &&& self.unique.snug()
        &&& self.num_vars <= self.unique@.len()
        &&& self.unique@.len() <= self.num_vars || self.unique@.len() <= 256
        &&& self.cache.wf()
        &&& memo_ok(self.cache@, self.buf@)
        &&& self.cache@.len() * ENTRY_BYTES <= isize::MAX
    }

    /// Whether every reference of `before` means the same here, and the arena of
    /// `before` is untouched.
    pub open spec fn keeps(&self, before: &Self) -> bool {
        &&& self.wf()
        &&& self.vars() >= before.vars()
        &&& extends(before.arena(), self.arena())
        &&& forall|r: Ref| #[trigger]
            before.has(r) ==> self.has(r) && self.tree(r) == before.tree(r)
        &&& forall|r: Ref| #[trigger] before.ready(r) ==> self.ready(r)
    }

    /// What a sound manager's views satisfy.
    pub proof fn lemma_wf(&self)
        requires
            self.wf(),
        ensures
            state_ok(self.state()),
            self.arena().len() <= usize::MAX,
    {
    }

    /// A sound manager whose arena extends that of another keeps its references.
    pub(crate) proof fn lemma_keeps(&self, before: &Self)
        requires
            self.wf(),
            arena_ok(before.arena()),
            extends(before.arena(), self.arena()),
            self.vars() >= before.vars(),
        ensures
            self.keeps(before),
    {
        lemma_extends(before.arena(), self.arena());
        assert forall|r: Ref| #[trigger] before.has(r) implies self.has(r) && self.tree(r)
            == before.tree(r) by {
            lemma_tree_submap(before.nodes(), self.nodes(), r);
        }
        assert forall|r: Ref| #[trigger] before.ready(r) implies self.ready(r) by {
            assert(before.has(r));
            lemma_vars_below_mono(self.tree(r), before.vars() as int, self.vars() as int);
        }
    }

    /// A sound manager keeps its own references.
    pub(crate) proof fn lemma_keeps_itself(&self)
        requires
            self.wf(),
        ensures
            self.keeps(self),
    {
        self.lemma_keeps_same(self);
    }

    /// Keeping references is transitive.
    pub(crate) proof fn lemma_keeps_trans(&self, mid: &Self, before: &Self)
        requires
            before.wf(),
            mid.keeps(before),
            self.keeps(mid),
        ensures
            self.keeps(before),
    {
        lemma_extends_trans(before.arena(), mid.arena(), self.arena());
        self.lemma_keeps(before);
    }

    /// A manager with the default cache.
    pub fn new() -> (m: Self)
        ensures
            m.wf(),
            m.arena() == Seq::<u8>::empty(),
            m.vars() == 0,
            m.memo() == vacant(DEFAULT_ITE_CACHE_SLOTS as nat),
            m.counters() == zeroed(false),
            m.unique_caps() == Seq::<nat>::empty(),
    {
        Manager::with_config(ManagerConfig::new())
    }

    /// A manager with `slots` slots in its cache.
    pub fn with_cache_slots(slots: usize) -> (m: Self)
        requires
            is_pow2(slots as int),
            slots >= 2,
            slots * 32 <= isize::MAX,
        ensures
            m.wf(),
            m.arena() == Seq::<u8>::empty(),
            m.vars() == 0,
            m.memo() == vacant(slots as nat),
            m.counters() == zeroed(false),
            m.unique_caps() == Seq::<nat>::empty(),
    {
        Manager::with_config(ManagerConfig::new().with_cache_slots(slots))
    }

    /// A manager with the options `config`.
    pub fn with_config(config: ManagerConfig) -> (m: Self)
        requires
            config.valid(),
            config.slots() * 32 <= isize::MAX,
        ensures
            m.wf(),
            m.arena() == Seq::<u8>::empty(),
            m.vars() == 0,
            m.memo() == vacant(config.slots()),
            m.counters() == zeroed(false),
            m.unique_caps() == Seq::<nat>::empty(),
    {
        let m = Manager {
            buf: Vec::new(),
            unique: UniqueTables::new(),
            num_vars: 0,
            cache: IteCache::new(config.ite_cache_slots),
            stats: ApplyStats::new(),
        };
        proof {
            lemma_empty_arena();
            assert(m.buf@ =~= Seq::empty());
            reveal(memo_ok);
        }
        m
    }

    /// Declares the next variable.
    pub fn new_var(&mut self) -> (v: u32)
        requires
            old(self).wf(),
            old(self).vars() < u32::MAX,
        ensures
            v == old(self).vars(),
            final(self).vars() == old(self).vars() + 1,
            final(self).state() == old(self).state(),
            final(self).unique_caps() == if old(self).unique_caps().len() > old(self).vars() {
                old(self).unique_caps()
            } else {
                old(self).unique_caps().push(INITIAL_CAP as nat)
            },
            final(self).wf(),
            final(self).keeps(old(self)),
    {
        let v: u32 = self.num_vars;
        self.num_vars = self.num_vars + 1;
        self.unique.ensure_var(v);
        proof {
            let before = old(self).unique;
            assert forall|o: u64| #[trigger] nodes(self.buf@).dom().contains(o) implies nodes(
                self.buf@,
            )[o].var < self.unique@.len() && self.unique@[nodes(
                self.buf@,
            )[o].var as int].contains(o) by {
                let w = nodes(self.buf@)[o].var as int;
                assert(before@[w].contains(o));
                assert(self.unique@.take(before@.len() as int)[w] == before@[w]);
            }
            self.unique.lemma_snug_extended(&before);
            self.unique.lemma_lens();
            before.lemma_lens();
            assert(self.unique.capacities() =~= if before@.len() > v {
                before.capacities()
            } else {
                before.capacities().push(INITIAL_CAP as nat)
            }) by {
                assert forall|w: int| 0 <= w < before@.len() implies (
                #[trigger] self.unique.capacities()[w]) == before.capacities()[w] by {
                    assert(self.unique.capacities().take(before@.len() as int)[w]
                        == before.capacities()[w]);
                }
                if before@.len() <= v {
                    assert(self.unique@[v as int] == Set::<u64>::empty());
                }
            }
            self.lemma_keeps_same(old(self));
        }
        v
    }

    /// A sound manager with the arena of another keeps its references.
    proof fn lemma_keeps_same(&self, before: &Self)
        requires
            self.wf(),
            before.wf(),
            self.arena() == before.arena(),
            self.vars() >= before.vars(),
        ensures
            self.keeps(before),
    {
        assert(self.arena().take(self.arena().len() as int) =~= self.arena());
        self.lemma_keeps(before);
    }

    /// The number of declared variables.
    pub fn num_vars(&self) -> (n: u32)
        ensures
            n == self.vars(),
    {
        self.num_vars
    }

    /// The terminal `value`.
    pub fn constant(&self, value: bool) -> (r: Ref)
        ensures
            r == Ref::Terminal(value),
    {
        Ref::Terminal(value)
    }

    /// The terminal for false.
    pub fn false_(&self) -> (r: Ref)
        ensures
            r == Ref::Terminal(false),
    {
        Ref::Terminal(false)
    }

    /// The terminal for true.
    pub fn true_(&self) -> (r: Ref)
        ensures
            r == Ref::Terminal(true),
    {
        Ref::Terminal(true)
    }

    /// The number of nodes in the arena.
    pub fn num_nodes(&self) -> (n: usize)
        requires
            self.wf(),
        ensures
            n == starts(self.arena()).len(),
            n == self.nodes().dom().len(),
    {
        proof {
            self.unique.lemma_total(self.buf@);
            self.unique.lemma_sound(self.buf@);
            lemma_node_count(self.buf@);
        }
        self.unique.len()
    }

    /// The length of the arena in bytes.
    pub fn buf_len(&self) -> (n: usize)
        ensures
            n == self.arena().len(),
    {
        self.buf.len()
    }

    /// The bytes of the arena from `off` on.
    pub fn arena_slice(&self, off: usize) -> (s: &[u8])
        requires
            off <= self.arena().len(),
        ensures
            s@ == self.arena().skip(off as int),
    {
        let s = vstd::slice::slice_subrange(self.buf.as_slice(), off, self.buf.len());
        assert(s@ =~= self.buf@.skip(off as int));
        s
    }

    /// Whether `r` is a terminal or a node of the arena.
    pub fn holds(&self, r: Ref) -> (yes: bool)
        requires
            self.wf(),
        ensures
            yes == self.has(r),
    {
        holds_ref(self.buf.as_slice(), r)
    }

    /// Whether a node starts at `base_len`, or the arena ends there.
    pub fn is_boundary(&self, base_len: u64) -> (yes: bool)
        requires
            self.wf(),
        ensures
            yes == boundary(self.arena(), base_len as int),
    {
        base_len == self.buf.len() as u64 || self.holds(Ref::Node(base_len))
    }

    /// The top variable of `r`.
    pub fn var_of(&self, r: Ref) -> (v: Option<u32>)
        requires
            self.wf(),
            self.has(r),
        ensures
            v == match r {
                Ref::Terminal(_) => None::<u32>,
                Ref::Node(o) => Some(self.nodes()[o].var),
            },
    {
        match r {
            Ref::Terminal(_) => None,
            Ref::Node(off) => {
                proof {
                    lemma_node_at(self.buf@, off);
                }
                let at = self.arena_slice(off as usize);
                let (var, _n): (u32, usize) = decode_var(at, off);
                Some(var)
            },
        }
    }

    /// The node that `r` refers to.
    pub fn decode_node(&self, r: Ref) -> (n: Option<Node>)
        requires
            self.wf(),
            self.has(r),
        ensures
            n == match r {
                Ref::Terminal(_) => None::<Node>,
                Ref::Node(o) => Some(self.nodes()[o]),
            },
    {
        match r {
            Ref::Terminal(_) => None,
            Ref::Node(off) => {
                proof {
                    lemma_node_at(self.buf@, off);
                }
                let (n, _len): (Node, usize) = read_node(self.buf.as_slice(), off);
                Some(n)
            },
        }
    }

    /// The node `(var, lo, hi)`: `lo` where both children are the same, the node
    /// that the arena holds already, or a new one at its end.
    pub fn make_node(&mut self, var: u32, lo: Ref, hi: Ref) -> (r: Ref)
        requires
            old(self).wf(),
            var < old(self).vars(),
            lo != hi ==> internable(old(self).nodes(), var, lo, hi),
        ensures
            (final(self).arena(), r) == intern(old(self).arena(), var, lo, hi),
            final(self).memo() == old(self).memo(),
            final(self).counters() == old(self).counters(),
            final(self).vars() == old(self).vars(),
            final(self).tables_grew(old(self)),
            final(self).wf(),
            final(self).keeps(old(self)),
            lo == hi ==> r == lo && final(self).arena() == old(self).arena(),
            lo != hi ==> (r matches Ref::Node(o) && final(self).nodes().dom().contains(o)
                && final(self).nodes()[o] == Node { var, lo, hi }),
            old(self).has(lo) && old(self).has(hi) ==> final(self).has(r),
            old(self).ready(lo) && old(self).ready(hi) ==> final(self).ready(r),
            forall|env: Env| #[trigger]
                eval(final(self).tree(r), env) == if env(var) {
                    eval(old(self).tree(hi), env)
                } else {
                    eval(old(self).tree(lo), env)
                },
    {
        proof {
            reveal(intern);
        }
        if lo == hi {
            proof {
                self.lemma_keeps_same(old(self));
            }
            return lo;
        }
        let ghost s = nodes(self.buf@);
        let ghost n = Node { var, lo, hi };
        let hash: u64 = unique_key_hash(var, lo, hi);
        if let Some(off) = self.unique.lookup(hash, var, lo, hi, self.buf.as_slice()) {
            proof {
                lemma_find(s, off);
                lemma_intern(self.buf@, var, lo, hi);
                self.lemma_keeps_same(old(self));
            }
            return Ref::Node(off);
        }
        proof {
            assert forall|o: u64| s.dom().contains(o) implies s[o] != n by {
                if s[o] == n {
                    assert(self.unique@[var as int].contains(o));
                }
            }
            assert(find(s, n) is None);
        }
        self.add_node(hash, var, lo, hi)
    }

    /// Adds a node that the arena does not hold yet.
    fn add_node(&mut self, hash: u64, var: u32, lo: Ref, hi: Ref) -> (r: Ref)
        requires
            old(self).wf(),
            var < old(self).vars(),
            lo != hi,
            internable(old(self).nodes(), var, lo, hi),
            find(old(self).nodes(), Node { var, lo, hi }) is None,
            hash == key_hash(var, lo, hi),
        ensures
            (final(self).arena(), r) == intern(old(self).arena(), var, lo, hi),
            final(self).memo() == old(self).memo(),
            final(self).counters() == old(self).counters(),
            final(self).vars() == old(self).vars(),
            final(self).tables_grew(old(self)),
            final(self).wf(),
            final(self).keeps(old(self)),
            r matches Ref::Node(o) && final(self).nodes().dom().contains(o)
                && final(self).nodes()[o] == (Node { var, lo, hi }),
            old(self).ready(lo) && old(self).ready(hi) ==> final(self).ready(r),
            forall|env: Env| #[trigger]
                eval(final(self).tree(r), env) == if env(var) {
                    eval(old(self).tree(hi), env)
                } else {
                    eval(old(self).tree(lo), env)
                },
    {
        let ghost s = nodes(self.buf@);
        let ghost n = Node { var, lo, hi };
        let new_off: u64 = self.buf.len() as u64;
        proof {
            if lo is Node {
                lemma_node_at(self.buf@, lo->Node_0);
            }
            if hi is Node {
                lemma_node_at(self.buf@, hi->Node_0);
            }
        }
        encode_node(var, lo, hi, new_off, &mut self.buf);
        proof {
            assert(self.buf@.len() == self.buf.len());
            assert((self.buf@, Ref::Node(new_off)) == intern(old(self).buf@, var, lo, hi)) by {
                reveal(intern);
            }
            lemma_intern(old(self).buf@, var, lo, hi);
            lemma_append(old(self).buf@, n);
            self.unique.lemma_wf_submap(old(self).buf@, self.buf@);
            assert(!self.unique@[var as int].contains(new_off)) by {
                if self.unique@[var as int].contains(new_off) {
                    self.unique.lemma_members(old(self).buf@, var as int, new_off);
                }
            }
        }
        let ghost before = self.unique;
        self.unique.insert(hash, var, new_off, self.buf.as_slice());
        proof {
            assert forall|o: u64| #[trigger] nodes(self.buf@).dom().contains(o) implies nodes(
                self.buf@,
            )[o].var < self.unique@.len() && self.unique@[nodes(
                self.buf@,
            )[o].var as int].contains(o) by {
                if o != new_off {
                    assert(s.dom().contains(o));
                    assert(before@[s[o].var as int].contains(o));
                }
            }
            self.unique.lemma_snug_inserted(&before, old(self).buf@, var as int, new_off);
            self.unique.lemma_caps_inserted(
                &before,
                old(self).buf@,
                self.buf@,
                var as int,
                new_off,
            );
            lemma_memo_extends(self.cache@, old(self).buf@, self.buf@);
            self.lemma_keeps(old(self));
        }
        Ref::Node(new_off)
    }

    /// The top variable of `r`; none for a terminal, which is below all of them.
    fn top_var(&self, r: Ref) -> (v: Option<u32>)
        requires
            self.wf(),
            self.has(r),
        ensures
            v matches Some(x) ==> ref_level(self.nodes(), r) == x,
            v is None ==> ref_level(self.nodes(), r) == leaf_level(),
    {
        self.var_of(r)
    }

    /// `r` with variable `v`, which is at or above its top, set to `val`.
    fn cofactor(&self, r: Ref, v: u32, val: bool) -> (c: Ref)
        requires
            self.wf(),
            self.has(r),
            v <= ref_level(self.nodes(), r),
        ensures
            c == cofactor_of(self.nodes(), r, v as int, val),
    {
        match r {
            Ref::Terminal(_) => r,
            Ref::Node(off) => {
                proof {
                    lemma_node_at(self.buf@, off);
                }
                let (node, _len): (Node, usize) = read_node(self.buf.as_slice(), off);
                if node.var > v {
                    r
                } else if val {
                    node.hi
                } else {
                    node.lo
                }
            },
        }
    }

    /// The result of if-then-else where it needs no expansion.
    fn ite_trivial(&self, f: Ref, g: Ref, h: Ref) -> (r: Option<Ref>)
        ensures
            r == trivial(Triple { f, g, h }),
    {
        if let Ref::Terminal(fv) = f {
            return Some(
                if fv {
                    g
                } else {
                    h
                },
            );
        }
        if g == h {
            return Some(g);
        }
        if g == Ref::Terminal(true) && h == Ref::Terminal(false) {
            return Some(f);
        }
        None
    }

    /// Probes the apply cache.
    #[inline]
    fn ite_cache_get(&mut self, f: Ref, g: Ref, h: Ref) -> (r: Option<Ref>)
        requires
            old(self).wf(),
            triple_in(old(self).nodes(), Triple { f, g, h }),
        ensures
            r == probe(old(self).memo(), Triple { f, g, h }).0,
            final(self).state() == after_probe(old(self).state(), Triple { f, g, h }),
            final(self).vars() == old(self).vars(),
            final(self).unique_caps() == old(self).unique_caps(),
            final(self).wf(),
    {
        proof {
            lemma_packable(self.buf@, Triple { f, g, h });
        }
        self.cache.get(f, g, h, &mut self.stats)
    }

    /// Stores a result in the apply cache.
    #[inline]
    fn ite_cache_put(&mut self, f: Ref, g: Ref, h: Ref, r: Ref)
        requires
            old(self).wf(),
            entry_ok(old(self).arena(), Entry { t: Triple { f, g, h }, r }),
            old(self).has(r),
        ensures
            final(self).arena() == old(self).arena(),
            final(self).memo() == stored(old(self).memo(), Triple { f, g, h }, r),
            final(self).counters() == old(self).counters(),
            final(self).vars() == old(self).vars(),
            final(self).unique_caps() == old(self).unique_caps(),
            final(self).wf(),
    {
        proof {
            lemma_packable(self.buf@, Triple { f, g, h });
            lemma_packable(self.buf@, Triple { f: r, g: r, h: r });
            lemma_memo_stored(
                self.cache@,
                self.buf@,
                Entry { t: Triple { f, g, h }, r },
            );
        }
        self.cache.put(f, g, h, r);
    }

    /// The expansion of a triple: the variable to expand on, and the two branches
    /// as work to be done, the low one first.
    fn ite_expand(&self, f: Ref, g: Ref, h: Ref) -> (e: (u32, Frame, Frame))
        requires
            self.wf(),
            triple_in(self.nodes(), Triple { f, g, h }),
            trivial(Triple { f, g, h }) is None,
        ensures
            e.0 == top(self.nodes(), Triple { f, g, h }),
            e.1 == enter(branch(self.nodes(), Triple { f, g, h }, false)),
            e.2 == enter(branch(self.nodes(), Triple { f, g, h }, true)),
    {
        proof {
            lemma_branch(self.buf@, Triple { f, g, h }, false);
        }
        let tops: Option<u32> = min_var(
            self.top_var(f),
            min_var(self.top_var(g), self.top_var(h)),
        );
        let tv: u32 = tops.unwrap();
        let low = Frame::Enter {
            f: self.cofactor(f, tv, false),
            g: self.cofactor(g, tv, false),
            h: self.cofactor(h, tv, false),
        };
        let high = Frame::Enter {
            f: self.cofactor(f, tv, true),
            g: self.cofactor(g, tv, true),
            h: self.cofactor(h, tv, true),
        };
        (tv, low, high)
    }

    /// Builds the node over the results of both branches of a triple, and stores it
    /// as the result of the triple.
    fn ite_combine(&mut self, f: Ref, g: Ref, h: Ref, tv: u32, lo: Ref, hi: Ref) -> (r: Ref)
        requires
            old(self).wf(),
            tv < old(self).vars(),
            internable(old(self).nodes(), tv, lo, hi),
            ({
                let (st, r) = combine(old(self).state(), Triple { f, g, h }, tv, lo, hi);
                st.buf.len() <= u64::MAX ==> entry_ok(st.buf, Entry { t: Triple { f, g, h }, r })
            }),
        ensures
            (final(self).state(), r) == combine(
                old(self).state(),
                Triple { f, g, h },
                tv,
                lo,
                hi,
            ),
            final(self).arena().len() <= u64::MAX,
            final(self).vars() == old(self).vars(),
            final(self).tables_grew(old(self)),
            final(self).wf(),
            extends(old(self).arena(), final(self).arena()),
    {
        let r: Ref = self.make_node(tv, lo, hi);
        assert(self.buf@.len() == self.buf.len());
        self.ite_cache_put(f, g, h, r);
        assert(self.state() == combine(old(self).state(), Triple { f, g, h }, tv, lo, hi).0);
        r
    }

    /// If-then-else: the reference to `f ? g : h`.
    ///
    /// Shannon expansion with an explicit work stack, so that deep diagrams do
    /// not exhaust the call stack. The cache evicts, so the results of the two
    /// branches wait on a stack of their own until they are combined.
    pub fn ite(&mut self, f: Ref, g: Ref, h: Ref) -> (r: Ref)
        requires
            old(self).wf(),
            old(self).admits(Triple { f, g, h }),
        ensures
            ite_call(old(self).state(), Triple { f, g, h }) == Some((final(self).state(), r)),
            (final(self).arena(), r) == ite_on(old(self).arena(), Triple { f, g, h }),
            final(self).vars() == old(self).vars(),
            final(self).tables_grew(old(self)),
            final(self).wf(),
            final(self).keeps(old(self)),
            old(self).has(f) && old(self).has(g) && old(self).has(h) ==> final(self).has(r)
                && forall|env: Env| #[trigger]
                eval(final(self).tree(r), env) == ite_bool(
                    eval(old(self).tree(f), env),
                    eval(old(self).tree(g), env),
                    eval(old(self).tree(h), env),
                ),
            old(self).ready(f) && old(self).ready(g) && old(self).ready(h) ==> final(self).ready(r),
    {
        let ghost whole = Triple { f, g, h };
        if let Some(r) = self.ite_trivial(f, g, h) {
            proof {
                self.lemma_keeps_same(old(self));
            }
            return r;
        }
        if let Some(r) = self.ite_cache_get(f, g, h) {
            proof {
                lemma_call(old(self).state(), whole);
                self.lemma_keeps_same(old(self));
                reveal(ite_means);
            }
            return r;
        }
        let ghost buf0 = self.buf@;
        let ghost caps0 = self.unique_caps();
        let ghost st0 = self.state();
        let ghost goal = ite_memo(st0, whole);
        proof {
            lemma_run_whole(st0, whole);
            if self.ready(f) && self.ready(g) && self.ready(h) {
                lemma_expandable(buf0, self.num_vars as int, whole);
            }
            assert(buf0.take(buf0.len() as int) =~= buf0);
        }
        let mut stack: Vec<Frame> = Vec::with_capacity(64);
        let mut results: Vec<Ref> = Vec::with_capacity(64);
        stack.push(Frame::Enter { f, g, h });
        assert(stack@ =~= seq![Frame::Enter { f, g, h }]);
        assert(results@ =~= seq![]);
        while stack.len() > 0
            invariant
                self.wf(),
                self.num_vars == old(self).num_vars,
                arena_ok(buf0),
                extends(buf0, self.buf@),
                self.unique_caps() == caps_grown(caps0, buf0, self.buf@),
                run(stack@, results@, self.state()) == match goal {
                    None => Outcome::Full,
                    Some((st2, r)) => Outcome::Done(st2, seq![r]),
                },
                forall|i: int|
                    0 <= i < stack@.len() ==> frame_ready(
                        buf0,
                        self.num_vars,
                        #[trigger] stack@[i],
                    ),
            decreases stack_cost(stack@),
        {
            let ghost before = stack@;
            let ghost st = self.state();
            let frame: Frame = stack.pop().unwrap();
            let ghost rest = stack@;
            proof {
                assert(rest.push(frame) =~= before);
                assert(frame_ready(buf0, self.num_vars, before[before.len() - 1]));
                lemma_cost_push(rest, frame);
                lemma_extends(buf0, self.buf@);
            }
            match frame {
                Frame::Enter { f, g, h } => {
                    let ghost t = Triple { f, g, h };
                    proof {
                        lemma_same_trees(nodes(buf0), nodes(self.buf@), t);
                        lemma_step_enter(rest, results@, st, t);
                        assert(enter_cost(rank3(t)) >= 1);
                    }
                    if let Some(r) = self.ite_trivial(f, g, h) {
                        results.push(r);
                    } else if let Some(r) = self.ite_cache_get(f, g, h) {
                        results.push(r);
                    } else {
                        let (tv, low, high): (u32, Frame, Frame) = self.ite_expand(f, g, h);
                        proof {
                            let s0 = nodes(buf0);
                            lemma_expanded_ready(buf0, self.num_vars, rest, t);
                            lemma_expand_cost(
                                rest,
                                t,
                                tv,
                                branch(s0, t, false),
                                branch(s0, t, true),
                            );
                        }
                        // The low branch goes on top, and is evaluated first.
                        stack.push(Frame::Combine { f, g, h, tv });
                        stack.push(high);
                        stack.push(low);
                    }
                },
                Frame::Combine { f, g, h, tv } => {
                    let ghost t = Triple { f, g, h };
                    let ghost both = results@;
                    proof {
                        lemma_step_results(before, both, st);
                    }
                    let hi: Ref = results.pop().unwrap();
                    let lo: Ref = results.pop().unwrap();
                    proof {
                        assert(both =~= results@.push(lo).push(hi));
                        lemma_step_combine(rest, results@, st, t, tv, lo, hi);
                    }
                    let r: Ref = self.ite_combine(f, g, h, tv, lo, hi);
                    proof {
                        lemma_extends_trans(buf0, st.buf, self.buf@);
                        lemma_caps_grown_trans(caps0, buf0, st.buf, self.buf@);
                    }
                    results.push(r);
                },
            }
        }
        proof {
            assert(stack@ =~= seq![]);
            lemma_step_empty(results@, self.state());
            lemma_call(old(self).state(), whole);
            self.lemma_keeps(old(self));
            reveal(ite_means);
        }
        results.pop().unwrap()
    }

    /// The negation of `f`.
    pub fn not(&mut self, f: Ref) -> (r: Ref)
        requires
            old(self).wf(),
            old(self).admits(not_triple(f)),
        ensures
            ite_call(old(self).state(), not_triple(f)) == Some((final(self).state(), r)),
            (final(self).arena(), r) == ite_on(old(self).arena(), not_triple(f)),
            final(self).vars() == old(self).vars(),
            final(self).tables_grew(old(self)),
            final(self).wf(),
            final(self).keeps(old(self)),
            final(self).has(r),
            old(self).ready(f) ==> final(self).ready(r),
            forall|env: Env| #[trigger]
                eval(final(self).tree(r), env) == !eval(old(self).tree(f), env),
    {
        let t = self.true_();
        let fa = self.false_();
        self.ite(f, fa, t)
    }

    /// The conjunction of `f` and `g`.
    pub fn and(&mut self, f: Ref, g: Ref) -> (r: Ref)
        requires
            old(self).wf(),
            old(self).admits(and_triple(f, g)),
        ensures
            ite_call(old(self).state(), and_triple(f, g)) == Some((final(self).state(), r)),
            (final(self).arena(), r) == ite_on(old(self).arena(), and_triple(f, g)),
            final(self).vars() == old(self).vars(),
            final(self).tables_grew(old(self)),
            final(self).wf(),
            final(self).keeps(old(self)),
            old(self).has(f) && old(self).has(g) ==> final(self).has(r) && forall|env: Env|
                #[trigger]
                eval(final(self).tree(r), env) == (eval(old(self).tree(f), env) && eval(
                    old(self).tree(g),
                    env,
                )),
            old(self).ready(f) && old(self).ready(g) ==> final(self).ready(r),
    {
        let fa = self.false_();
        self.ite(f, g, fa)
    }

    /// The disjunction of `f` and `g`.
    pub fn or(&mut self, f: Ref, g: Ref) -> (r: Ref)
        requires
            old(self).wf(),
            old(self).admits(or_triple(f, g)),
        ensures
            ite_call(old(self).state(), or_triple(f, g)) == Some((final(self).state(), r)),
            (final(self).arena(), r) == ite_on(old(self).arena(), or_triple(f, g)),
            final(self).vars() == old(self).vars(),
            final(self).tables_grew(old(self)),
            final(self).wf(),
            final(self).keeps(old(self)),
            old(self).has(f) && old(self).has(g) ==> final(self).has(r) && forall|env: Env|
                #[trigger]
                eval(final(self).tree(r), env) == (eval(old(self).tree(f), env) || eval(
                    old(self).tree(g),
                    env,
                )),
            old(self).ready(f) && old(self).ready(g) ==> final(self).ready(r),
    {
        let t = self.true_();
        self.ite(f, t, g)
    }

    /// Whether both steps of the exclusive disjunction of `f` and `g` are admitted:
    /// negating `g`, and the choice between `g` and its negation.
    pub open spec fn admits_xor(&self, f: Ref, g: Ref) -> bool {
        let (mid, ng) = ite_on(self.arena(), not_triple(g));
        let t = Triple { f, g: ng, h: g };
        self.admits(not_triple(g)) && (trivial(t) is Some || (triple_in(nodes(mid), t)
            && expandable(mid, self.vars() as int, t)))
    }

    /// The exclusive disjunction of `f` and `g`.
    pub fn xor(&mut self, f: Ref, g: Ref) -> (r: Ref)
        requires
            old(self).wf(),
            (old(self).ready(f) && old(self).ready(g)) || old(self).admits_xor(f, g),
        ensures
            ite_call(old(self).state(), not_triple(g)) is Some,
            ({
                let (st, ng) = ite_call(old(self).state(), not_triple(g))->0;
                ite_call(st, Triple { f, g: ng, h: g }) == Some((final(self).state(), r))
            }),
            (final(self).arena(), r) == xor_on(old(self).arena(), f, g),
            final(self).vars() == old(self).vars(),
            final(self).tables_grew(old(self)),
            final(self).wf(),
            final(self).keeps(old(self)),
            old(self).has(f) ==> final(self).has(r) && forall|env: Env| #[trigger]
                eval(final(self).tree(r), env) == (eval(old(self).tree(f), env) != eval(
                    old(self).tree(g),
                    env,
                )),
            old(self).ready(f) && old(self).ready(g) ==> final(self).ready(r),
    {
        let ng = self.not(g);
        let ghost mid = *self;
        let ghost t = Triple { f, g: ng, h: g };
        assert(self.admits(t)) by {
            if old(self).ready(f) && old(self).ready(g) {
                assert(self.ready(f) && self.ready(ng) && self.ready(g));
            }
        }
        let r = self.ite(f, ng, g);
        proof {
            lemma_caps_grown_trans(
                old(self).unique_caps(),
                old(self).arena(),
                mid.arena(),
                self.arena(),
            );
            self.lemma_keeps_trans(&mid, old(self));
            lemma_xor_sound(old(self), &mid, self, f, g, ng, r);
        }
        r
    }

    /// The memory that the arena, the unique tables and the cache take.
    pub fn mem_stats(&self) -> (stats: MemStats)
        requires
            self.wf(),
            9 * total_slots(self.unique_caps()) <= usize::MAX || 9 * self.arena().len() + 9216 * (
            self.vars() + 256) <= usize::MAX,
        ensures
            stats.arena_bytes == self.arena().len(),
            stats.unique_bytes == 9 * total_slots(self.unique_caps()),
            stats.unique_bytes <= 9 * self.arena().len() + 9216 * (self.vars() + 256),
            stats.cache_bytes == self.memo().len() * ENTRY_BYTES,
            stats.cache_bytes == self.memo().len() * 32,
            stats.unique_entries == starts(self.arena()).len(),
            stats.cache_entries == filled(self.memo()),
    {
        proof {
            let n = self.unique@.len();
            self.unique.lemma_snug_slots(n);
            self.unique.lemma_lens();
            self.unique.lemma_total(self.buf@);
            lemma_node_count(self.buf@);
            assert(self.unique.capacities().take(n as int) =~= self.unique.capacities());
            assert(self.unique@.take(n as int) =~= self.unique@);
            self.unique.lemma_sound(self.buf@);
        }
        MemStats {
            arena_bytes: self.buf.len(),
            unique_bytes: self.unique.bytes(),
            cache_bytes: self.cache.slots() * ENTRY_BYTES,
            unique_entries: self.num_nodes(),
            cache_entries: self.cache.len(),
        }
    }

    /// The number of nodes per variable; at least one entry per declared one.
    fn nodes_per_var(&self) -> (per_var: Vec<usize>)
        requires
            parses(self.buf@),
        ensures
            self.num_vars <= per_var@.len(),
            per_var@.len() <= self.num_vars || per_var@.len() <= 256,
            per_var@.len() == larger(self.num_vars as nat, var_count(self.buf@)),
            forall|v: int|
                0 <= v < per_var@.len() ==> #[trigger] per_var@[v] == count_var(
                    nodes(self.buf@),
                    starts(self.buf@),
                    v,
                ),
            forall|o: u64| #[trigger]
                nodes(self.buf@).dom().contains(o) ==> nodes(self.buf@)[o].var < per_var@.len(),
    {
        let mut per_var: Vec<usize> = vec![0; self.num_vars as usize];
        let mut pos: usize = 0;
        let ghost s = nodes(self.buf@);
        let ghost mut done = Seq::<u64>::empty();
        proof {
            assert(starts(self.buf@) =~= done + starts_from(self.buf@, 0));
            lemma_node_count(self.buf@);
        }
        while pos < self.buf.len()
            invariant
                parses(self.buf@),
                pos <= self.buf@.len(),
                parses_from(self.buf@, pos as nat),
                s == nodes(self.buf@),
                starts(self.buf@) == done + starts_from(self.buf@, pos as nat),
                3 * starts(self.buf@).len() <= self.buf@.len(),
                self.num_vars <= per_var@.len(),
                per_var@.len() <= self.num_vars || per_var@.len() <= 256,
                per_var@.len() == larger(self.num_vars as nat, max_var_count(s, done)),
                forall|v: int|
                    0 <= v < per_var@.len() ==> #[trigger] per_var@[v] == count_var(s, done, v),
                forall|i: int| 0 <= i < done.len() ==> s[#[trigger] done[i]].var < per_var@.len(),
            decreases self.buf@.len() - pos,
        {
            proof {
                lemma_next_node(self.buf@, done, pos as nat);
            }
            let (node, len): (Node, usize) = read_node(self.buf.as_slice(), pos as u64);
            let v: usize = node.var as usize;
            let ghost narrow = per_var@;
            if v >= per_var.len() {
                per_var.resize(v + 1, 0);
                proof {
                    assert forall|w: int| 0 <= w < per_var@.len() implies #[trigger] per_var@[w]
                        == count_var(s, done, w) by {
                        if w < narrow.len() {
                            assert(per_var@[w] == narrow[w]);
                        } else {
                            lemma_count_none(s, done, narrow.len() as int, w);
                        }
                    }
                }
            }
            proof {
                lemma_count_prefix(s, done, seq![], v as int);
            }
            let ghost wide = per_var@;
            per_var.set(v, per_var[v] + 1);
            proof {
                assert forall|w: int| 0 <= w < per_var@.len() implies #[trigger] per_var@[w]
                    == count_var(s, done.push(pos as u64), w) by {
                    assert(wide[w] == count_var(s, done, w));
                    lemma_count_push(s, done, pos as u64, w);
                }
                assert(done.push(pos as u64).drop_last() =~= done);
                done = done.push(pos as u64);
            }
            pos += len;
        }
        proof {
            assert(done =~= starts(self.buf@));
            assert forall|o: u64| #[trigger] s.dom().contains(o) implies s[o].var
                < per_var@.len() by {
                let i = choose|i: int| 0 <= i < done.len() && done[i] == o;
                assert(s[done[i]].var < per_var@.len());
            }
        }
        per_var
    }

    /// Rebuilds the unique tables from the arena: first a count per variable, so
    /// that no table has to grow, then every node in order.
    fn unique_rebuild_from_arena(&mut self)
        requires
            parses(old(self).buf@),
            old(self).unique@.len() <= old(self).num_vars || old(self).unique@.len() <= 256,
        ensures
            final(self).buf@ == old(self).buf@,
            final(self).num_vars == old(self).num_vars,
            final(self).cache == old(self).cache,
            final(self).stats == old(self).stats,
            final(self).unique.complete(final(self).buf@),
            final(self).unique.snug(),
            final(self).unique.capacities() == caps_fitted(
                table_count(
                    old(self).unique.capacities().len(),
                    final(self).num_vars,
                    final(self).buf@,
                ),
                final(self).buf@,
            ),
            final(self).num_vars <= final(self).unique@.len(),
            final(self).unique@.len() <= final(self).num_vars || final(self).unique@.len() <= 256,
    {
        let per_var: Vec<usize> = self.nodes_per_var();
        let ghost s = nodes(self.buf@);
        let ghost all = starts(self.buf@);
        proof {
            lemma_node_count(self.buf@);
            assert(self.buf@.len() == self.buf.len());
            assert forall|v: int| 0 <= v < per_var@.len() implies #[trigger] per_var@[v]
                <= usize::MAX / 3 by {
                lemma_count_prefix(s, all, seq![], v);
            }
            self.unique.lemma_lens();
        }
        self.unique.reset_for(per_var.as_slice());
        let mut pos: usize = 0;
        let ghost mut done = Seq::<u64>::empty();
        let ghost caps = self.unique.capacities();
        proof {
            assert(all =~= done + starts_from(self.buf@, 0));
            self.unique.lemma_lens();
            lemma_max_var_count(s, all);
            assert forall|v: int| 0 <= v < caps.len() implies #[trigger] caps[v] == grown(
                INITIAL_CAP as nat,
                wanted_slots(count_var(s, all, v)),
            ) by {
                assert(self.unique.capacities()[v] == caps[v]);
                if v < per_var@.len() {
                    assert(per_var@[v] == count_var(s, all, v));
                } else {
                    lemma_count_none(s, all, per_var@.len() as int, v);
                }
            }
            assert(caps =~= caps_fitted(caps.len(), self.buf@));
            assert forall|v: int| 0 <= v < self.unique@.len() implies table_holds(
                s,
                done,
                v,
                #[trigger] self.unique@[v],
            ) by {
                assert(self.unique@[v] == Set::<u64>::empty());
            }
        }
        while pos < self.buf.len()
            invariant
                parses(self.buf@),
                self.buf@ == old(self).buf@,
                self.num_vars == old(self).num_vars,
                self.cache == old(self).cache,
                self.stats == old(self).stats,
                pos <= self.buf@.len(),
                parses_from(self.buf@, pos as nat),
                s == nodes(self.buf@),
                all == starts(self.buf@),
                all == done + starts_from(self.buf@, pos as nat),
                per_var@.len() <= self.unique@.len(),
                self.num_vars <= self.unique@.len(),
                self.unique@.len() <= self.num_vars || self.unique@.len() <= 256,
                self.unique.wf(self.buf@),
                self.unique.capacities().len() == self.unique@.len(),
                forall|o: u64| #[trigger] s.dom().contains(o) ==> s[o].var < per_var@.len(),
                self.unique.capacities() == caps,
                caps == caps_fitted(caps.len(), self.buf@),
                forall|v: int|
                    0 <= v < self.unique@.len() ==> table_holds(
                        s,
                        done,
                        v,
                        #[trigger] self.unique@[v],
                    ),
            decreases self.buf@.len() - pos,
        {
            proof {
                lemma_next_node(self.buf@, done, pos as nat);
            }
            let off: u64 = pos as u64;
            let (node, len): (Node, usize) = read_node(self.buf.as_slice(), off);
            let hash: u64 = unique_key_hash(node.var, node.lo, node.hi);
            let ghost before = self.unique;
            proof {
                assert(table_holds(s, done, node.var as int, before@[node.var as int]));
            }
            self.unique.insert(hash, node.var, off, self.buf.as_slice());
            proof {
                let w = node.var as int;
                lemma_count_push(s, done, off, w);
                assert(all =~= done.push(off) + starts_from(self.buf@, (pos + len) as nat));
                lemma_count_prefix(
                    s,
                    done.push(off),
                    starts_from(self.buf@, (pos + len) as nat),
                    w,
                );
                lemma_grown_holds(INITIAL_CAP as nat, count_var(s, all, w));
                assert(self.unique.capacities() =~= caps);
                assert forall|v: int| 0 <= v < self.unique@.len() implies table_holds(
                    s,
                    done.push(off),
                    v,
                    #[trigger] self.unique@[v],
                ) by {
                    assert(table_holds(s, done, v, before@[v]));
                    lemma_table_push(s, done, off, v, before@[v]);
                }
                done = done.push(off);
            }
            pos += len;
        }
        proof {
            assert(done =~= all);
            assert forall|o: u64| #[trigger] s.dom().contains(o) implies s[o].var
                < self.unique@.len() && self.unique@[s[o].var as int].contains(o) by {
                assert(table_holds(s, done, s[o].var as int, self.unique@[s[o].var as int]));
            }
            assert forall|v: int|
                0 <= v < self.unique@.len() implies #[trigger] self.unique.capacities()[v]
                <= INITIAL_CAP + 3 * self.unique@[v].len() by {
                assert(table_holds(s, done, v, self.unique@[v]));
                lemma_grown(INITIAL_CAP as nat, wanted_slots(count_var(s, all, v)));
            }
        }
    }

    /// Collects the tail: of the nodes at offsets from `base_len` on, only those
    /// that `roots` reach are kept, and the bytes before `base_len` are left as
    /// they are. The result holds the roots where they stand now. With
    /// `base_len` 0 this is a full collection, see [`Manager::drop_roots`].
    ///
    /// Children are stored as distances back, so that no node of the base can
    /// have a child in the tail, and no write barrier is needed. The cache is
    /// vacated, unless there is no tail.
    pub fn gc(&mut self, base_len: u64, roots: &[Ref]) -> (kept: Vec<Ref>)
        requires
            old(self).wf(),
            boundary(old(self).arena(), base_len as int),
            roots_in(old(self).nodes(), roots@),
        ensures
            (final(self).arena(), kept@) == collected(old(self).arena(), base_len, roots@),
            final(self).memo() == if base_len == old(self).arena().len() {
                old(self).memo()
            } else {
                vacant(old(self).memo().len())
            },
            final(self).counters() == old(self).counters(),
            final(self).vars() == old(self).vars(),
            if base_len == old(self).arena().len() {
                final(self).unique_caps() == old(self).unique_caps()
            } else {
                final(self).tables_fitted(old(self))
            },
            final(self).wf(),
            extends(old(self).arena().take(base_len as int), final(self).arena()),
            kept@.len() == roots@.len(),
            forall|i: int|
                0 <= i < roots@.len() ==> final(self).has(#[trigger] kept@[i]) && final(self).tree(
                    kept@[i],
                ) == old(self).tree(roots@[i]),
            forall|i: int|
                0 <= i < roots@.len() && old(self).ready(roots@[i]) ==> final(self).ready(
                    #[trigger] kept@[i],
                ),
            clean(final(self).nodes(), base_len, kept@),
            starts(final(self).arena()).len() == starts(
                old(self).arena().take(base_len as int),
            ).len() + visit_roots(old(self).nodes(), base_len, roots@).len(),
    {
        broadcast use vstd::std_specs::hash::group_hash_axioms;

        let ghost buf = self.buf@;
        let ghost s = nodes(buf);
        let ghost head = buf.take(base_len as int);
        proof {
            lemma_cut(buf, base_len as nat);
        }
        if base_len == self.buf.len() as u64 {
            let mut kept: Vec<Ref> = Vec::new();
            kept.extend_from_slice(roots);
            proof {
                assert(kept@ =~= roots@);
                lemma_collected_none(buf, base_len, roots@);
                theorem_collected(buf, base_len, roots@);
            }
            return kept;
        }
        let order: Vec<u64> = post_order(self.buf.as_slice(), base_len, roots);
        proof {
            lemma_visit_roots(s, base_len, roots@);
        }
        // The tail is read from here while it is being rewritten.
        let old_tail: Vec<u8> = self.tail_copy(base_len as usize);
        self.buf.truncate(base_len as usize);
        let mut remap: HashMap<u64, Ref> = HashMap::new();
        let mut i: usize = 0;
        assert(self.buf@ =~= head);
        assert(order@.take(0) =~= seq![]);
        assert(remap@ =~= Map::empty());
        while i < order.len()
            invariant
                arena_ok(buf),
                boundary(buf, base_len as int),
                buf.len() <= u64::MAX,
                s == nodes(buf),
                head == buf.take(base_len as int),
                old_tail@ == buf.skip(base_len as int),
                base_len < buf.len(),
                self.num_vars == old(self).num_vars,
                self.unique == old(self).unique,
                self.cache == old(self).cache,
                self.stats == old(self).stats,
                settled(s, base_len, order@),
                i <= order@.len(),
                (self.buf@, remap@) == relaid(s, base_len, head, order@.take(i as int)),
            decreases order@.len() - i,
        {
            let old_off: u64 = order[i];
            let ghost done = order@.take(i as int);
            proof {
                assert(self.buf@.len() == self.buf.len());
                assert(done.push(old_off) =~= order@.take(i + 1));
                lemma_settled_prefix(s, base_len, order@, i + 1);
                lemma_relaid_children(buf, base_len, done, old_off);
                lemma_node_at(buf, old_off);
            }
            let at = vstd::slice::slice_subrange(
                old_tail.as_slice(),
                (old_off - base_len) as usize,
                old_tail.len(),
            );
            assert(at@ =~= buf.skip(old_off as int));
            let (node, _len): (Node, usize) = decode_node(at, old_off);
            let new_lo: Ref = translate(&remap, node.lo, base_len);
            let new_hi: Ref = translate(&remap, node.hi, base_len);
            let new_off: u64 = self.buf.len() as u64;
            encode_node(node.var, new_lo, new_hi, new_off, &mut self.buf);
            remap.insert(old_off, Ref::Node(new_off));
            assert(order@.take(i + 1).drop_last() =~= done);
            i += 1;
        }
        proof {
            assert(order@.take(i as int) =~= order@);
            assert(self.buf@.len() == self.buf.len());
            theorem_collected(buf, base_len, roots@);
            lemma_relaid(buf, base_len, order@);
            lemma_layout_facts(s, base_len, head, order@, self.buf@, remap@);
        }
        self.unique_rebuild_from_arena();
        self.cache.clear();
        let mut kept: Vec<Ref> = Vec::new();
        let mut k: usize = 0;
        while k < roots.len()
            invariant
                closed(s),
                roots_in(s, roots@),
                k <= roots@.len(),
                order@ == visit_roots(s, base_len, roots@),
                forall|o: u64| remap@.dom().contains(o) <==> order@.contains(o),
                kept@ == roots@.take(k as int).map_values(
                    |r: Ref| moved(remap@, base_len, r),
                ),
            decreases roots@.len() - k,
        {
            proof {
                lemma_root_listed(s, base_len, roots@, k as int);
            }
            kept.push(translate(&remap, roots[k], base_len));
            k += 1;
            assert(kept@ =~= roots@.take(k as int).map_values(|r: Ref| moved(remap@, base_len, r)));
        }
        proof {
            assert(roots@.take(k as int) =~= roots@);
            assert(0 < old(self).cache@.len() <= u64::MAX) by {
                reveal(memo_ok);
            }
            lemma_vacant_ok(self.cache@, self.buf@);
        }
        kept
    }

    /// Appends `bytes` to the arena, and takes their nodes into the unique
    /// tables.
    pub(crate) fn extend_arena(&mut self, bytes: &[u8])
        requires
            old(self).wf(),
            arena_ok(old(self).arena() + bytes@),
        ensures
            final(self).arena() == old(self).arena() + bytes@,
            final(self).memo() == old(self).memo(),
            final(self).counters() == old(self).counters(),
            final(self).vars() == old(self).vars(),
            final(self).tables_fitted(old(self)),
            final(self).wf(),
            final(self).keeps(old(self)),
    {
        self.buf.extend_from_slice(bytes);
        proof {
            assert(self.buf@ =~= old(self).buf@ + bytes@);
            assert(self.buf@.len() == self.buf.len());
            assert(self.buf@.take(old(self).buf@.len() as int) =~= old(self).buf@);
            lemma_memo_extends(self.cache@, old(self).buf@, self.buf@);
        }
        self.unique_rebuild_from_arena();
        proof {
            self.lemma_keeps(old(self));
        }
    }

    /// A copy of the arena from `from` on.
    pub(crate) fn tail_copy(&self, from: usize) -> (tail: Vec<u8>)
        requires
            from <= self.arena().len(),
        ensures
            tail@ == self.arena().skip(from as int),
    {
        let mut tail: Vec<u8> = Vec::new();
        tail.extend_from_slice(self.arena_slice(from));
        assert(tail@ =~= self.buf@.skip(from as int));
        tail
    }

    /// Drops everything but what `keep` reaches, and returns where its
    /// references stand now: a full collection.
    pub fn drop_roots(&mut self, keep: &[Ref]) -> (kept: Vec<Ref>)
        requires
            old(self).wf(),
            roots_in(old(self).nodes(), keep@),
        ensures
            (final(self).arena(), kept@) == collected(old(self).arena(), 0, keep@),
            final(self).memo() == if old(self).arena().len() == 0 {
                old(self).memo()
            } else {
                vacant(old(self).memo().len())
            },
            final(self).counters() == old(self).counters(),
            final(self).vars() == old(self).vars(),
            if old(self).arena().len() == 0 {
                final(self).unique_caps() == old(self).unique_caps()
            } else {
                final(self).tables_fitted(old(self))
            },
            final(self).wf(),
            kept@.len() == keep@.len(),
            forall|i: int|
                0 <= i < keep@.len() ==> final(self).has(#[trigger] kept@[i]) && final(self).tree(
                    kept@[i],
                ) == old(self).tree(keep@[i]),
            forall|i: int|
                0 <= i < keep@.len() && old(self).ready(keep@[i]) ==> final(self).ready(
                    #[trigger] kept@[i],
                ),
            clean(final(self).nodes(), 0, kept@),
            starts(final(self).arena()).len() == visit_roots(old(self).nodes(), 0, keep@).len(),
    {
        proof {
            lemma_boundary_zero(self.buf@);
            assert(self.buf@.take(0) =~= seq![]);
            lemma_empty_arena();
        }
        self.gc(0, keep)
    }
}

/// A vacant cache holds true results, whatever the arena.
proof fn lemma_vacant_ok(memo: Seq<Option<Entry>>, buf: Seq<u8>)
    requires
        0 < memo.len() <= u64::MAX,
        memo == vacant(memo.len()),
    ensures
        memo_ok(memo, buf),
{
    reveal(memo_ok);
}

/// Where `r` stands in the new layout of a collection.
fn translate(remap: &HashMap<u64, Ref>, r: Ref, base_len: u64) -> (t: Ref)
    requires
        r matches Ref::Node(o) ==> o < base_len || remap@.dom().contains(o),
    ensures
        t == moved(remap@, base_len, r),
{
    broadcast use vstd::std_specs::hash::group_hash_axioms;

    match r {
        Ref::Terminal(_) => r,
        Ref::Node(off) => {
            if off < base_len {
                r
            } else {
                *remap.get(&off).unwrap()
            }
        },
    }
}

/// Whether `set` is the set of the nodes with variable `v` among `offs`.
spec fn table_holds(s: Map<u64, Node>, offs: Seq<u64>, v: int, set: Set<u64>) -> bool {
    &&& set.finite()
    &&& set.len() == count_var(s, offs, v)
    &&& forall|o: u64| #[trigger] set.contains(o) <==> offs.contains(o) && s[o].var == v
}

/// The set of a variable after one more node.
proof fn lemma_table_push(s: Map<u64, Node>, offs: Seq<u64>, o: u64, v: int, set: Set<u64>)
    requires
        table_holds(s, offs, v, set),
        !offs.contains(o),
    ensures
        s[o].var == v ==> table_holds(s, offs.push(o), v, set.insert(o)),
        s[o].var != v ==> table_holds(s, offs.push(o), v, set),
{
    lemma_count_push(s, offs, o, v);
    assert forall|p: u64| offs.push(o).contains(p) <==> offs.contains(p) || p == o by {
        if p == o {
            assert(offs.push(o)[offs.len() as int] == o);
        } else if offs.contains(p) {
            let i = choose|i: int| 0 <= i < offs.len() && offs[i] == p;
            assert(offs.push(o)[i] == p);
        } else if offs.push(o).contains(p) {
            let i = choose|i: int| 0 <= i < offs.push(o).len() && offs.push(o)[i] == p;
            assert(offs[i] == p);
        }
    }
}

/// No node counts for a variable beyond all of theirs.
proof fn lemma_count_none(s: Map<u64, Node>, offs: Seq<u64>, n: int, v: int)
    requires
        forall|i: int| 0 <= i < offs.len() ==> s[#[trigger] offs[i]].var < n,
        v >= n,
    ensures
        count_var(s, offs, v) == 0,
    decreases offs.len(),
{
    if offs.len() > 0 {
        let head = offs.drop_last();
        assert forall|i: int| 0 <= i < head.len() implies s[#[trigger] head[i]].var < n by {
            assert(head[i] == offs[i]);
        }
        lemma_count_none(s, head, n, v);
        assert(s[offs[offs.len() - 1]].var < n);
    }
}

impl Default for Manager {
    fn default() -> (m: Self)
        ensures
            m.wf(),
            m.arena() == Seq::<u8>::empty(),
            m.vars() == 0,
            m.memo() == vacant(DEFAULT_ITE_CACHE_SLOTS as nat),
            m.counters() == zeroed(false),
            m.unique_caps() == Seq::<nat>::empty(),
    {
        Manager::with_config(ManagerConfig::new())
    }
}

/// A breakdown of the memory in use.
#[derive(Debug, Clone, Copy)]
pub struct MemStats {
    pub arena_bytes: usize,
    pub unique_bytes: usize,
    pub cache_bytes: usize,
    pub unique_entries: usize,
    pub cache_entries: usize,
}

impl MemStats {
    /// The memory of the arena and the unique tables.
    pub fn total_live(&self) -> (n: usize)
        requires
            self.arena_bytes + self.unique_bytes <= usize::MAX,
        ensures
            n == self.arena_bytes + self.unique_bytes,
    {
        self.arena_bytes + self.unique_bytes
    }

    /// The same with the cache.
    pub fn total_with_cache(&self) -> (n: usize)
        requires
            self.arena_bytes + self.unique_bytes + self.cache_bytes <= usize::MAX,
        ensures
            n == self.arena_bytes + self.unique_bytes + self.cache_bytes,
    {
        self.total_live() + self.cache_bytes
    }
}

/// The larger of two numbers.
pub open spec fn larger(a: nat, b: nat) -> nat {
    if a >= b {
        a
    } else {
        b
    }
}

/// The number of unique tables after they have been built anew: one for each
/// declared variable and each variable in the arena, at least one, and no fewer
/// than before.
pub open spec fn table_count(before: nat, vars: u32, buf: Seq<u8>) -> nat {
    larger(larger(before, 1), larger(vars as nat, var_count(buf)))
}

/// There is a table for every variable that is declared or used, at least one, and no
/// fewer than before.
pub proof fn law_table_count(before: nat, vars: u32, buf: Seq<u8>)
    ensures
        ({
            let n = table_count(before, vars, buf);
            &&& n >= before && n >= 1 && n >= vars && n >= var_count(buf)
            &&& n == before || n == 1 || n == vars || n == var_count(buf)
        }),
{
}

/// The operands whose if-then-else is the negation of `f`.
pub open spec fn not_triple(f: Ref) -> Triple {
    Triple { f, g: Ref::Terminal(false), h: Ref::Terminal(true) }
}

/// The operands whose if-then-else is the conjunction of `f` and `g`.
pub open spec fn and_triple(f: Ref, g: Ref) -> Triple {
    Triple { f, g, h: Ref::Terminal(false) }
}

/// The operands whose if-then-else is the disjunction of `f` and `g`.
pub open spec fn or_triple(f: Ref, g: Ref) -> Triple {
    Triple { f, g: Ref::Terminal(true), h: g }
}

/// Choosing between `g` and its negation is exclusive disjunction.
proof fn lemma_xor_sound(
    before: &Manager,
    mid: &Manager,
    after: &Manager,
    f: Ref,
    g: Ref,
    ng: Ref,
    r: Ref,
)
    requires
        mid.keeps(before),
        before.has(g),
        mid.has(ng),
        forall|env: Env| #[trigger] eval(mid.tree(ng), env) == !eval(before.tree(g), env),
        mid.has(f) && mid.has(ng) && mid.has(g) ==> after.has(r) && forall|env: Env| #[trigger]
            eval(after.tree(r), env) == ite_bool(
                eval(mid.tree(f), env),
                eval(mid.tree(ng), env),
                eval(mid.tree(g), env),
            ),
    ensures
        before.has(f) ==> after.has(r) && forall|env: Env| #[trigger]
            eval(after.tree(r), env) == (eval(before.tree(f), env) != eval(before.tree(g), env)),
{
    if before.has(f) {
        assert(mid.has(f) && mid.has(g));
        assert forall|env: Env| #[trigger] eval(after.tree(r), env) == (eval(before.tree(f), env)
            != eval(before.tree(g), env)) by {
            assert(eval(mid.tree(ng), env) == !eval(before.tree(g), env));
        }
    }
}

/// Exclusive disjunction on an arena: choose between `g` and its negation.
pub open spec fn xor_on(buf: Seq<u8>, f: Ref, g: Ref) -> (Seq<u8>, Ref) {
    let (mid, ng) = ite_on(buf, not_triple(g));
    ite_on(mid, Triple { f, g: ng, h: g })
}

/// Turns the counters of the apply cache on or off; they are off at first.
pub fn apply_cache_stats_enable(m: &mut Manager, on: bool)
    requires
        old(m).wf(),
    ensures
        final(m).counters() == (ApplyStats { enabled: on, ..old(m).counters() }),
        final(m).arena() == old(m).arena(),
        final(m).memo() == old(m).memo(),
        final(m).vars() == old(m).vars(),
        final(m).unique_caps() == old(m).unique_caps(),
        final(m).wf(),
{
    m.stats.enabled = on;
}

/// The outcomes of cache probes since the last reset: hits, entries of other
/// triples, and empty slots.
pub fn apply_cache_stats(m: &Manager) -> (r: (u64, u64, u64))
    ensures
        r == (m.counters().hits, m.counters().coll, m.counters().empty),
{
    (m.stats.hits, m.stats.coll, m.stats.empty)
}

/// The shapes of the triples looked for since the last reset: conjunctions,
/// disjunctions, negations, and others.
pub fn apply_cache_patterns(m: &Manager) -> (r: (u64, u64, u64, u64))
    ensures
        r == (
            m.counters().pat_and,
            m.counters().pat_or,
            m.counters().pat_not,
            m.counters().pat_other,
        ),
{
    (m.stats.pat_and, m.stats.pat_or, m.stats.pat_not, m.stats.pat_other)
}

/// Sets the counters of the apply cache to zero.
pub fn apply_cache_stats_reset(m: &mut Manager)
    requires
        old(m).wf(),
    ensures
        final(m).counters() == zeroed(old(m).counters().enabled),
        final(m).arena() == old(m).arena(),
        final(m).memo() == old(m).memo(),
        final(m).vars() == old(m).vars(),
        final(m).unique_caps() == old(m).unique_caps(),
        final(m).wf(),
{
    let enabled: bool = m.stats.enabled;
    m.stats = ApplyStats::new();
    m.stats.enabled = enabled;
}

/// Whether `frame` builds nodes of declared variables only.
spec fn frame_ready(buf: Seq<u8>, vars: u32, frame: Frame) -> bool {
    match frame {
        Frame::Enter { f, g, h } => triple_in(nodes(buf), Triple { f, g, h }) && expandable(
            buf,
            vars as int,
            Triple { f, g, h },
        ),
        Frame::Combine { f, g, h, tv } => tv < vars,
    }
}

/// The frames of an expansion build nodes of declared variables only.
proof fn lemma_expanded_ready(buf: Seq<u8>, vars: u32, rest: Seq<Frame>, t: Triple)
    requires
        arena_ok(buf),
        triple_in(nodes(buf), t),
        trivial(t) is None,
        expandable(buf, vars as int, t),
        forall|i: int| 0 <= i < rest.len() ==> frame_ready(buf, vars, #[trigger] rest[i]),
    ensures
        ({
            let s = nodes(buf);
            let stack = expanded(
                rest,
                t,
                top(s, t) as u32,
                branch(s, t, false),
                branch(s, t, true),
            );
            forall|i: int| 0 <= i < stack.len() ==> frame_ready(buf, vars, #[trigger] stack[i])
        }),
        rank3(branch(nodes(buf), t, false)) < rank3(t),
        rank3(branch(nodes(buf), t, true)) < rank3(t),
{
    lemma_branch(buf, t, false);
    lemma_branch(buf, t, true);
}

/// The references of an arena can be packed.
proof fn lemma_packable(buf: Seq<u8>, t: Triple)
    requires
        buf.len() <= u64::MAX,
        triple_in(nodes(buf), t),
    ensures
        packable(t),
{
    if t.f is Node {
        lemma_node_at(buf, t.f->Node_0);
    }
    if t.g is Node {
        lemma_node_at(buf, t.g->Node_0);
    }
    if t.h is Node {
        lemma_node_at(buf, t.h->Node_0);
    }
}

/// The lesser of two optional variables, where a missing one is below all.
fn min_var(a: Option<u32>, b: Option<u32>) -> (m: Option<u32>)
    ensures
        m == match (a, b) {
            (Some(x), Some(y)) => Some(
                if x <= y {
                    x
                } else {
                    y
                },
            ),
            (Some(x), None) => Some(x),
            (None, _) => b,
        },
{
    match (a, b) {
        (Some(x), Some(y)) => Some(
            if x <= y {
                x
            } else {
                y
            },
        ),
        (Some(x), None) => Some(x),
        (None, _) => b,
    }
}

} // verus!
