//! If-then-else on an arena, as a function from arenas to arenas.
//!
//! [`intern`] is hash consing: it gives the node with the wanted fields, and adds
//! it where the arena has none. [`ite_on`] is Shannon expansion over it. Neither
//! knows of a cache or of a table, so what they give depends on the arena alone.

use crate::arena::{
    arena_ok, closed, extends, lemma_append, lemma_extends, lemma_extends_trans, lemma_insert_node,
    lemma_node_at, lemma_tree_ordered, lemma_tree_submap, nodes, parses, rank, ref_in, ref_level,
    tree, unique,
};
use crate::codec::{lemma_node_min_len, node_bytes, Node, Ref};
use crate::diagram::{eval, vars_below, Env};
use vstd::prelude::*;

verus! {

// ---------------------------------------------------------------------------
// Hash consing
// ---------------------------------------------------------------------------

/// The offset of node `n` in `s`.
pub open spec fn find(s: Map<u64, Node>, n: Node) -> Option<u64> {
    if exists|o: u64| s.dom().contains(o) && s[o] == n {
        Some(choose|o: u64| s.dom().contains(o) && s[o] == n)
    } else {
        None
    }
}

/// The arena and the reference after asking for the node `(var, lo, hi)`: no
/// node where both children are the same, the node that is there, or a new one
/// at the end.
#[verifier::opaque]
pub open spec fn intern(buf: Seq<u8>, var: u32, lo: Ref, hi: Ref) -> (Seq<u8>, Ref) {
    let n = Node { var, lo, hi };
    if lo == hi {
        (buf, lo)
    } else {
        match find(nodes(buf), n) {
            Some(o) => (buf, Ref::Node(o)),
            None => (buf + node_bytes(n, buf.len() as u64), Ref::Node(buf.len() as u64)),
        }
    }
}

/// In a store without equal nodes, a node is found at its only offset.
pub proof fn lemma_find(s: Map<u64, Node>, o: u64)
    requires
        unique(s),
        s.dom().contains(o),
    ensures
        find(s, s[o]) == Some(o),
{
    reveal(unique);
    assert(s.dom().contains(o) && s[o] == s[o]);
}

/// Interning never shrinks the arena.
pub proof fn lemma_intern_grows(buf: Seq<u8>, var: u32, lo: Ref, hi: Ref)
    ensures
        extends(buf, intern(buf, var, lo, hi).0),
{
    reveal(intern);
    let out = intern(buf, var, lo, hi).0;
    assert(out.take(buf.len() as int) =~= buf);
}

/// Whether `(var, lo, hi)` may be asked for.
pub open spec fn internable(s: Map<u64, Node>, var: u32, lo: Ref, hi: Ref) -> bool {
    &&& var < 256
    &&& ref_in(s, lo)
    &&& ref_in(s, hi)
    &&& ref_level(s, lo) > var
    &&& ref_level(s, hi) > var
}

/// What interning does to a sound arena.
pub proof fn lemma_intern(buf: Seq<u8>, var: u32, lo: Ref, hi: Ref)
    requires
        arena_ok(buf),
        internable(nodes(buf), var, lo, hi),
        intern(buf, var, lo, hi).0.len() <= u64::MAX,
    ensures
        ({
            let (out, r) = intern(buf, var, lo, hi);
            &&& arena_ok(out)
            &&& extends(buf, out)
            &&& nodes(buf).submap_of(nodes(out))
            &&& ref_in(nodes(out), r)
            &&& ref_level(nodes(out), r) >= var
            &&& lo != hi ==> (r matches Ref::Node(o) && nodes(out).dom().contains(o) && nodes(
                out,
            )[o] == Node { var, lo, hi })
            &&& forall|env: Env| #[trigger]
                eval(tree(nodes(out), r), env) == if env(var) {
                    eval(tree(nodes(buf), hi), env)
                } else {
                    eval(tree(nodes(buf), lo), env)
                }
            &&& forall|n: int|
                var < n && vars_below(tree(nodes(buf), lo), n) && vars_below(
                    tree(nodes(buf), hi),
                    n,
                ) ==> #[trigger] vars_below(tree(nodes(out), r), n)
        }),
{
    reveal(closed);
    reveal(intern);
    let (out, r) = intern(buf, var, lo, hi);
    let s = nodes(buf);
    let n = Node { var, lo, hi };
    lemma_intern_grows(buf, var, lo, hi);
    if lo != hi {
        match find(s, n) {
            Some(o) => {
                assert(s.dom().contains(o) && s[o] == n);
            },
            None => {
                let off = buf.len() as u64;
                lemma_node_min_len(n, off);
                assert forall|k: u64| #[trigger] s.dom().contains(k) implies k < off && s[k]
                    != n by {
                    lemma_node_at(buf, k);
                }
                lemma_append(buf, n);
                lemma_insert_node(s, off, n);
                lemma_tree_submap(s, nodes(out), lo);
                lemma_tree_submap(s, nodes(out), hi);
            },
        }
    }
}

/// Asking again, in the arena that came out or in any later one, gives the same
/// reference and adds nothing.
pub proof fn law_intern_again(buf: Seq<u8>, var: u32, lo: Ref, hi: Ref, later: Seq<u8>)
    requires
        arena_ok(buf),
        internable(nodes(buf), var, lo, hi),
        intern(buf, var, lo, hi).0.len() <= u64::MAX,
        arena_ok(later),
        extends(intern(buf, var, lo, hi).0, later),
    ensures
        intern(later, var, lo, hi) == (later, intern(buf, var, lo, hi).1),
{
    reveal(intern);
    let (out, r) = intern(buf, var, lo, hi);
    let n = Node { var, lo, hi };
    lemma_intern(buf, var, lo, hi);
    lemma_extends(out, later);
    if lo != hi {
        let o = r->Node_0;
        assert(nodes(out).dom().contains(o) && nodes(out)[o] == n);
        assert(nodes(later).dom().contains(o));
        lemma_find(nodes(later), o);
    }
}

// ---------------------------------------------------------------------------
// If-then-else
// ---------------------------------------------------------------------------

/// The operands of an if-then-else.
pub struct Triple {
    pub f: Ref,
    pub g: Ref,
    pub h: Ref,
}

/// The result where it needs no expansion.
pub open spec fn trivial(t: Triple) -> Option<Ref> {
    match t.f {
        Ref::Terminal(b) => Some(
            if b {
                t.g
            } else {
                t.h
            },
        ),
        Ref::Node(_) => if t.g == t.h {
            Some(t.g)
        } else if t.g == Ref::Terminal(true) && t.h == Ref::Terminal(false) {
            Some(t.f)
        } else {
            None
        },
    }
}

pub open spec fn least(a: int, b: int) -> int {
    if a <= b {
        a
    } else {
        b
    }
}

/// The variable to expand on: the topmost of the three.
pub open spec fn top(s: Map<u64, Node>, t: Triple) -> int {
    least(ref_level(s, t.f), least(ref_level(s, t.g), ref_level(s, t.h)))
}

/// `r` with variable `v`, which is at or above its top, set to `val`.
pub open spec fn cofactor_of(s: Map<u64, Node>, r: Ref, v: int, val: bool) -> Ref {
    match r {
        Ref::Terminal(_) => r,
        Ref::Node(o) => if s[o].var == v {
            if val {
                s[o].hi
            } else {
                s[o].lo
            }
        } else {
            r
        },
    }
}

/// The operands with the top variable set to `val`.
pub open spec fn branch(s: Map<u64, Node>, t: Triple, val: bool) -> Triple {
    let v = top(s, t);
    Triple {
        f: cofactor_of(s, t.f, v, val),
        g: cofactor_of(s, t.g, v, val),
        h: cofactor_of(s, t.h, v, val),
    }
}

pub open spec fn rank3(t: Triple) -> nat {
    rank(t.f) + rank(t.g) + rank(t.h)
}

pub open spec fn triple_in(s: Map<u64, Node>, t: Triple) -> bool {
    ref_in(s, t.f) && ref_in(s, t.g) && ref_in(s, t.h)
}

/// The arena and the reference after if-then-else on `t`: the low branch, the
/// high branch on the arena that the low one left, then the node over both.
/// (The last case is never reached on a closed arena.)
pub open spec fn ite_on(buf: Seq<u8>, t: Triple) -> (Seq<u8>, Ref)
    decreases rank3(t),
{
    let s = nodes(buf);
    match trivial(t) {
        Some(r) => (buf, r),
        None => if rank3(branch(s, t, false)) < rank3(t) && rank3(branch(s, t, true)) < rank3(t) {
            let (b1, lo) = ite_on(buf, branch(s, t, false));
            let (b2, hi) = ite_on(b1, branch(s, t, true));
            intern(b2, top(s, t) as u32, lo, hi)
        } else {
            (buf, Ref::Terminal(false))
        },
    }
}

/// Whether the expansion of `t` builds nodes of the first `vars` variables only.
pub open spec fn expandable(buf: Seq<u8>, vars: int, t: Triple) -> bool
    decreases rank3(t),
{
    let s = nodes(buf);
    let t0 = branch(s, t, false);
    let t1 = branch(s, t, true);
    trivial(t) is Some || (rank3(t0) < rank3(t) && rank3(t1) < rank3(t) && top(s, t) < vars
        && expandable(buf, vars, t0) && expandable(buf, vars, t1))
}

/// If-then-else of three truth values.
pub open spec fn ite_bool(f: bool, g: bool, h: bool) -> bool {
    if f {
        g
    } else {
        h
    }
}

/// The cofactor of a reference at or below `v`: a reference below `v` whose
/// function is that of `r` with `v` fixed.
pub proof fn lemma_cofactor(s: Map<u64, Node>, r: Ref, v: int, val: bool)
    requires
        closed(s),
        ref_in(s, r),
        v <= ref_level(s, r),
        0 <= v <= u32::MAX,
    ensures
        ref_in(s, cofactor_of(s, r, v, val)),
        ref_level(s, cofactor_of(s, r, v, val)) > v,
        rank(cofactor_of(s, r, v, val)) <= rank(r),
        ref_level(s, r) == v ==> rank(cofactor_of(s, r, v, val)) < rank(r),
        forall|env: Env|
            env(v as u32) == val ==> #[trigger] eval(tree(s, r), env) == eval(
                tree(s, cofactor_of(s, r, v, val)),
                env,
            ),
        forall|n: int|
            vars_below(tree(s, r), n) ==> #[trigger] vars_below(
                tree(s, cofactor_of(s, r, v, val)),
                n,
            ),
{
    reveal(closed);
    if let Ref::Node(o) = r {
        assert(s.dom().contains(o));
    }
}

/// Expanding: the operands' cofactors are references of the arena, below the
/// variable expanded on, and of smaller rank.
pub proof fn lemma_branch(buf: Seq<u8>, t: Triple, val: bool)
    requires
        parses(buf),
        closed(nodes(buf)),
        triple_in(nodes(buf), t),
        trivial(t) is None,
    ensures
        triple_in(nodes(buf), branch(nodes(buf), t, val)),
        rank3(branch(nodes(buf), t, val)) < rank3(t),
        0 <= top(nodes(buf), t) < 256,
        top(nodes(buf), branch(nodes(buf), t, val)) > top(nodes(buf), t),
{
    let s = nodes(buf);
    let v = top(s, t);
    lemma_node_at(buf, t.f->Node_0);
    if let Ref::Node(o) = t.g {
        lemma_node_at(buf, o);
    }
    if let Ref::Node(o) = t.h {
        lemma_node_at(buf, o);
    }
    lemma_cofactor(s, t.f, v, val);
    lemma_cofactor(s, t.g, v, val);
    lemma_cofactor(s, t.h, v, val);
}

/// Operands over the first `vars` variables expand to nodes over them.
pub proof fn lemma_expandable(buf: Seq<u8>, vars: int, t: Triple)
    requires
        parses(buf),
        closed(nodes(buf)),
        triple_in(nodes(buf), t),
        vars_below(tree(nodes(buf), t.f), vars),
        vars_below(tree(nodes(buf), t.g), vars),
        vars_below(tree(nodes(buf), t.h), vars),
    ensures
        expandable(buf, vars, t),
    decreases rank3(t),
{
    if trivial(t) is None {
        let s = nodes(buf);
        let v = top(s, t);
        lemma_branch(buf, t, false);
        lemma_branch(buf, t, true);
        lemma_cofactor(s, t.f, v, false);
        lemma_cofactor(s, t.g, v, false);
        lemma_cofactor(s, t.h, v, false);
        lemma_cofactor(s, t.f, v, true);
        lemma_cofactor(s, t.g, v, true);
        lemma_cofactor(s, t.h, v, true);
        lemma_tree_ordered(s, t.f);
        lemma_expandable(buf, vars, branch(s, t, false));
        lemma_expandable(buf, vars, branch(s, t, true));
    }
}

/// If-then-else never shrinks the arena.
pub proof fn lemma_ite_grows(buf: Seq<u8>, t: Triple)
    ensures
        extends(buf, ite_on(buf, t).0),
    decreases rank3(t),
{
    let s = nodes(buf);
    let t0 = branch(s, t, false);
    let t1 = branch(s, t, true);
    assert(buf.take(buf.len() as int) =~= buf);
    if trivial(t) is None && rank3(t0) < rank3(t) && rank3(t1) < rank3(t) {
        let (b1, lo) = ite_on(buf, t0);
        let (b2, hi) = ite_on(b1, t1);
        lemma_ite_grows(buf, t0);
        lemma_ite_grows(b1, t1);
        lemma_intern_grows(b2, top(s, t) as u32, lo, hi);
        lemma_extends_trans(buf, b1, b2);
        lemma_extends_trans(buf, b2, ite_on(buf, t).0);
    }
}

/// What if-then-else does to a sound arena.
pub open spec fn ite_sound(buf: Seq<u8>, t: Triple, out: Seq<u8>, r: Ref) -> bool {
    let s = nodes(buf);
    let s2 = nodes(out);
    &&& arena_ok(out)
    &&& extends(buf, out)
    &&& s.submap_of(s2)
    &&& ref_in(s2, r)
    &&& ref_level(s2, r) >= top(s, t)
    &&& ite_means(s, t, s2, r)
}

/// Whether `r` stands for the if-then-else of `t`, over no further variables.
#[verifier::opaque]
pub open spec fn ite_means(s: Map<u64, Node>, t: Triple, s2: Map<u64, Node>, r: Ref) -> bool {
    &&& forall|env: Env| #[trigger]
        eval(tree(s2, r), env) == ite_bool(
            eval(tree(s, t.f), env),
            eval(tree(s, t.g), env),
            eval(tree(s, t.h), env),
        )
    &&& forall|n: int|
        vars_below(tree(s, t.f), n) && vars_below(tree(s, t.g), n) && vars_below(tree(s, t.h), n)
            ==> #[trigger] vars_below(tree(s2, r), n)
}

/// If-then-else on a sound arena gives a sound arena with the old one in front,
/// and a reference to the function wanted.
pub proof fn lemma_ite(buf: Seq<u8>, t: Triple)
    requires
        arena_ok(buf),
        triple_in(nodes(buf), t),
        ite_on(buf, t).0.len() <= u64::MAX,
    ensures
        ite_sound(buf, t, ite_on(buf, t).0, ite_on(buf, t).1),
    decreases rank3(t),
{
    reveal(ite_means);
    let s = nodes(buf);
    let (out, r) = ite_on(buf, t);
    assert(buf.take(buf.len() as int) =~= buf);
    if trivial(t) is None {
        let v = top(s, t);
        let t0 = branch(s, t, false);
        let t1 = branch(s, t, true);
        lemma_branch(buf, t, false);
        lemma_branch(buf, t, true);
        let (b1, lo) = ite_on(buf, t0);
        let (b2, hi) = ite_on(b1, t1);
        lemma_ite_grows(b1, t1);
        lemma_intern_grows(b2, v as u32, lo, hi);
        lemma_ite(buf, t0);
        let s1 = nodes(b1);
        lemma_same_trees(s, s1, t1);
        lemma_ite(b1, t1);
        let s2 = nodes(b2);
        lemma_tree_submap(s1, s2, lo);
        lemma_intern(b2, v as u32, lo, hi);
        lemma_extends_trans(buf, b1, b2);
        lemma_extends_trans(buf, b2, out);
        assert(s.submap_of(nodes(out))) by {
            lemma_extends(buf, out);
        }
        assert forall|env: Env| #[trigger] eval(tree(nodes(out), r), env) == ite_bool(
            eval(tree(s, t.f), env),
            eval(tree(s, t.g), env),
            eval(tree(s, t.h), env),
        ) by {
            lemma_cofactor(s, t.f, v, env(v as u32));
            lemma_cofactor(s, t.g, v, env(v as u32));
            lemma_cofactor(s, t.h, v, env(v as u32));
            assert(eval(tree(s1, lo), env) == ite_bool(
                eval(tree(s, t0.f), env),
                eval(tree(s, t0.g), env),
                eval(tree(s, t0.h), env),
            ));
            assert(eval(tree(s2, hi), env) == ite_bool(
                eval(tree(s, t1.f), env),
                eval(tree(s, t1.g), env),
                eval(tree(s, t1.h), env),
            ));
        }
        assert forall|n: int|
            vars_below(tree(s, t.f), n) && vars_below(tree(s, t.g), n) && vars_below(
                tree(s, t.h),
                n,
            ) implies #[trigger] vars_below(tree(nodes(out), r), n) by {
            lemma_cofactor(s, t.f, v, false);
            lemma_cofactor(s, t.g, v, false);
            lemma_cofactor(s, t.h, v, false);
            lemma_cofactor(s, t.f, v, true);
            lemma_cofactor(s, t.g, v, true);
            lemma_cofactor(s, t.h, v, true);
            assert(vars_below(tree(s1, lo), n));
            assert(vars_below(tree(s2, hi), n));
            assert(v < n);
        }
    }
}

/// The operands mean the same in a larger store.
pub proof fn lemma_same_trees(s: Map<u64, Node>, s2: Map<u64, Node>, t: Triple)
    requires
        closed(s),
        s.submap_of(s2),
        triple_in(s, t),
    ensures
        triple_in(s2, t),
        top(s2, t) == top(s, t),
        tree(s2, t.f) == tree(s, t.f),
        tree(s2, t.g) == tree(s, t.g),
        tree(s2, t.h) == tree(s, t.h),
        branch(s2, t, false) == branch(s, t, false),
        branch(s2, t, true) == branch(s, t, true),
{
    lemma_tree_submap(s, s2, t.f);
    lemma_tree_submap(s, s2, t.g);
    lemma_tree_submap(s, s2, t.h);
}

/// The two branches of an expansion: each is sound on the arena it starts from,
/// and the node over their results may be asked for.
pub proof fn lemma_ite_parts(buf: Seq<u8>, t: Triple)
    requires
        arena_ok(buf),
        triple_in(nodes(buf), t),
        trivial(t) is None,
        ite_on(buf, t).0.len() <= u64::MAX,
    ensures
        ({
            let s = nodes(buf);
            let t0 = branch(s, t, false);
            let t1 = branch(s, t, true);
            let v = top(s, t) as u32;
            let (b1, lo) = ite_on(buf, t0);
            let (b2, hi) = ite_on(b1, t1);
            &&& ite_on(buf, t) == intern(b2, v, lo, hi)
            &&& rank3(t0) < rank3(t)
            &&& rank3(t1) < rank3(t)
            &&& triple_in(s, t0)
            &&& triple_in(nodes(b1), t1)
            &&& arena_ok(b1)
            &&& arena_ok(b2)
            &&& arena_ok(ite_on(buf, t).0)
            &&& extends(buf, b1)
            &&& extends(b1, b2)
            &&& extends(b2, ite_on(buf, t).0)
            &&& internable(nodes(b2), v, lo, hi)
        }),
{
    let s = nodes(buf);
    let t0 = branch(s, t, false);
    let t1 = branch(s, t, true);
    let v = top(s, t) as u32;
    let (b1, lo) = ite_on(buf, t0);
    let (b2, hi) = ite_on(b1, t1);
    lemma_branch(buf, t, false);
    lemma_branch(buf, t, true);
    lemma_ite(buf, t);
    lemma_ite_grows(b1, t1);
    lemma_intern_grows(b2, v, lo, hi);
    lemma_ite(buf, t0);
    lemma_same_trees(s, nodes(b1), t1);
    lemma_ite(b1, t1);
    lemma_tree_submap(nodes(b1), nodes(b2), lo);
}

/// Asking for the same if-then-else again, in the arena that came out or in any
/// later one, gives the same reference and adds nothing.
pub proof fn law_ite_again(buf: Seq<u8>, t: Triple, later: Seq<u8>)
    requires
        arena_ok(buf),
        triple_in(nodes(buf), t),
        arena_ok(later),
        extends(ite_on(buf, t).0, later),
    ensures
        ite_on(later, t) == (later, ite_on(buf, t).1),
    decreases rank3(t),
{
    let s = nodes(buf);
    let out = ite_on(buf, t).0;
    if trivial(t) is None {
        let v = top(s, t) as u32;
        let t0 = branch(s, t, false);
        let t1 = branch(s, t, true);
        let (b1, lo) = ite_on(buf, t0);
        let (b2, hi) = ite_on(b1, t1);
        lemma_ite_parts(buf, t);
        lemma_extends_trans(b2, out, later);
        lemma_extends_trans(b1, b2, later);
        lemma_extends_trans(buf, b1, later);
        law_ite_again(buf, t0, later);
        law_ite_again(b1, t1, later);
        lemma_extends(buf, later);
        lemma_same_trees(s, nodes(later), t);
        law_intern_again(b2, v, lo, hi, later);
    }
}

} // verus!
