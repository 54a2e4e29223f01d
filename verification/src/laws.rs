//! Laws of the engine as a whole: what holds of every arena, and of operations
//! one after the other.
//!
//! The operations are those on arenas that the contracts of
//! [`Manager`](crate::manager::Manager) speak of. Where an arena that comes out
//! is asked to be no longer than `u64::MAX`, that is what its offsets can reach.

use crate::apply::{
    branch, cofactor_of, find, intern, internable, ite_bool, ite_means, ite_on, law_intern_again,
    lemma_branch, lemma_cofactor, lemma_find, lemma_intern, lemma_intern_grows, lemma_ite,
    lemma_ite_parts, lemma_same_trees, rank3, top, triple_in, trivial, Triple,
};
use crate::arena::{
    arena_ok, boundary, closed, extends, law_var_count, lemma_append, lemma_concat, lemma_cut,
    lemma_extends, lemma_extends_trans, lemma_node_at, lemma_starts_from, lemma_tree_injective,
    lemma_tree_ordered, lemma_tree_reduced, lemma_tree_submap, nodes, parses, rank, ref_in,
    ref_level, starts, starts_from, theorem_ref_canonical, tree, unique,
};
use crate::cache::{
    count_event, count_pattern, filled, law_cache_hit, law_cache_vacant, probe, stored, vacant,
    ApplyEvent, ApplyStats,
};
use crate::codec::{lemma_node_min_len, node_bytes, node_fits, ref_below, Node, Ref};
use crate::collect::{
    clean, collected, lemma_reach, lemma_reach_submap, lemma_visit, lemma_visit_roots, reach,
    reached, relaid, roots_in, settled, theorem_collected, theorem_collected_again, visit,
    visit_roots, young,
};
use crate::diagram::{
    assignments, branches, count_sat, doubled, env_with, eval, lemma_complement_assignments,
    lemma_eval_above, lemma_eval_children, lemma_eval_support, lemma_models, lemma_support_level,
    lemma_vars_below_mono, level, models, ordered, reduced, same_function, support,
    theorem_canonical, vars_below, Bdd, Env,
};
use crate::dump::{
    absorbed, body_of, law_dump_roundtrip, loaded, sealed, translated, DumpError, LoadedRoots,
};
use crate::manager::{and_triple, not_triple, or_triple, xor_on, Manager};
use crate::memo::{after_probe, ite_call, ite_memo, lemma_call, state_ok, State};
use crate::slab::{diff_from, extended_by, Diff, Slab};
use crate::wire::wire_of;
use vstd::prelude::*;
use vstd::relations::injective_on;
use vstd::utf8::{
    decode_utf8, encode_utf8, encode_utf8_decode_utf8, encode_utf8_valid_utf8, valid_utf8,
};

verus! {

// ---------------------------------------------------------------------------
// Canonicity
// ---------------------------------------------------------------------------

/// In one manager, references that stand for the same function are equal.
pub proof fn law_same_function_same_ref(m: &Manager, a: Ref, b: Ref)
    requires
        m.wf(),
        m.has(a),
        m.has(b),
        same_function(m.tree(a), m.tree(b)),
    ensures
        a == b,
{
    m.lemma_wf();
    theorem_ref_canonical(m.nodes(), a, b);
}

/// Whether `r` stands for the if-then-else of `t`.
pub open spec fn answers(s: Map<u64, Node>, t: Triple, r: Ref) -> bool {
    forall|env: Env| #[trigger]
        eval(tree(s, r), env) == ite_bool(
            eval(tree(s, t.f), env),
            eval(tree(s, t.g), env),
            eval(tree(s, t.h), env),
        )
}

/// A reference that answers a triple has no variable above those of the triple.
proof fn lemma_answer_level(s: Map<u64, Node>, t: Triple, r: Ref)
    requires
        closed(s),
        unique(s),
        triple_in(s, t),
        ref_in(s, r),
        answers(s, t, r),
        top(s, t) <= u32::MAX,
    ensures
        ref_level(s, r) >= top(s, t),
{
    if ref_level(s, r) < top(s, t) {
        let o = r->Node_0;
        let w = s[o].var;
        let lo = s[o].lo;
        let hi = s[o].hi;
        lemma_tree_ordered(s, t.f);
        lemma_tree_ordered(s, t.g);
        lemma_tree_ordered(s, t.h);
        lemma_tree_ordered(s, r);
        assert(s.dom().contains(o));
        assert(ref_in(s, lo) && ref_in(s, hi) && lo != hi && rank(lo) < rank(r) && rank(hi) < rank(
            r,
        )) by {
            reveal(closed);
            reveal(unique);
        }
        assert(same_function(tree(s, lo), tree(s, hi))) by {
            assert forall|env: Env| #[trigger] eval(tree(s, lo), env) == eval(
                tree(s, hi),
                env,
            ) by {
                let e0 = env_with(env, w, false);
                let e1 = env_with(env, w, true);
                lemma_eval_children(tree(s, r), env);
                assert(eval(tree(s, r), e0) == eval(tree(s, r), e1)) by {
                    lemma_eval_above(tree(s, t.f), env, w, false);
                    lemma_eval_above(tree(s, t.f), env, w, true);
                    lemma_eval_above(tree(s, t.g), env, w, false);
                    lemma_eval_above(tree(s, t.g), env, w, true);
                    lemma_eval_above(tree(s, t.h), env, w, false);
                    lemma_eval_above(tree(s, t.h), env, w, true);
                }
            }
        }
        theorem_ref_canonical(s, lo, hi);
    }
}

/// The cofactors of an answer answer the branches.
proof fn lemma_answer_branch(buf: Seq<u8>, t: Triple, r: Ref, val: bool)
    requires
        arena_ok(buf),
        triple_in(nodes(buf), t),
        trivial(t) is None,
        ref_in(nodes(buf), r),
        ref_level(nodes(buf), r) >= top(nodes(buf), t),
        answers(nodes(buf), t, r),
    ensures
        ({
            let s = nodes(buf);
            let c = cofactor_of(s, r, top(s, t), val);
            ref_in(s, c) && answers(s, branch(s, t, val), c)
        }),
{
    let s = nodes(buf);
    let v = top(s, t);
    let b = branch(s, t, val);
    let c = cofactor_of(s, r, v, val);
    lemma_branch(buf, t, val);
    lemma_cofactor(s, r, v, val);
    lemma_cofactor(s, t.f, v, val);
    lemma_cofactor(s, t.g, v, val);
    lemma_cofactor(s, t.h, v, val);
    lemma_tree_ordered(s, c);
    lemma_tree_ordered(s, b.f);
    lemma_tree_ordered(s, b.g);
    lemma_tree_ordered(s, b.h);
    assert forall|env: Env| #[trigger] eval(tree(s, c), env) == ite_bool(
        eval(tree(s, b.f), env),
        eval(tree(s, b.g), env),
        eval(tree(s, b.h), env),
    ) by {
        let e = env_with(env, v as u32, val);
        lemma_eval_above(tree(s, c), env, v as u32, val);
        lemma_eval_above(tree(s, b.f), env, v as u32, val);
        lemma_eval_above(tree(s, b.g), env, v as u32, val);
        lemma_eval_above(tree(s, b.h), env, v as u32, val);
        assert(eval(tree(s, r), e) == eval(tree(s, c), e));
        assert(eval(tree(s, t.f), e) == eval(tree(s, b.f), e));
        assert(eval(tree(s, t.g), e) == eval(tree(s, b.g), e));
        assert(eval(tree(s, t.h), e) == eval(tree(s, b.h), e));
    }
}

/// Asking for a function that the arena holds already gives the reference that
/// is there, and adds nothing.
pub proof fn law_known_function(buf: Seq<u8>, t: Triple, r: Ref)
    requires
        arena_ok(buf),
        triple_in(nodes(buf), t),
        ref_in(nodes(buf), r),
        answers(nodes(buf), t, r),
    ensures
        ite_on(buf, t) == (buf, r),
    decreases rank3(t),
{
    let s = nodes(buf);
    match trivial(t) {
        Some(q) => {
            assert(same_function(tree(s, q), tree(s, r))) by {
                assert forall|env: Env| #[trigger] eval(tree(s, q), env) == eval(
                    tree(s, r),
                    env,
                ) by {
                    assert(eval(tree(s, r), env) == ite_bool(
                        eval(tree(s, t.f), env),
                        eval(tree(s, t.g), env),
                        eval(tree(s, t.h), env),
                    ));
                }
            }
            theorem_ref_canonical(s, q, r);
        },
        None => {
            let v = top(s, t);
            lemma_branch(buf, t, false);
            lemma_branch(buf, t, true);
            lemma_answer_level(s, t, r);
            lemma_answer_branch(buf, t, r, false);
            lemma_answer_branch(buf, t, r, true);
            let r0 = cofactor_of(s, r, v, false);
            let r1 = cofactor_of(s, r, v, true);
            law_known_function(buf, branch(s, t, false), r0);
            law_known_function(buf, branch(s, t, true), r1);
            assert(intern(buf, v as u32, r0, r1) == (buf, r)) by {
                reveal(intern);
                if ref_level(s, r) == v {
                    let o = r->Node_0;
                    assert(s.dom().contains(o));
                    assert(r0 != r1) by {
                        reveal(unique);
                    }
                    assert(s[o] == Node { var: v as u32, lo: r0, hi: r1 });
                    lemma_find(s, o);
                }
            }
        },
    }
}

/// The nodes that a reference reaches are the branches of its tree.
proof fn lemma_reach_branches(s: Map<u64, Node>, r: Ref, t: Bdd)
    requires
        closed(s),
        ref_in(s, r),
    ensures
        branches(tree(s, r)).contains(t) <==> exists|o: u64| #[trigger]
            reach(s, r).contains(o) && tree(s, Ref::Node(o)) == t,
        reach(s, r).finite(),
    decreases rank(r),
{
    if let Ref::Node(p) = r {
        assert(s.dom().contains(p));
        let lo = s[p].lo;
        let hi = s[p].hi;
        assert(ref_in(s, lo) && ref_in(s, hi) && rank(lo) < rank(r) && rank(hi) < rank(r)) by {
            reveal(closed);
        }
        lemma_reach_branches(s, lo, t);
        lemma_reach_branches(s, hi, t);
        assert(reach(s, r) == reach(s, lo).union(reach(s, hi)).insert(p));
        if branches(tree(s, r)).contains(t) {
            if t == tree(s, r) {
                assert(reach(s, r).contains(p));
            } else if branches(tree(s, lo)).contains(t) {
                let o = choose|o: u64| #[trigger]
                    reach(s, lo).contains(o) && tree(s, Ref::Node(o)) == t;
                assert(reach(s, r).contains(o));
            } else {
                let o = choose|o: u64| #[trigger]
                    reach(s, hi).contains(o) && tree(s, Ref::Node(o)) == t;
                assert(reach(s, r).contains(o));
            }
        }
        if exists|o: u64| #[trigger] reach(s, r).contains(o) && tree(s, Ref::Node(o)) == t {
            let o = choose|o: u64| #[trigger]
                reach(s, r).contains(o) && tree(s, Ref::Node(o)) == t;
            if o != p {
                assert(reach(s, lo).contains(o) || reach(s, hi).contains(o));
            }
        }
    }
}

/// The number of nodes that a reference reaches is that of the different branches
/// of its tree.
pub proof fn law_node_count(s: Map<u64, Node>, r: Ref)
    requires
        closed(s),
        unique(s),
        ref_in(s, r),
    ensures
        reach(s, r).finite(),
        reach(s, r).len() == branches(tree(s, r)).len(),
{
    let f = |o: u64| tree(s, Ref::Node(o));
    lemma_reach_branches(s, r, tree(s, r));
    assert(injective_on(f, reach(s, r))) by {
        assert forall|a: u64, b: u64|
            reach(s, r).contains(a) && reach(s, r).contains(b) && #[trigger] f(a) == #[trigger] f(
                b,
            ) implies a == b by {
            lemma_reach(s, r, a);
            lemma_reach(s, r, b);
            lemma_tree_injective(s, Ref::Node(a), Ref::Node(b));
        }
    }
    assert(reach(s, r).map(f) =~= branches(tree(s, r))) by {
        assert forall|t: Bdd| reach(s, r).map(f).contains(t) <==> branches(tree(s, r)).contains(
            t,
        ) by {
            lemma_reach_branches(s, r, t);
            if branches(tree(s, r)).contains(t) {
                let o = choose|o: u64| #[trigger]
                    reach(s, r).contains(o) && tree(s, Ref::Node(o)) == t;
                assert(reach(s, r).contains(o) && f(o) == t);
            }
        }
    }
    vstd::set_lib::lemma_map_size(reach(s, r), branches(tree(s, r)), f);
}

/// Under one order of the variables, a function has the same diagram, and reaches
/// the same number of nodes, in every arena.
pub proof fn law_node_count_of_function(
    s: Map<u64, Node>,
    a: Ref,
    s2: Map<u64, Node>,
    b: Ref,
)
    requires
        closed(s),
        unique(s),
        closed(s2),
        unique(s2),
        ref_in(s, a),
        ref_in(s2, b),
        same_function(tree(s, a), tree(s2, b)),
    ensures
        tree(s, a) == tree(s2, b),
        reach(s, a).len() == reach(s2, b).len(),
{
    lemma_tree_ordered(s, a);
    lemma_tree_reduced(s, a);
    lemma_tree_ordered(s2, b);
    lemma_tree_reduced(s2, b);
    theorem_canonical(tree(s, a), tree(s2, b));
    law_node_count(s, a);
    law_node_count(s2, b);
}

/// The only node that asking for one can add is the node asked for.
pub proof fn law_intern_adds(buf: Seq<u8>, var: u32, lo: Ref, hi: Ref, o: u64)
    requires
        arena_ok(buf),
        internable(nodes(buf), var, lo, hi),
        intern(buf, var, lo, hi).0.len() <= u64::MAX,
        nodes(intern(buf, var, lo, hi).0).dom().contains(o),
    ensures
        nodes(buf).dom().contains(o) || (intern(buf, var, lo, hi).1 == Ref::Node(o) && nodes(
            intern(buf, var, lo, hi).0,
        )[o] == Node { var, lo, hi }),
{
    reveal(intern);
    let n = Node { var, lo, hi };
    if lo != hi && find(nodes(buf), n) is None {
        lemma_node_min_len(n, buf.len() as u64);
        if let Ref::Node(c) = lo {
            lemma_node_at(buf, c);
        }
        if let Ref::Node(c) = hi {
            lemma_node_at(buf, c);
        }
        lemma_append(buf, n);
    }
}

/// The node over two results reaches what they reach.
proof fn lemma_reach_interned(buf: Seq<u8>, var: u32, lo: Ref, hi: Ref, o: u64)
    requires
        arena_ok(buf),
        internable(nodes(buf), var, lo, hi),
        intern(buf, var, lo, hi).0.len() <= u64::MAX,
        reach(nodes(buf), lo).contains(o) || reach(nodes(buf), hi).contains(o),
    ensures
        reach(nodes(intern(buf, var, lo, hi).0), intern(buf, var, lo, hi).1).contains(o),
{
    let (out, r) = intern(buf, var, lo, hi);
    lemma_intern(buf, var, lo, hi);
    lemma_reach_submap(nodes(buf), nodes(out), lo);
    lemma_reach_submap(nodes(buf), nodes(out), hi);
    if lo == hi {
        reveal(intern);
    } else {
        reveal(closed);
        assert(nodes(out).dom().contains(r->Node_0));
    }
}

/// **If-then-else leaves nothing but its result**: every node that it adds is one
/// that the result reaches.
pub proof fn law_ite_adds(buf: Seq<u8>, t: Triple, o: u64)
    requires
        arena_ok(buf),
        triple_in(nodes(buf), t),
        ite_on(buf, t).0.len() <= u64::MAX,
        nodes(ite_on(buf, t).0).dom().contains(o),
    ensures
        nodes(buf).dom().contains(o) || reach(nodes(ite_on(buf, t).0), ite_on(buf, t).1).contains(
            o,
        ),
    decreases rank3(t),
{
    if trivial(t) is None {
        let s = nodes(buf);
        let v = top(s, t) as u32;
        let t0 = branch(s, t, false);
        let t1 = branch(s, t, true);
        let (b1, lo) = ite_on(buf, t0);
        let (b2, hi) = ite_on(b1, t1);
        let (out, r) = ite_on(buf, t);
        lemma_ite_parts(buf, t);
        law_intern_adds(b2, v, lo, hi, o);
        if nodes(b2).dom().contains(o) {
            law_ite_adds(b1, t1, o);
            if nodes(b1).dom().contains(o) {
                law_ite_adds(buf, t0, o);
                lemma_ite(buf, t0);
                lemma_extends(b1, b2);
                lemma_reach_submap(nodes(b1), nodes(b2), lo);
            }
            if !s.dom().contains(o) {
                lemma_reach_interned(b2, v, lo, hi, o);
            }
        } else {
            assert(r == Ref::Node(o));
            assert(reach(nodes(out), r).contains(o));
        }
    }
}

// ---------------------------------------------------------------------------
// Boolean algebra
// ---------------------------------------------------------------------------

/// What an if-then-else leaves behind: a sound arena that holds the operands and
/// the answer.
proof fn lemma_after(buf: Seq<u8>, t: Triple)
    requires
        arena_ok(buf),
        triple_in(nodes(buf), t),
        ite_on(buf, t).0.len() <= u64::MAX,
    ensures
        ({
            let (out, r) = ite_on(buf, t);
            &&& arena_ok(out)
            &&& nodes(buf).submap_of(nodes(out))
            &&& triple_in(nodes(out), t)
            &&& ref_in(nodes(out), r)
            &&& answers(nodes(out), t, r)
        }),
{
    let (out, r) = ite_on(buf, t);
    lemma_ite(buf, t);
    lemma_same_trees(nodes(buf), nodes(out), t);
    reveal(ite_means);
}

/// Negating twice gives the function back, and the second time adds nothing.
pub proof fn law_double_negation(buf: Seq<u8>, f: Ref)
    requires
        arena_ok(buf),
        ref_in(nodes(buf), f),
        ite_on(buf, not_triple(f)).0.len() <= u64::MAX,
    ensures
        ({
            let (out, nf) = ite_on(buf, not_triple(f));
            ite_on(out, not_triple(nf)) == (out, f)
        }),
{
    let (out, nf) = ite_on(buf, not_triple(f));
    lemma_after(buf, not_triple(f));
    assert forall|env: Env| #[trigger] eval(tree(nodes(out), f), env) == !eval(
        tree(nodes(out), nf),
        env,
    ) by {
        assert(eval(tree(nodes(out), nf), env) == !eval(tree(nodes(out), f), env));
    }
    law_known_function(out, not_triple(nf), f);
}

/// Conjunction commutes, and asking the other way round adds nothing.
pub proof fn law_and_commutes(buf: Seq<u8>, f: Ref, g: Ref)
    requires
        arena_ok(buf),
        ref_in(nodes(buf), f),
        ref_in(nodes(buf), g),
        ite_on(buf, and_triple(f, g)).0.len() <= u64::MAX,
    ensures
        ({
            let (out, r) = ite_on(buf, and_triple(f, g));
            ite_on(out, and_triple(g, f)) == (out, r)
        }),
{
    let (out, r) = ite_on(buf, and_triple(f, g));
    lemma_after(buf, and_triple(f, g));
    law_known_function(out, and_triple(g, f), r);
}

/// Disjunction commutes, and asking the other way round adds nothing.
pub proof fn law_or_commutes(buf: Seq<u8>, f: Ref, g: Ref)
    requires
        arena_ok(buf),
        ref_in(nodes(buf), f),
        ref_in(nodes(buf), g),
        ite_on(buf, or_triple(f, g)).0.len() <= u64::MAX,
    ensures
        ({
            let (out, r) = ite_on(buf, or_triple(f, g));
            ite_on(out, or_triple(g, f)) == (out, r)
        }),
{
    let (out, r) = ite_on(buf, or_triple(f, g));
    lemma_after(buf, or_triple(f, g));
    law_known_function(out, or_triple(g, f), r);
}

/// Conjunction with true, with false, and with itself; none of them adds a node.
pub proof fn law_and_identities(buf: Seq<u8>, f: Ref)
    requires
        arena_ok(buf),
        ref_in(nodes(buf), f),
    ensures
        ite_on(buf, and_triple(f, Ref::Terminal(true))) == (buf, f),
        ite_on(buf, and_triple(f, Ref::Terminal(false))) == (buf, Ref::Terminal(false)),
        ite_on(buf, and_triple(f, f)) == (buf, f),
{
    law_known_function(buf, and_triple(f, Ref::Terminal(true)), f);
    law_known_function(buf, and_triple(f, Ref::Terminal(false)), Ref::Terminal(false));
    law_known_function(buf, and_triple(f, f), f);
}

/// Disjunction with true, with false, and with itself; none of them adds a node.
pub proof fn law_or_identities(buf: Seq<u8>, f: Ref)
    requires
        arena_ok(buf),
        ref_in(nodes(buf), f),
    ensures
        ite_on(buf, or_triple(f, Ref::Terminal(true))) == (buf, Ref::Terminal(true)),
        ite_on(buf, or_triple(f, Ref::Terminal(false))) == (buf, f),
        ite_on(buf, or_triple(f, f)) == (buf, f),
{
    law_known_function(buf, or_triple(f, Ref::Terminal(true)), Ref::Terminal(true));
    law_known_function(buf, or_triple(f, Ref::Terminal(false)), f);
    law_known_function(buf, or_triple(f, f), f);
}

/// A function or its negation is true, and both together are false.
pub proof fn law_excluded_middle(buf: Seq<u8>, f: Ref)
    requires
        arena_ok(buf),
        ref_in(nodes(buf), f),
        ite_on(buf, not_triple(f)).0.len() <= u64::MAX,
    ensures
        ({
            let (out, nf) = ite_on(buf, not_triple(f));
            &&& ite_on(out, or_triple(f, nf)) == (out, Ref::Terminal(true))
            &&& ite_on(out, and_triple(f, nf)) == (out, Ref::Terminal(false))
        }),
{
    let (out, nf) = ite_on(buf, not_triple(f));
    let s = nodes(out);
    lemma_after(buf, not_triple(f));
    assert forall|env: Env| #[trigger] eval(tree(s, nf), env) == !eval(tree(s, f), env) by {}
    assert(answers(s, or_triple(f, nf), Ref::Terminal(true))) by {
        assert forall|env: Env| #[trigger] eval(tree(s, Ref::Terminal(true)), env) == ite_bool(
            eval(tree(s, f), env),
            true,
            eval(tree(s, nf), env),
        ) by {
            assert(eval(tree(s, nf), env) == !eval(tree(s, f), env));
        }
    }
    assert(answers(s, and_triple(f, nf), Ref::Terminal(false))) by {
        assert forall|env: Env| #[trigger] eval(tree(s, Ref::Terminal(false)), env) == ite_bool(
            eval(tree(s, f), env),
            eval(tree(s, nf), env),
            false,
        ) by {
            assert(eval(tree(s, nf), env) == !eval(tree(s, f), env));
        }
    }
    law_known_function(out, or_triple(f, nf), Ref::Terminal(true));
    law_known_function(out, and_triple(f, nf), Ref::Terminal(false));
}

/// The negation of a conjunction is the disjunction of the negations.
pub proof fn law_de_morgan(buf: Seq<u8>, f: Ref, g: Ref)
    requires
        arena_ok(buf),
        ref_in(nodes(buf), f),
        ref_in(nodes(buf), g),
        ({
            let (b1, nf) = ite_on(buf, not_triple(f));
            let (b2, ng) = ite_on(b1, not_triple(g));
            let (b3, or) = ite_on(b2, or_triple(nf, ng));
            let (b4, and) = ite_on(b3, and_triple(f, g));
            b1.len() <= u64::MAX && b2.len() <= u64::MAX && b3.len() <= u64::MAX && b4.len()
                <= u64::MAX
        }),
    ensures
        ({
            let (b1, nf) = ite_on(buf, not_triple(f));
            let (b2, ng) = ite_on(b1, not_triple(g));
            let (b3, or) = ite_on(b2, or_triple(nf, ng));
            let (b4, and) = ite_on(b3, and_triple(f, g));
            ite_on(b4, not_triple(and)) == (b4, or)
        }),
{
    let (b1, nf) = ite_on(buf, not_triple(f));
    let (b2, ng) = ite_on(b1, not_triple(g));
    let (b3, or) = ite_on(b2, or_triple(nf, ng));
    let (b4, and) = ite_on(b3, and_triple(f, g));
    lemma_after(buf, not_triple(f));
    lemma_tree_submap(nodes(buf), nodes(b1), g);
    lemma_after(b1, not_triple(g));
    lemma_tree_submap(nodes(b1), nodes(b2), f);
    lemma_tree_submap(nodes(b1), nodes(b2), nf);
    lemma_after(b2, or_triple(nf, ng));
    lemma_tree_submap(nodes(b2), nodes(b3), f);
    lemma_tree_submap(nodes(b2), nodes(b3), g);
    lemma_tree_submap(nodes(b2), nodes(b3), nf);
    lemma_tree_submap(nodes(b2), nodes(b3), ng);
    lemma_after(b3, and_triple(f, g));
    lemma_tree_submap(nodes(b3), nodes(b4), or);
    lemma_tree_submap(nodes(b3), nodes(b4), f);
    lemma_tree_submap(nodes(b3), nodes(b4), g);
    let s = nodes(b4);
    assert forall|env: Env| #[trigger] eval(tree(s, or), env) == ite_bool(
        eval(tree(s, and), env),
        false,
        true,
    ) by {
        assert(eval(tree(nodes(b1), nf), env) == !eval(tree(nodes(b1), f), env));
        assert(eval(tree(nodes(b2), ng), env) == !eval(tree(nodes(b2), g), env));
        assert(eval(tree(nodes(b3), or), env) == (eval(tree(nodes(b3), nf), env) || eval(
            tree(nodes(b3), ng),
            env,
        )));
        assert(eval(tree(s, and), env) == (eval(tree(s, f), env) && eval(tree(s, g), env)));
    }
    law_known_function(b4, not_triple(and), or);
}

/// Exclusive disjunction with itself is false, and with false is the function.
pub proof fn law_xor_identities(buf: Seq<u8>, f: Ref)
    requires
        arena_ok(buf),
        ref_in(nodes(buf), f),
        ite_on(buf, not_triple(f)).0.len() <= u64::MAX,
    ensures
        xor_on(buf, f, f).1 == Ref::Terminal(false),
        xor_on(buf, f, Ref::Terminal(false)) == (buf, f),
{
    let (out, nf) = ite_on(buf, not_triple(f));
    let s = nodes(out);
    lemma_after(buf, not_triple(f));
    let t = Triple { f, g: nf, h: f };
    assert(answers(s, t, Ref::Terminal(false))) by {
        assert forall|env: Env| #[trigger] eval(tree(s, Ref::Terminal(false)), env) == ite_bool(
            eval(tree(s, f), env),
            eval(tree(s, nf), env),
            eval(tree(s, f), env),
        ) by {
            assert(eval(tree(s, nf), env) == !eval(tree(s, f), env));
        }
    }
    law_known_function(out, t, Ref::Terminal(false));
    law_known_function(
        buf,
        Triple { f, g: Ref::Terminal(true), h: Ref::Terminal(false) },
        f,
    );
}

/// Exclusive disjunction commutes.
pub proof fn law_xor_commutes(buf: Seq<u8>, f: Ref, g: Ref)
    requires
        arena_ok(buf),
        ref_in(nodes(buf), f),
        ref_in(nodes(buf), g),
        ite_on(buf, not_triple(g)).0.len() <= u64::MAX,
        xor_on(buf, f, g).0.len() <= u64::MAX,
        ite_on(xor_on(buf, f, g).0, not_triple(f)).0.len() <= u64::MAX,
    ensures
        xor_on(xor_on(buf, f, g).0, g, f).1 == xor_on(buf, f, g).1,
{
    let (b1, ng) = ite_on(buf, not_triple(g));
    let t = Triple { f, g: ng, h: g };
    let (b2, r) = ite_on(b1, t);
    let (b3, nf) = ite_on(b2, not_triple(f));
    lemma_after(buf, not_triple(g));
    lemma_tree_submap(nodes(buf), nodes(b1), f);
    lemma_after(b1, t);
    lemma_after(b2, not_triple(f));
    let s = nodes(b3);
    lemma_tree_submap(nodes(b1), nodes(b2), g);
    lemma_tree_submap(nodes(b1), nodes(b2), ng);
    lemma_tree_submap(nodes(b2), s, f);
    lemma_tree_submap(nodes(b2), s, g);
    lemma_tree_submap(nodes(b2), s, r);
    let u = Triple { f: g, g: nf, h: f };
    assert(answers(s, u, r)) by {
        assert forall|env: Env| #[trigger] eval(tree(s, r), env) == ite_bool(
            eval(tree(s, g), env),
            eval(tree(s, nf), env),
            eval(tree(s, f), env),
        ) by {
            assert(eval(tree(s, nf), env) == !eval(tree(s, f), env));
            assert(eval(tree(nodes(b1), ng), env) == !eval(tree(nodes(b1), g), env));
            assert(eval(tree(nodes(b2), r), env) == ite_bool(
                eval(tree(nodes(b2), f), env),
                eval(tree(nodes(b2), ng), env),
                eval(tree(nodes(b2), g), env),
            ));
        }
    }
    law_known_function(b3, u, r);
}

/// What if-then-else gives depends on the diagrams of its operands alone: in any
/// two arenas, before or after a collection, equal diagrams give equal diagrams.
pub proof fn law_ite_of_diagrams(a: Seq<u8>, t: Triple, b: Seq<u8>, u: Triple)
    requires
        arena_ok(a),
        arena_ok(b),
        triple_in(nodes(a), t),
        triple_in(nodes(b), u),
        tree(nodes(a), t.f) == tree(nodes(b), u.f),
        tree(nodes(a), t.g) == tree(nodes(b), u.g),
        tree(nodes(a), t.h) == tree(nodes(b), u.h),
        ite_on(a, t).0.len() <= u64::MAX,
        ite_on(b, u).0.len() <= u64::MAX,
    ensures
        tree(nodes(ite_on(a, t).0), ite_on(a, t).1) == tree(nodes(ite_on(b, u).0), ite_on(b, u).1),
{
    let (out, r) = ite_on(a, t);
    let (out2, r2) = ite_on(b, u);
    lemma_ite(a, t);
    lemma_ite(b, u);
    assert(same_function(tree(nodes(out), r), tree(nodes(out2), r2))) by {
        reveal(ite_means);
        assert forall|env: Env| #[trigger] eval(tree(nodes(out), r), env) == eval(
            tree(nodes(out2), r2),
            env,
        ) by {
            assert(eval(tree(nodes(out2), r2), env) == ite_bool(
                eval(tree(nodes(b), u.f), env),
                eval(tree(nodes(b), u.g), env),
                eval(tree(nodes(b), u.h), env),
            ));
        }
    }
    law_node_count_of_function(nodes(out), r, nodes(out2), r2);
}

// ---------------------------------------------------------------------------
// The cache and its counters
// ---------------------------------------------------------------------------

/// Whatever the cache holds, and however large it is, the same call gives the
/// same arena and the same reference.
pub proof fn law_cache_invisible(a: State, b: State, t: Triple)
    requires
        state_ok(a),
        state_ok(b),
        a.buf == b.buf,
        triple_in(nodes(a.buf), t),
        ite_call(a, t) is Some,
        ite_call(b, t) is Some,
    ensures
        ite_call(a, t).unwrap().0.buf == ite_call(b, t).unwrap().0.buf,
        ite_call(a, t).unwrap().1 == ite_call(b, t).unwrap().1,
{
    lemma_call(a, t);
    lemma_call(b, t);
}

/// The outcomes counted, less the shapes counted.
pub open spec fn surplus(s: ApplyStats) -> int {
    s.hits + s.coll + s.empty - s.pat_and - s.pat_or - s.pat_not - s.pat_other
}

/// Whether as many outcomes as shapes were counted, up to wrapping around.
pub open spec fn balanced(s: ApplyStats) -> bool {
    surplus(s) % (u64::MAX + 1) == 0
}

/// Counting an outcome adds one to the surplus, up to wrapping around.
proof fn lemma_count_event(s: ApplyStats, ev: ApplyEvent) -> (k: int)
    requires
        s.enabled,
    ensures
        surplus(count_event(s, ev)) == surplus(s) + 1 - k * (u64::MAX + 1),
        k == 0 || k == 1,
{
    let c = match ev {
        ApplyEvent::Hit => s.hits,
        ApplyEvent::Coll => s.coll,
        ApplyEvent::Empty => s.empty,
    };
    if c == u64::MAX {
        1
    } else {
        0
    }
}

/// Counting a shape takes one from the surplus, up to wrapping around.
proof fn lemma_count_pattern(s: ApplyStats, t: Triple) -> (k: int)
    requires
        s.enabled,
    ensures
        surplus(count_pattern(s, t)) == surplus(s) - 1 + k * (u64::MAX + 1),
        k == 0 || k == 1,
        count_pattern(s, t).enabled,
{
    let c = if t.g == Ref::Terminal(false) && t.h == Ref::Terminal(true) {
        s.pat_not
    } else if t.g == Ref::Terminal(true) {
        s.pat_or
    } else if t.h == Ref::Terminal(false) {
        s.pat_and
    } else {
        s.pat_other
    };
    if c == u64::MAX {
        1
    } else {
        0
    }
}

/// Every probe counts one outcome and one shape.
proof fn lemma_probe_balanced(st: State, t: Triple)
    requires
        balanced(st.stats),
    ensures
        balanced(after_probe(st, t).stats),
{
    if st.stats.enabled {
        let mid = count_pattern(st.stats, t);
        let k = lemma_count_pattern(st.stats, t);
        let j = lemma_count_event(mid, probe(st.memo, t).1);
        let m = u64::MAX + 1;
        let after = after_probe(st, t).stats;
        assert(surplus(after) == m * (k - j) + surplus(st.stats)) by (nonlinear_arith)
            requires
                surplus(after) == surplus(st.stats) + k * m - j * m,
        ;
        vstd::arithmetic::div_mod::lemma_mod_multiples_vanish(k - j, surplus(st.stats), m);
    }
}

/// If-then-else counts as many outcomes as shapes, and nothing while the counters
/// are off.
pub proof fn law_counters(st: State, t: Triple)
    requires
        ite_call(st, t) is Some,
    ensures
        balanced(st.stats) ==> balanced(ite_call(st, t).unwrap().0.stats),
        !st.stats.enabled ==> ite_call(st, t).unwrap().0.stats == st.stats,
{
    if balanced(st.stats) {
        lemma_probe_balanced(st, t);
    }
    if trivial(t) is None && probe(st.memo, t).0 is None {
        lemma_memo_counters(after_probe(st, t), t);
    }
}

proof fn lemma_memo_counters(st: State, t: Triple)
    requires
        ite_memo(st, t) is Some,
    ensures
        balanced(st.stats) ==> balanced(ite_memo(st, t).unwrap().0.stats),
        !st.stats.enabled ==> ite_memo(st, t).unwrap().0.stats == st.stats,
    decreases rank3(t),
{
    if balanced(st.stats) {
        lemma_probe_balanced(st, t);
    }
    if trivial(t) is None && probe(st.memo, t).0 is None {
        let s = nodes(st.buf);
        let st1 = after_probe(st, t);
        lemma_memo_counters(st1, branch(s, t, false));
        let st2 = ite_memo(st1, branch(s, t, false)).unwrap().0;
        lemma_memo_counters(st2, branch(s, t, true));
    }
}

/// Calls whose answer is one of the operands look nothing up, count nothing and store
/// nothing.
pub proof fn law_ite_trivial(st: State, f: Ref, g: Ref, h: Ref)
    ensures
        ite_call(st, Triple { f: Ref::Terminal(true), g, h }) == Some((st, g)),
        ite_call(st, Triple { f: Ref::Terminal(false), g, h }) == Some((st, h)),
        ite_call(st, Triple { f, g, h: g }) == Some((st, g)),
        ite_call(st, Triple { f, g: Ref::Terminal(true), h: Ref::Terminal(false) }) == Some(
            (st, f),
        ),
{
}

/// What has been computed is found: behind a call of if-then-else that had to look,
/// the cache holds the answer, and the same call again gives it, adds nothing and
/// stores nothing.
pub proof fn law_ite_cached(st: State, t: Triple)
    requires
        0 < st.memo.len() <= u64::MAX,
        trivial(t) is None,
        ite_call(st, t) is Some,
    ensures
        ({
            let (st2, r) = ite_call(st, t)->0;
            &&& probe(st2.memo, t) == (Some(r), ApplyEvent::Hit)
            &&& ite_call(st2, t) == Some(
                (
                    State {
                        stats: count_event(count_pattern(st2.stats, t), ApplyEvent::Hit),
                        ..st2
                    },
                    r,
                ),
            )
        }),
{
    if probe(st.memo, t).0 is None {
        let st1 = after_probe(st, t);
        let s = nodes(st1.buf);
        let st2 = after_probe(st1, t);
        let (st3, lo) = ite_memo(st2, branch(s, t, false))->0;
        lemma_memo_len(st2, branch(s, t, false));
        let (st4, hi) = ite_memo(st3, branch(s, t, true))->0;
        lemma_memo_len(st3, branch(s, t, true));
        law_cache_hit(st4.memo, t, intern(st4.buf, top(s, t) as u32, lo, hi).1);
    }
}

/// What a call costs that finds nothing: it looks twice for the triple it was asked
/// for, once for each triple below it, expands the low branch before the high one,
/// and stores the node over both answers.
pub proof fn law_ite_expands(st: State, t: Triple)
    requires
        arena_ok(st.buf),
        triple_in(nodes(st.buf), t),
        trivial(t) is None,
        probe(st.memo, t).0 is None,
    ensures
        ({
            let s = nodes(st.buf);
            let once = State {
                stats: count_event(count_pattern(st.stats, t), probe(st.memo, t).1),
                ..st
            };
            let twice = State {
                stats: count_event(count_pattern(once.stats, t), probe(st.memo, t).1),
                ..st
            };
            &&& ite_call(st, t) == ite_memo(once, t)
            &&& ite_memo(once, t) is Some ==> {
                let low = ite_memo(twice, branch(s, t, false));
                &&& low is Some
                &&& ite_memo(low.unwrap().0, branch(s, t, true)) is Some
                &&& ({
                    let (st2, lo) = low->0;
                    let (st3, hi) = ite_memo(st2, branch(s, t, true))->0;
                    let (st4, r) = ite_memo(once, t)->0;
                    &&& (st4.buf, r) == intern(st3.buf, top(s, t) as u32, lo, hi)
                    &&& st4.memo == stored(st3.memo, t, r)
                    &&& st4.stats == st3.stats
                })
            }
        }),
{
    lemma_branch(st.buf, t, false);
    lemma_branch(st.buf, t, true);
}

/// The cache keeps its size.
proof fn lemma_memo_len(st: State, t: Triple)
    requires
        0 < st.memo.len() <= u64::MAX,
    ensures
        ite_memo(st, t) matches Some((st2, _)) ==> st2.memo.len() == st.memo.len(),
    decreases rank3(t),
{
    let s = nodes(st.buf);
    let t0 = branch(s, t, false);
    let t1 = branch(s, t, true);
    if trivial(t) is None && probe(st.memo, t).0 is None && rank3(t0) < rank3(t) && rank3(t1)
        < rank3(t) {
        let st1 = after_probe(st, t);
        lemma_memo_len(st1, t0);
        if let Some((st2, lo)) = ite_memo(st1, t0) {
            lemma_memo_len(st2, t1);
            if let Some((st3, hi)) = ite_memo(st2, t1) {
                law_cache_hit(st3.memo, t, intern(st3.buf, top(s, t) as u32, lo, hi).1);
            }
        }
    }
}

// ---------------------------------------------------------------------------
// Layout
// ---------------------------------------------------------------------------

/// `r` moved by `d` bytes.
pub open spec fn shifted(r: Ref, d: u64) -> Ref {
    match r {
        Ref::Terminal(_) => r,
        Ref::Node(o) => Ref::Node((o + d) as u64),
    }
}

/// The bytes of a node do not depend on where it stands, as long as its children
/// stand at the same distance.
pub proof fn law_position_independent(n: Node, off: u64, d: u64)
    requires
        node_fits(n, off),
        off + d <= u64::MAX,
    ensures
        node_bytes(
            Node { var: n.var, lo: shifted(n.lo, d), hi: shifted(n.hi, d) },
            (off + d) as u64,
        ) == node_bytes(n, off),
{
}

// ---------------------------------------------------------------------------
// Collecting
// ---------------------------------------------------------------------------

/// The tail nodes that the roots reach.
pub open spec fn live(s: Map<u64, Node>, base: u64, roots: Seq<Ref>) -> Set<u64> {
    s.dom().filter(|o: u64| o >= base && reached(s, roots, o))
}

/// A collection leaves the nodes before the base, and exactly as many behind it
/// as the roots reach there.
pub proof fn law_collect_count(buf: Seq<u8>, base: u64, roots: Seq<Ref>)
    requires
        arena_ok(buf),
        boundary(buf, base as int),
        roots_in(nodes(buf), roots),
        collected(buf, base, roots).0.len() <= u64::MAX,
    ensures
        live(nodes(buf), base, roots).finite(),
        starts(collected(buf, base, roots).0).len() == starts(buf.take(base as int)).len() + live(
            nodes(buf),
            base,
            roots,
        ).len(),
{
    let s = nodes(buf);
    let order = visit_roots(s, base, roots);
    theorem_collected(buf, base, roots);
    lemma_visit_roots(s, base, roots);
    lemma_order_set(s, base, roots);
}

/// The order of a visit, as a set.
proof fn lemma_order_set(s: Map<u64, Node>, base: u64, roots: Seq<Ref>)
    requires
        closed(s),
        roots_in(s, roots),
    ensures
        live(s, base, roots).finite(),
        live(s, base, roots).len() == visit_roots(s, base, roots).len(),
{
    let order = visit_roots(s, base, roots);
    lemma_visit_roots(s, base, roots);
    assert(order.no_duplicates()) by {
        reveal(settled);
    }
    order.unique_seq_to_set();
    assert(order.to_set() =~= live(s, base, roots)) by {
        assert forall|o: u64| order.to_set().contains(o) <==> live(s, base, roots).contains(o) by {
            if order.contains(o) {
                reveal(settled);
                let i = choose|i: int| 0 <= i < order.len() && order[i] == o;
                assert(s.dom().contains(order[i]));
            }
        }
    }
}

/// Collecting what was collected, with the roots that came out, removes nothing
/// and moves nothing: all of the tail is live, and the arena and the roots stay as
/// they are.
pub proof fn law_collect_twice(buf: Seq<u8>, base: u64, roots: Seq<Ref>)
    requires
        arena_ok(buf),
        boundary(buf, base as int),
        roots_in(nodes(buf), roots),
        collected(buf, base, roots).0.len() <= u64::MAX,
    ensures
        ({
            let (out, kept) = collected(buf, base, roots);
            &&& boundary(out, base as int)
            &&& roots_in(nodes(out), kept)
            &&& live(nodes(out), base, kept) == nodes(out).dom().filter(|o: u64| o >= base)
            &&& collected(out, base, kept) == (out, kept)
        }),
{
    let (out, kept) = collected(buf, base, roots);
    let head = buf.take(base as int);
    theorem_collected(buf, base, roots);
    theorem_collected_again(buf, base, roots);
    lemma_cut(buf, base as nat);
    lemma_extends(head, out);
    let s = nodes(out);
    assert(live(s, base, kept) =~= s.dom().filter(|o: u64| o >= base));
}

/// Nodes laid out for the first part of an order are the first nodes laid out for
/// all of it.
proof fn lemma_relaid_prefix(
    s: Map<u64, Node>,
    base: u64,
    head: Seq<u8>,
    order: Seq<u64>,
    k: int,
)
    requires
        0 <= k <= order.len(),
    ensures
        extends(relaid(s, base, head, order.take(k)).0, relaid(s, base, head, order).0),
    decreases order.len(),
{
    let (out, map) = relaid(s, base, head, order);
    if k == order.len() {
        assert(order.take(k) =~= order);
        assert(out.take(out.len() as int) =~= out);
    } else {
        let before = order.drop_last();
        let mid = relaid(s, base, head, before).0;
        lemma_relaid_prefix(s, base, head, before, k);
        assert(before.take(k) =~= order.take(k));
        assert(out.take(mid.len() as int) =~= mid);
        lemma_extends_trans(relaid(s, base, head, order.take(k)).0, mid, out);
    }
}

/// The tail is laid out root after root, in the order of the roots: what is kept for
/// one root more stands behind what is kept for the others.
pub proof fn law_collect_in_order(buf: Seq<u8>, base: u64, roots: Seq<Ref>, r: Ref)
    requires
        arena_ok(buf),
        roots_in(nodes(buf), roots),
        ref_in(nodes(buf), r),
    ensures
        extends(collected(buf, base, roots).0, collected(buf, base, roots.push(r)).0),
{
    let s = nodes(buf);
    let all = roots.push(r);
    let order = visit_roots(s, base, roots);
    assert(all.drop_last() =~= roots);
    lemma_visit_roots(s, base, roots);
    if let Ref::Node(o) = r {
        if o >= base {
            lemma_visit(s, base, o, order);
        }
    }
    let full = visit_roots(s, base, all);
    assert(order.take(order.len() as int) =~= order);
    assert(full.take(order.len() as int) =~= order);
    lemma_relaid_prefix(s, base, buf.take(base as int), full, order.len() as int);
}

/// A node is laid out behind what its high child needs, then what its low child
/// needs: to ask for the two first, in this order, changes nothing.
pub proof fn law_collect_children_first(buf: Seq<u8>, base: u64, roots: Seq<Ref>, o: u64)
    requires
        arena_ok(buf),
        roots_in(nodes(buf), roots),
        nodes(buf).dom().contains(o),
        o >= base,
    ensures
        collected(
            buf,
            base,
            roots.push(nodes(buf)[o].hi).push(nodes(buf)[o].lo).push(Ref::Node(o)),
        ).0 == collected(buf, base, roots.push(Ref::Node(o))).0,
{
    let s = nodes(buf);
    let n = s[o];
    let order = visit_roots(s, base, roots);
    let a_roots = roots.push(n.hi);
    let b_roots = a_roots.push(n.lo);
    let all = b_roots.push(Ref::Node(o));
    let direct = roots.push(Ref::Node(o));
    assert(all.drop_last() =~= b_roots);
    assert(b_roots.drop_last() =~= a_roots);
    assert(a_roots.drop_last() =~= roots);
    assert(direct.drop_last() =~= roots);
    lemma_visit_roots(s, base, roots);
    assert(ref_below(n.hi, o as nat) && ref_below(n.lo, o as nat) && ref_in(s, n.hi) && ref_in(
        s,
        n.lo,
    )) by {
        reveal(closed);
    }
    let a = visit_roots(s, base, a_roots);
    let b = visit_roots(s, base, b_roots);
    if young(base, o, n.hi) {
        lemma_visit(s, base, n.hi->Node_0, order);
        assert(a.contains(n.hi->Node_0));
    }
    if young(base, o, n.lo) {
        lemma_visit(s, base, n.lo->Node_0, a);
        assert(b.contains(n.lo->Node_0));
    }
    assert forall|x: u64| #[trigger] a.contains(x) implies b.contains(x) by {}
    if order.contains(o) {
        lemma_visit(s, base, o, order);
        assert(reach(s, Ref::Node(o)).contains(o));
        if young(base, o, n.hi) {
            assert(reach(s, n.hi).contains(n.hi->Node_0));
            assert(visit(s, base, o, order).contains(n.hi->Node_0));
        }
        if young(base, o, n.lo) {
            assert(reach(s, n.lo).contains(n.lo->Node_0));
            assert(visit(s, base, o, order).contains(n.lo->Node_0));
        }
        assert(a == order && b == order);
    } else {
        if a.contains(o) {
            lemma_reach(s, n.hi, o);
        }
        if b.contains(o) {
            lemma_reach(s, n.lo, o);
        }
        if young(base, o, n.hi) {
            assert(visit(s, base, n.hi->Node_0, b) == b);
        }
        if young(base, o, n.lo) {
            assert(visit(s, base, n.lo->Node_0, b) == b);
        }
        assert(visit(s, base, o, b) == b.push(o));
        assert(visit(s, base, o, order) == b.push(o));
    }
    assert(visit_roots(s, base, all) == visit_roots(s, base, direct));
}

// ---------------------------------------------------------------------------
// Slabs and diffs
// ---------------------------------------------------------------------------

/// A diff can be applied wherever its base is held: the base with the tail behind
/// it is a sound arena, in which the new roots mean what they meant to the sender
/// and everything in the base means what it meant.
pub proof fn law_diff_applies(base: Seq<u8>, sender: Seq<u8>, roots: Seq<Ref>, tail: Seq<u8>)
    requires
        arena_ok(base),
        arena_ok(sender),
        extends(base, sender),
        roots_in(nodes(sender), roots),
        (base + tail).len() <= u64::MAX,
        base + tail == collected(sender, base.len() as u64, roots).0,
    ensures
        arena_ok(base + tail),
        ({
            let kept = collected(sender, base.len() as u64, roots).1;
            forall|i: int|
                0 <= i < roots.len() ==> ref_in(nodes(base + tail), #[trigger] kept[i]) && tree(
                    nodes(base + tail),
                    kept[i],
                ) == tree(nodes(sender), roots[i])
        }),
        forall|r: Ref| #[trigger]
            ref_in(nodes(base), r) ==> ref_in(nodes(base + tail), r) && tree(nodes(base + tail), r)
                == tree(nodes(base), r),
{
    lemma_extends(base, sender);
    let kept = collected(sender, base.len() as u64, roots).1;
    theorem_collected(sender, base.len() as u64, roots);
    assert forall|i: int| 0 <= i < roots.len() implies ref_in(
        nodes(base + tail),
        #[trigger] kept[i],
    ) by {}
    lemma_concat(base, tail);
    assert forall|r: Ref| #[trigger] ref_in(nodes(base), r) implies ref_in(nodes(base + tail), r)
        && tree(nodes(base + tail), r) == tree(nodes(base), r) by {
        lemma_tree_submap(nodes(base), nodes(base + tail), r);
    }
}

/// What extending a slab works on, and what comes of it. The manager that is handed
/// out holds the bytes of the slab, declares the variables that they use and no more,
/// and has computed nothing yet. The diff continues the slab: behind its bytes the new
/// root at every place has the tree of the reference returned at that place, what was
/// in the slab means what it meant, and nothing else is in the tail.
pub proof fn law_extend_slab(
    base: &Slab,
    start: &Manager,
    end: &Manager,
    roots: Seq<Ref>,
    diff: Diff,
)
    requires
        arena_ok(base.bytes@),
        start.loaded_with(base),
        extended_by(base, end, roots),
        diff_from(base, end, roots, diff),
    ensures
        start.wf(),
        start.arena() == base.bytes@,
        forall|o: u64| #[trigger]
            nodes(base.bytes@).dom().contains(o) ==> nodes(base.bytes@)[o].var < start.vars(),
        start.vars() > 0 ==> exists|o: u64| #[trigger]
            nodes(base.bytes@).dom().contains(o) && nodes(base.bytes@)[o].var + 1 == start.vars(),
        filled(start.memo()) == 0,
        diff.new_roots@.len() == roots.len(),
        ({
            let whole = base.bytes@ + diff.tail@;
            let s = nodes(whole);
            &&& arena_ok(whole)
            &&& forall|i: int|
                0 <= i < roots.len() ==> ref_in(s, #[trigger] diff.new_roots@[i]) && tree(
                    s,
                    diff.new_roots@[i],
                ) == end.tree(roots[i])
            &&& forall|r: Ref| #[trigger]
                ref_in(nodes(base.bytes@), r) ==> ref_in(s, r) && tree(s, r) == tree(
                    nodes(base.bytes@),
                    r,
                )
            &&& forall|o: u64| #[trigger]
                s.dom().contains(o) && o >= base.bytes@.len() ==> reached(s, diff.new_roots@, o)
        }),
{
    let whole = base.bytes@ + diff.tail@;
    law_var_count(base.bytes@);
    start.lemma_wf();
    law_cache_vacant(start.memo().len(), not_triple(Ref::Terminal(false)));
    assert forall|i: int| 0 <= i < roots.len() implies ref_in(
        nodes(whole),
        #[trigger] diff.new_roots@[i],
    ) && tree(nodes(whole), diff.new_roots@[i]) == end.tree(roots[i]) by {}
    assert forall|r: Ref| #[trigger] ref_in(nodes(base.bytes@), r) implies ref_in(nodes(whole), r)
        && tree(nodes(whole), r) == tree(nodes(base.bytes@), r) by {
        lemma_concat(base.bytes@, diff.tail@);
        lemma_tree_submap(nodes(base.bytes@), nodes(whole), r);
    }
}

/// A clean base with a clean diff on top is clean: all of it is reached by the
/// roots of both.
pub proof fn law_clean_on_clean(
    base: Seq<u8>,
    tail: Seq<u8>,
    base_roots: Seq<Ref>,
    new_roots: Seq<Ref>,
)
    requires
        arena_ok(base),
        arena_ok(base + tail),
        roots_in(nodes(base), base_roots),
        clean(nodes(base), 0, base_roots),
        clean(nodes(base + tail), base.len() as u64, new_roots),
    ensures
        clean(nodes(base + tail), 0, base_roots + new_roots),
{
    let s = nodes(base);
    let t = nodes(base + tail);
    let all = base_roots + new_roots;
    lemma_concat(base, tail);
    assert forall|o: u64| #[trigger] t.dom().contains(o) && o >= 0 implies reached(t, all, o) by {
        if o < base.len() {
            assert(s.dom().contains(o));
            let i = choose|i: int|
                0 <= i < base_roots.len() && #[trigger] reach(s, base_roots[i]).contains(o);
            assert(ref_in(s, base_roots[i]));
            lemma_reach_submap(s, t, base_roots[i]);
            assert(all[i] == base_roots[i]);
            assert(reach(t, all[i]).contains(o));
        } else {
            let i = choose|i: int|
                0 <= i < new_roots.len() && #[trigger] reach(t, new_roots[i]).contains(o);
            let k = base_roots.len() + i;
            assert(all[k] == new_roots[i]);
            assert(reach(t, all[k]).contains(o));
        }
    }
}

// ---------------------------------------------------------------------------
// Queries
// ---------------------------------------------------------------------------

/// A function depends on the variables in its support, and on no others.
pub proof fn law_support(t: Bdd, v: u32)
    requires
        ordered(t),
        reduced(t),
    ensures
        support(t).contains(v) <==> exists|env: Env|
            #[trigger] eval(t, env_with(env, v, false)) != eval(t, env_with(env, v, true)),
    decreases t,
{
    if !support(t).contains(v) {
        assert forall|env: Env| #[trigger]
            eval(t, env_with(env, v, false)) == eval(t, env_with(env, v, true)) by {
            lemma_eval_support(t, env_with(env, v, false), env_with(env, v, true));
        }
    } else if t->var == v {
        let lo = *t->lo;
        let hi = *t->hi;
        if same_function(lo, hi) {
            theorem_canonical(lo, hi);
        }
        let env = choose|env: Env| #[trigger] eval(lo, env) != eval(hi, env);
        lemma_eval_children(t, env);
        assert(eval(t, env_with(env, v, false)) != eval(t, env_with(env, v, true)));
    } else {
        let low = support(*t->lo).contains(v);
        let c = if low {
            *t->lo
        } else {
            *t->hi
        };
        law_support(c, v);
        let env = choose|env: Env|
            #[trigger] eval(c, env_with(env, v, false)) != eval(c, env_with(env, v, true));
        let e = env_with(env, t->var, !low);
        assert forall|b: bool| eval(t, #[trigger] env_with(e, v, b)) == eval(
            c,
            env_with(env, v, b),
        ) by {
            assert(eval(t, env_with(e, v, b)) == eval(c, env_with(e, v, b)));
            assert forall|x: u32| support(c).contains(x) implies env_with(e, v, b)(x) == env_with(
                env,
                v,
                b,
            )(x) by {
                lemma_support_level(c, x);
            }
            lemma_eval_support(c, env_with(e, v, b), env_with(env, v, b));
        }
        assert(eval(t, env_with(e, v, false)) != eval(t, env_with(e, v, true)));
    }
}

/// The environment that gives the variables from `k` on the values in `a`, and all
/// others those of `env`.
spec fn assigned(env: Env, k: nat, a: Seq<bool>) -> Env {
    |v: u32|
        if k <= v < k + a.len() {
            a[v - k]
        } else {
            env(v)
        }
}

/// The values of the variables from `k` to `n`, without `n`, that make `t` true.
spec fn satisfying(t: Bdd, env: Env, k: nat, n: nat) -> Set<Seq<bool>> {
    Set::new(|a: Seq<bool>| a.len() == n - k && eval(t, assigned(env, k, a)))
}

/// The assignments counted are those that there are.
proof fn lemma_satisfying(t: Bdd, env: Env, k: nat, n: nat)
    requires
        k <= n <= u32::MAX + 1,
    ensures
        satisfying(t, env, k, n).finite(),
        satisfying(t, env, k, n).len() == assignments(t, env, k, n),
    decreases n - k,
{
    let all = satisfying(t, env, k, n);
    if k == n {
        let none = Seq::<bool>::empty();
        assert(assigned(env, k, none) =~= env);
        assert forall|a: Seq<bool>| all.contains(a) implies a == none by {
            assert(a =~= none);
        }
        if eval(t, env) {
            assert(all =~= Set::empty().insert(none));
        } else {
            assert(all =~= Set::empty());
        }
    } else {
        let e0 = env_with(env, k as u32, false);
        let e1 = env_with(env, k as u32, true);
        let s0 = satisfying(t, e0, k + 1, n);
        let s1 = satisfying(t, e1, k + 1, n);
        let f0 = |a: Seq<bool>| seq![false] + a;
        let f1 = |a: Seq<bool>| seq![true] + a;
        lemma_satisfying(t, e0, k + 1, n);
        lemma_satisfying(t, e1, k + 1, n);
        assert forall|a: Seq<bool>, b: Seq<bool>|
            #[trigger] (seq![false] + a) == #[trigger] (seq![false] + b) implies a == b by {
            assert((seq![false] + a).skip(1) =~= a);
            assert((seq![false] + b).skip(1) =~= b);
        }
        assert forall|a: Seq<bool>, b: Seq<bool>|
            #[trigger] (seq![true] + a) == #[trigger] (seq![true] + b) implies a == b by {
            assert((seq![true] + a).skip(1) =~= a);
            assert((seq![true] + b).skip(1) =~= b);
        }
        let y0 = s0.map(f0);
        let y1 = s1.map(f1);
        vstd::set_lib::lemma_map_size(s0, y0, f0);
        vstd::set_lib::lemma_map_size(s1, y1, f1);
        assert(y0.disjoint(y1)) by {
            assert forall|a: Seq<bool>| y0.contains(a) implies !y1.contains(a) by {
                assert(!a[0]);
            }
        }
        vstd::set_lib::lemma_set_disjoint_lens(y0, y1);
        assert forall|a: Seq<bool>| all.contains(a) <==> y0.union(y1).contains(a) by {
            if all.contains(a) {
                let rest = a.skip(1);
                assert(a =~= seq![a[0]] + rest);
                assert(assigned(env_with(env, k as u32, a[0]), k + 1, rest) =~= assigned(
                    env,
                    k,
                    a,
                ));
                if a[0] {
                    assert(s1.contains(rest) && f1(rest) == a);
                } else {
                    assert(s0.contains(rest) && f0(rest) == a);
                }
            }
            if y0.contains(a) {
                let rest = choose|x: Seq<bool>| s0.contains(x) && f0(x) == a;
                assert(assigned(e0, k + 1, rest) =~= assigned(env, k, a));
            }
            if y1.contains(a) {
                let rest = choose|x: Seq<bool>| s1.contains(x) && f1(x) == a;
                assert(assigned(e1, k + 1, rest) =~= assigned(env, k, a));
            }
        }
        assert(all =~= y0.union(y1));
    }
}

/// **The count is that of the satisfying assignments**: of all ways to give the first
/// `n` variables values, those in which the function is true.
pub proof fn law_count_models(t: Bdd, n: nat)
    requires
        n <= u32::MAX + 1,
    ensures
        ({
            let ways = Set::new(
                |a: Seq<bool>| a.len() == n && eval(t, |v: u32| v < n && a[v as int]),
            );
            ways.finite() && count_sat(t, n) == ways.len()
        }),
{
    let none: Env = |v: u32| false;
    let ways = Set::new(|a: Seq<bool>| a.len() == n && eval(t, |v: u32| v < n && a[v as int]));
    lemma_satisfying(t, none, 0, n);
    assert forall|a: Seq<bool>| satisfying(t, none, 0, n).contains(a) <==> ways.contains(a) by {
        let e: Env = |v: u32| v < n && a[v as int];
        if a.len() == n {
            assert(assigned(none, 0, a) =~= e);
        }
    }
    assert(satisfying(t, none, 0, n) =~= ways);
}

/// A function and its negation have all assignments between them.
pub proof fn law_count_complement(a: Bdd, b: Bdd, n: nat)
    requires
        forall|env: Env| #[trigger] eval(b, env) == !eval(a, env),
    ensures
        count_sat(a, n) + count_sat(b, n) == doubled(1, n),
{
    lemma_complement_assignments(a, b, |v: u32| false, 0, n);
}

/// One more variable, which the function does not use, doubles the count.
pub proof fn law_count_unused(t: Bdd, n: nat)
    requires
        ordered(t),
        vars_below(t, n as int),
        n <= u32::MAX,
    ensures
        count_sat(t, n + 1) == 2 * count_sat(t, n),
{
    lemma_models(t, |v: u32| false, 0, n);
    lemma_vars_below_mono(t, n as int, (n + 1) as int);
    lemma_models(t, |v: u32| false, 0, n + 1);
    lemma_models_unused(t, 0, n);
}

proof fn lemma_models_unused(t: Bdd, k: nat, n: nat)
    requires
        ordered(t),
        vars_below(t, n as int),
        k <= level(t),
        k <= n <= u32::MAX,
    ensures
        models(t, k, n + 1) == 2 * models(t, k, n),
    decreases n - k,
{
    if k < n {
        if t is Branch && t->var == k {
            lemma_models_unused(*t->lo, k + 1, n);
            lemma_models_unused(*t->hi, k + 1, n);
        } else {
            lemma_models_unused(t, k + 1, n);
        }
    } else {
        assert(t is Leaf);
        reveal_with_fuel(models, 2);
    }
}

/// Trees that stand for the same function have the same count.
pub proof fn law_count_of_function(a: Bdd, b: Bdd, n: nat)
    requires
        same_function(a, b),
    ensures
        count_sat(a, n) == count_sat(b, n),
{
    lemma_assignments_same(a, b, |v: u32| false, 0, n);
}

proof fn lemma_assignments_same(a: Bdd, b: Bdd, env: Env, k: nat, n: nat)
    requires
        same_function(a, b),
    ensures
        assignments(a, env, k, n) == assignments(b, env, k, n),
    decreases n - k,
{
    if k < n {
        lemma_assignments_same(a, b, env_with(env, k as u32, false), k + 1, n);
        lemma_assignments_same(a, b, env_with(env, k as u32, true), k + 1, n);
    }
}

// ---------------------------------------------------------------------------
// Dumps
// ---------------------------------------------------------------------------

/// Loading a dump gives the arena, the variables and the roots that were dumped,
/// and no names where none were.
pub proof fn law_load_of_dump(
    vars: u32,
    arena: Seq<u8>,
    roots: Seq<Ref>,
    slots: nat,
    r: Result<(Manager, LoadedRoots), DumpError>,
)
    requires
        arena_ok(arena),
        roots_in(nodes(arena), roots),
        roots.len() <= u32::MAX,
        loaded(sealed(body_of(vars, arena, roots, None)), slots, r),
    ensures
        r matches Ok((m, l)) && {
            &&& m.wf()
            &&& m.arena() == arena
            &&& m.vars() == vars
            &&& m.memo() == vacant(slots)
            &&& l.roots@ == roots
            &&& l.names is None
        },
{
    lemma_roots_wire(arena, roots);
    law_dump_roundtrip(vars, arena, roots, None);
}

/// The same with names, which come back as they were.
pub proof fn law_load_of_named_dump(
    vars: u32,
    arena: Seq<u8>,
    roots: Seq<Ref>,
    names: Seq<Seq<char>>,
    slots: nat,
    r: Result<(Manager, LoadedRoots), DumpError>,
)
    requires
        arena_ok(arena),
        roots_in(nodes(arena), roots),
        roots.len() <= u32::MAX,
        names.len() == roots.len(),
        forall|i: int|
            0 <= i < names.len() ==> encode_utf8(#[trigger] names[i]).len() <= u16::MAX,
        loaded(
            sealed(
                body_of(
                    vars,
                    arena,
                    roots,
                    Some(names.map_values(|name: Seq<char>| encode_utf8(name))),
                ),
            ),
            slots,
            r,
        ),
    ensures
        r matches Ok((m, l)) && {
            &&& m.wf()
            &&& m.arena() == arena
            &&& m.vars() == vars
            &&& m.memo() == vacant(slots)
            &&& l.roots@ == roots
            &&& l.names matches Some(texts) && texts@.len() == names.len() && forall|i: int|
                0 <= i < names.len() ==> (#[trigger] texts@[i])@ == names[i]
        },
{
    let list = names.map_values(|name: Seq<char>| encode_utf8(name));
    assert forall|i: int| 0 <= i < list.len() implies (#[trigger] list[i]).len() <= u16::MAX
        && valid_utf8(list[i]) by {
        assert(list[i] == encode_utf8(names[i]));
        encode_utf8_valid_utf8(names[i]);
    }
    lemma_roots_wire(arena, roots);
    law_dump_roundtrip(vars, arena, roots, Some(list));
    assert forall|i: int| 0 <= i < names.len() implies decode_utf8(#[trigger] list[i])
        == names[i] by {
        encode_utf8_decode_utf8(names[i]);
    }
}

/// The roots of an arena have numbers in a dump.
proof fn lemma_roots_wire(arena: Seq<u8>, roots: Seq<Ref>)
    requires
        arena.len() <= u64::MAX,
        roots_in(nodes(arena), roots),
    ensures
        forall|i: int| 0 <= i < roots.len() ==> wire_of(#[trigger] roots[i]) <= u64::MAX,
{
    assert forall|i: int| 0 <= i < roots.len() implies wire_of(#[trigger] roots[i])
        <= u64::MAX by {
        assert(ref_in(nodes(arena), roots[i]));
        if let Ref::Node(o) = roots[i] {
            lemma_node_at(arena, o);
        }
    }
}

/// What absorbing the first `k` nodes of a foreign arena leaves: the old arena in
/// front, and for each of them a reference to its function.
pub open spec fn absorbed_ok(buf: Seq<u8>, foreign: Seq<u8>, k: int) -> bool {
    let f = nodes(foreign);
    let (out, map) = absorbed(buf, f, starts(foreign).take(k));
    &&& arena_ok(out)
    &&& extends(buf, out)
    &&& forall|i: int|
        0 <= i < k ==> map.dom().contains(#[trigger] starts(foreign)[i]) && renders(
            nodes(out),
            map[starts(foreign)[i]],
            f,
            starts(foreign)[i],
        )
}

/// Whether `r` in `s` has the function of the foreign node at `o`, and no
/// variable above it.
#[verifier::opaque]
pub open spec fn renders(s: Map<u64, Node>, r: Ref, f: Map<u64, Node>, o: u64) -> bool {
    &&& ref_in(s, r)
    &&& ref_level(s, r) >= f[o].var
    &&& same_function(tree(s, r), tree(f, Ref::Node(o)))
}

/// A larger store renders the same.
proof fn lemma_renders_submap(
    s: Map<u64, Node>,
    s2: Map<u64, Node>,
    r: Ref,
    f: Map<u64, Node>,
    o: u64,
)
    requires
        closed(s),
        s.submap_of(s2),
        renders(s, r, f, o),
    ensures
        renders(s2, r, f, o),
{
    reveal(renders);
    lemma_tree_submap(s, s2, r);
}

/// What stands for a child of foreign node number `k` when its turn comes.
proof fn lemma_absorbed_child(buf: Seq<u8>, foreign: Seq<u8>, k: int, c: Ref)
    requires
        parses(foreign),
        closed(nodes(foreign)),
        0 <= k < starts(foreign).len(),
        absorbed_ok(buf, foreign, k),
        c == nodes(foreign)[starts(foreign)[k]].lo || c == nodes(foreign)[starts(foreign)[k]].hi,
    ensures
        ({
            let f = nodes(foreign);
            let (out, map) = absorbed(buf, f, starts(foreign).take(k));
            let t = translated(map, c);
            &&& ref_in(nodes(out), t)
            &&& ref_level(nodes(out), t) > f[starts(foreign)[k]].var
            &&& same_function(tree(nodes(out), t), tree(f, c))
            &&& c matches Ref::Node(o) ==> exists|i: int|
                0 <= i < k && #[trigger] starts(foreign)[i] == o
        }),
{
    let f = nodes(foreign);
    let all = starts(foreign);
    let p = all[k];
    assert(f.dom().contains(p));
    assert(ref_in(f, c) && ref_level(f, c) > f[p].var && ref_below(c, p as nat)) by {
        reveal(closed);
    }
    if let Ref::Node(o) = c {
        let i = choose|i: int| 0 <= i < all.len() && all[i] == o;
        lemma_starts_from(foreign, 0);
        if i >= k {
            if i > k {
                assert(starts_from(foreign, 0)[k] < starts_from(foreign, 0)[i]);
            }
        }
        assert(0 <= i < k && all[i] == o);
        reveal(renders);
    }
}

/// The node made of what stands for the children stands for the foreign node.
proof fn lemma_absorbed_node(mid: Seq<u8>, f: Map<u64, Node>, p: u64, lo: Ref, hi: Ref)
    requires
        arena_ok(mid),
        closed(f),
        f.dom().contains(p),
        internable(nodes(mid), f[p].var, lo, hi),
        intern(mid, f[p].var, lo, hi).0.len() <= u64::MAX,
        same_function(tree(nodes(mid), lo), tree(f, f[p].lo)),
        same_function(tree(nodes(mid), hi), tree(f, f[p].hi)),
    ensures
        ({
            let (out, r) = intern(mid, f[p].var, lo, hi);
            &&& arena_ok(out)
            &&& nodes(mid).submap_of(nodes(out))
            &&& renders(nodes(out), r, f, p)
        }),
{
    reveal(renders);
    let (out, r) = intern(mid, f[p].var, lo, hi);
    lemma_intern(mid, f[p].var, lo, hi);
    let t = tree(f, Ref::Node(p));
    assert(t == Bdd::Branch {
        var: f[p].var,
        lo: Box::new(tree(f, f[p].lo)),
        hi: Box::new(tree(f, f[p].hi)),
    }) by {
        reveal(closed);
    }
    assert forall|env: Env| #[trigger] eval(tree(nodes(out), r), env) == eval(t, env) by {
        assert(eval(tree(nodes(mid), lo), env) == eval(tree(f, f[p].lo), env));
        assert(eval(tree(nodes(mid), hi), env) == eval(tree(f, f[p].hi), env));
    }
}

/// Absorbing is sound.
pub proof fn law_absorb(buf: Seq<u8>, foreign: Seq<u8>, k: int)
    requires
        arena_ok(buf),
        parses(foreign),
        closed(nodes(foreign)),
        0 <= k <= starts(foreign).len(),
        absorbed(buf, nodes(foreign), starts(foreign).take(k)).0.len() <= u64::MAX,
    ensures
        absorbed_ok(buf, foreign, k),
    decreases k,
{
    let f = nodes(foreign);
    let all = starts(foreign);
    let (out, map) = absorbed(buf, f, all.take(k));
    assert(buf.take(buf.len() as int) =~= buf);
    if k > 0 {
        let p = all[k - 1];
        let n = f[p];
        assert(all.take(k).drop_last() =~= all.take(k - 1));
        let (mid, before) = absorbed(buf, f, all.take(k - 1));
        let lo = translated(before, n.lo);
        let hi = translated(before, n.hi);
        assert(all.take(k).last() == p);
        assert((out, map[p]) == intern(mid, n.var, lo, hi));
        lemma_intern_grows(mid, n.var, lo, hi);
        law_absorb(buf, foreign, k - 1);
        lemma_absorbed_child(buf, foreign, k - 1, n.lo);
        lemma_absorbed_child(buf, foreign, k - 1, n.hi);
        assert(f.dom().contains(p));
        lemma_node_at(foreign, p);
        lemma_absorbed_node(mid, f, p, lo, hi);
        lemma_extends_trans(buf, mid, out);
        assert forall|i: int| 0 <= i < k implies map.dom().contains(#[trigger] all[i]) && renders(
            nodes(out),
            map[all[i]],
            f,
            all[i],
        ) by {
            if i < k - 1 {
                let o = all[i];
                lemma_starts_from(foreign, 0);
                assert(starts_from(foreign, 0)[i] < starts_from(foreign, 0)[k - 1]);
                assert(map[o] == before[o]);
                lemma_renders_submap(nodes(mid), nodes(out), map[o], f, o);
            }
        }
    }
}

/// Absorbing the same dump again, in the arena that came out or in any later one,
/// gives the same references and adds nothing: what both have is shared.
pub proof fn law_absorb_again(buf: Seq<u8>, foreign: Seq<u8>, k: int, later: Seq<u8>)
    requires
        arena_ok(buf),
        parses(foreign),
        closed(nodes(foreign)),
        0 <= k <= starts(foreign).len(),
        absorbed(buf, nodes(foreign), starts(foreign).take(k)).0.len() <= u64::MAX,
        arena_ok(later),
        extends(absorbed(buf, nodes(foreign), starts(foreign).take(k)).0, later),
    ensures
        absorbed(later, nodes(foreign), starts(foreign).take(k)) == (
            later,
            absorbed(buf, nodes(foreign), starts(foreign).take(k)).1,
        ),
    decreases k,
{
    let f = nodes(foreign);
    let all = starts(foreign);
    let (out, map) = absorbed(buf, f, all.take(k));
    if k > 0 {
        let p = all[k - 1];
        let n = f[p];
        assert(all.take(k).drop_last() =~= all.take(k - 1));
        assert(all.take(k).last() == p);
        let (mid, before) = absorbed(buf, f, all.take(k - 1));
        let lo = translated(before, n.lo);
        let hi = translated(before, n.hi);
        assert((out, map[p]) == intern(mid, n.var, lo, hi));
        lemma_intern_grows(mid, n.var, lo, hi);
        lemma_extends_trans(mid, out, later);
        law_absorb(buf, foreign, k - 1);
        law_absorb_again(buf, foreign, k - 1, later);
        lemma_absorbed_child(buf, foreign, k - 1, n.lo);
        lemma_absorbed_child(buf, foreign, k - 1, n.hi);
        assert(f.dom().contains(p));
        lemma_node_at(foreign, p);
        law_intern_again(mid, n.var, lo, hi, later);
    }
}

/// Absorbing adds nothing but the nodes absorbed: each node that is new is where one
/// of them went.
pub proof fn law_absorb_adds(buf: Seq<u8>, foreign: Seq<u8>, k: int, o: u64)
    requires
        arena_ok(buf),
        parses(foreign),
        closed(nodes(foreign)),
        0 <= k <= starts(foreign).len(),
        absorbed(buf, nodes(foreign), starts(foreign).take(k)).0.len() <= u64::MAX,
        nodes(absorbed(buf, nodes(foreign), starts(foreign).take(k)).0).dom().contains(o),
    ensures
        nodes(buf).dom().contains(o) || exists|i: int|
            0 <= i < k && absorbed(buf, nodes(foreign), starts(foreign).take(k)).1[
                #[trigger] starts(foreign)[i]
            ] == Ref::Node(o),
    decreases k,
{
    let f = nodes(foreign);
    let all = starts(foreign);
    let (out, map) = absorbed(buf, f, all.take(k));
    if k > 0 {
        let p = all[k - 1];
        let n = f[p];
        assert(all.take(k).drop_last() =~= all.take(k - 1));
        assert(all.take(k).last() == p);
        let (mid, before) = absorbed(buf, f, all.take(k - 1));
        let lo = translated(before, n.lo);
        let hi = translated(before, n.hi);
        assert((out, map[p]) == intern(mid, n.var, lo, hi));
        lemma_intern_grows(mid, n.var, lo, hi);
        law_absorb(buf, foreign, k - 1);
        lemma_absorbed_child(buf, foreign, k - 1, n.lo);
        lemma_absorbed_child(buf, foreign, k - 1, n.hi);
        assert(f.dom().contains(p));
        lemma_node_at(foreign, p);
        law_intern_adds(mid, n.var, lo, hi, o);
        if nodes(mid).dom().contains(o) {
            law_absorb_adds(buf, foreign, k - 1, o);
            if !nodes(buf).dom().contains(o) {
                let i = choose|i: int| 0 <= i < k - 1 && before[#[trigger] all[i]] == Ref::Node(o);
                lemma_starts_from(foreign, 0);
                assert(starts_from(foreign, 0)[i] < starts_from(foreign, 0)[k - 1]);
                assert(map[all[i]] == before[all[i]]);
            }
        } else {
            assert(map[all[k - 1]] == Ref::Node(o));
        }
    }
}

/// A foreign arena without equal nodes is absorbed tree by tree.
pub proof fn law_absorb_trees(buf: Seq<u8>, foreign: Seq<u8>, i: int)
    requires
        arena_ok(buf),
        arena_ok(foreign),
        0 <= i < starts(foreign).len(),
        absorbed(buf, nodes(foreign), starts(foreign)).0.len() <= u64::MAX,
    ensures
        ({
            let (out, map) = absorbed(buf, nodes(foreign), starts(foreign));
            let o = starts(foreign)[i];
            tree(nodes(out), map[o]) == tree(nodes(foreign), Ref::Node(o))
        }),
{
    let f = nodes(foreign);
    let all = starts(foreign);
    let (out, map) = absorbed(buf, f, all);
    let o = all[i];
    assert(all.take(all.len() as int) =~= all);
    law_absorb(buf, foreign, all.len() as int);
    assert(f.dom().contains(o));
    assert(renders(nodes(out), map[o], f, o));
    reveal(renders);
    lemma_tree_ordered(nodes(out), map[o]);
    lemma_tree_reduced(nodes(out), map[o]);
    lemma_tree_ordered(f, Ref::Node(o));
    lemma_tree_reduced(f, Ref::Node(o));
    theorem_canonical(tree(nodes(out), map[o]), tree(f, Ref::Node(o)));
}

} // verus!
