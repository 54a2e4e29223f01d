//! Collecting the nodes that a set of roots needs, as a function on arenas.
//!
//! The nodes at offsets from `base` on are the tail. [`visit_roots`] lists the
//! tail nodes that the roots reach, children before parents, and [`relaid`] lays
//! them out anew behind the bytes before `base`.

use crate::arena::{
    arena_ok, boundary, child_ok, closed, extends, lemma_append, lemma_concat, lemma_cut,
    lemma_extends, lemma_insert_node, lemma_node_at, lemma_tree_injective, lemma_tree_ordered,
    lemma_tree_submap, nodes, parses, rank, read_node, ref_in, ref_level, starts, tree, unique,
};
use crate::codec::{lemma_node_min_len, node_bytes, node_fits, ref_below, Node, Ref};
use crate::memo::{enter_cost, lemma_enter_cost};
use std::collections::HashSet;
use vstd::prelude::*;

verus! {

// ---------------------------------------------------------------------------
// Reachability
// ---------------------------------------------------------------------------

/// The offsets of the nodes in the diagram of `r`.
pub open spec fn reach(s: Map<u64, Node>, r: Ref) -> Set<u64>
    decreases rank(r),
{
    match r {
        Ref::Terminal(_) => Set::empty(),
        Ref::Node(o) => if rank(s[o].lo) < rank(r) && rank(s[o].hi) < rank(r) {
            reach(s, s[o].lo).union(reach(s, s[o].hi)).insert(o)
        } else {
            Set::empty().insert(o)
        },
    }
}

/// Whether one of `roots` reaches `o`.
pub open spec fn reached(s: Map<u64, Node>, roots: Seq<Ref>, o: u64) -> bool {
    exists|i: int| 0 <= i < roots.len() && #[trigger] reach(s, roots[i]).contains(o)
}

/// Whether every node of the tail is reached by one of `roots`.
pub open spec fn clean(s: Map<u64, Node>, base: u64, roots: Seq<Ref>) -> bool {
    forall|o: u64| #[trigger] s.dom().contains(o) && o >= base ==> reached(s, roots, o)
}

/// What is reached is a node that does not stand behind the reference.
pub proof fn lemma_reach(s: Map<u64, Node>, r: Ref, x: u64)
    requires
        closed(s),
        ref_in(s, r),
        reach(s, r).contains(x),
    ensures
        s.dom().contains(x),
        x < rank(r),
    decreases rank(r),
{
    reveal(closed);
    if let Ref::Node(o) = r {
        assert(s.dom().contains(o));
        if x != o {
            if reach(s, s[o].lo).contains(x) {
                lemma_reach(s, s[o].lo, x);
            } else {
                lemma_reach(s, s[o].hi, x);
            }
        }
    }
}

/// A larger store reaches the same nodes.
pub proof fn lemma_reach_submap(s: Map<u64, Node>, s2: Map<u64, Node>, r: Ref)
    requires
        closed(s),
        ref_in(s, r),
        s.submap_of(s2),
    ensures
        reach(s2, r) == reach(s, r),
    decreases rank(r),
{
    reveal(closed);
    if let Ref::Node(o) = r {
        assert(s.dom().contains(o));
        assert(s2.dom().contains(o));
        lemma_reach_submap(s, s2, s[o].lo);
        lemma_reach_submap(s, s2, s[o].hi);
    }
}

// ---------------------------------------------------------------------------
// Post-order
// ---------------------------------------------------------------------------

/// Whether `r` is a tail node in front of `o`.
pub open spec fn young(base: u64, o: u64, r: Ref) -> bool {
    r matches Ref::Node(c) && base <= c < o
}

/// `order` with the tail nodes that `o` reaches behind it: those of the high
/// child, those of the low child, and `o` itself.
pub open spec fn visit(s: Map<u64, Node>, base: u64, o: u64, order: Seq<u64>) -> Seq<u64>
    decreases o,
{
    if order.contains(o) {
        order
    } else {
        let a = if young(base, o, s[o].hi) {
            visit(s, base, s[o].hi->Node_0, order)
        } else {
            order
        };
        let b = if young(base, o, s[o].lo) {
            visit(s, base, s[o].lo->Node_0, a)
        } else {
            a
        };
        b.push(o)
    }
}

/// The tail nodes that the roots reach, root after root.
pub open spec fn visit_roots(s: Map<u64, Node>, base: u64, roots: Seq<Ref>) -> Seq<u64>
    decreases roots.len(),
{
    if roots.len() == 0 {
        seq![]
    } else {
        let order = visit_roots(s, base, roots.drop_last());
        match roots.last() {
            Ref::Terminal(_) => order,
            Ref::Node(o) => if o >= base {
                visit(s, base, o, order)
            } else {
                order
            },
        }
    }
}

/// Whether `order` holds different tail nodes, each behind its tail children.
#[verifier::opaque]
pub open spec fn settled(s: Map<u64, Node>, base: u64, order: Seq<u64>) -> bool {
    &&& order.no_duplicates()
    &&& forall|i: int|
        0 <= i < order.len() ==> {
            let o = #[trigger] order[i];
            &&& s.dom().contains(o)
            &&& o >= base
            &&& young(base, o, s[o].lo) ==> order.take(i).contains(s[o].lo->Node_0)
            &&& young(base, o, s[o].hi) ==> order.take(i).contains(s[o].hi->Node_0)
        }
}

/// A settled order holds, with a node, all tail nodes that it reaches.
proof fn lemma_settled_reach(s: Map<u64, Node>, base: u64, order: Seq<u64>, o: u64, x: u64)
    requires
        closed(s),
        settled(s, base, order),
        order.contains(o),
        x >= base,
        reach(s, Ref::Node(o)).contains(x),
    ensures
        order.contains(x),
    decreases o,
{
    reveal(closed);
    reveal(settled);
    let i = choose|i: int| 0 <= i < order.len() && order[i] == o;
    assert(s.dom().contains(o));
    if x != o {
        let c = if reach(s, s[o].lo).contains(x) {
            s[o].lo
        } else {
            s[o].hi
        };
        lemma_reach(s, c, x);
        let k = c->Node_0;
        assert(young(base, o, c));
        let j = choose|j: int| 0 <= j < i && order.take(i)[j] == k;
        assert(order[j] == k);
        lemma_settled_reach(s, base, order, k, x);
    }
}

/// A settled order with another node, whose children are in it, at the end.
proof fn lemma_settled_push(s: Map<u64, Node>, base: u64, order: Seq<u64>, o: u64)
    requires
        settled(s, base, order),
        s.dom().contains(o),
        o >= base,
        !order.contains(o),
        young(base, o, s[o].lo) ==> order.contains(s[o].lo->Node_0),
        young(base, o, s[o].hi) ==> order.contains(s[o].hi->Node_0),
    ensures
        settled(s, base, order.push(o)),
{
    reveal(settled);
    let next = order.push(o);
    assert forall|i: int| 0 <= i < next.len() implies {
        let p = #[trigger] next[i];
        &&& s.dom().contains(p)
        &&& p >= base
        &&& young(base, p, s[p].lo) ==> next.take(i).contains(s[p].lo->Node_0)
        &&& young(base, p, s[p].hi) ==> next.take(i).contains(s[p].hi->Node_0)
    } by {
        if i < order.len() {
            assert(next[i] == order[i]);
            assert(next.take(i) =~= order.take(i));
        } else {
            assert(next.take(i) =~= order);
        }
    }
}

/// Visiting adds exactly the tail nodes that `o` reaches.
pub proof fn lemma_visit(s: Map<u64, Node>, base: u64, o: u64, order: Seq<u64>)
    requires
        closed(s),
        settled(s, base, order),
        s.dom().contains(o),
        o >= base,
    ensures
        settled(s, base, visit(s, base, o, order)),
        forall|x: u64| #[trigger]
            visit(s, base, o, order).contains(x) <==> order.contains(x) || (x >= base && reach(
                s,
                Ref::Node(o),
            ).contains(x)),
        order.len() <= visit(s, base, o, order).len(),
        visit(s, base, o, order).take(order.len() as int) == order,
    decreases o,
{
    reveal(closed);
    let out = visit(s, base, o, order);
    let me = reach(s, Ref::Node(o));
    if order.contains(o) {
        assert forall|x: u64| x >= base && me.contains(x) implies order.contains(x) by {
            lemma_settled_reach(s, base, order, o, x);
        }
        assert(order.take(order.len() as int) =~= order);
    } else {
        let n = s[o];
        assert(s.dom().contains(o));
        let a = if young(base, o, n.hi) {
            visit(s, base, n.hi->Node_0, order)
        } else {
            order
        };
        let b = if young(base, o, n.lo) {
            visit(s, base, n.lo->Node_0, a)
        } else {
            a
        };
        assert(out == b.push(o));
        if young(base, o, n.hi) {
            lemma_visit(s, base, n.hi->Node_0, order);
        }
        assert forall|x: u64| #[trigger] a.contains(x) <==> order.contains(x) || (x >= base
            && reach(s, n.hi).contains(x)) by {
            if !young(base, o, n.hi) && x >= base && reach(s, n.hi).contains(x) {
                lemma_reach(s, n.hi, x);
            }
        }
        assert(order.take(order.len() as int) =~= order);
        if young(base, o, n.lo) {
            lemma_visit(s, base, n.lo->Node_0, a);
        }
        assert(a.take(a.len() as int) =~= a);
        assert forall|x: u64| #[trigger] b.contains(x) <==> a.contains(x) || (x >= base && reach(
            s,
            n.lo,
        ).contains(x)) by {
            if !young(base, o, n.lo) && x >= base && reach(s, n.lo).contains(x) {
                lemma_reach(s, n.lo, x);
            }
        }
        if b.contains(o) {
            if reach(s, n.lo).contains(o) {
                lemma_reach(s, n.lo, o);
            } else if reach(s, n.hi).contains(o) {
                lemma_reach(s, n.hi, o);
            }
        }
        if young(base, o, n.lo) {
            assert(reach(s, n.lo).contains(n.lo->Node_0));
            assert(b.contains(n.lo->Node_0));
        }
        if young(base, o, n.hi) {
            assert(reach(s, n.hi).contains(n.hi->Node_0));
            assert(a.contains(n.hi->Node_0));
            assert(b.contains(n.hi->Node_0));
        }
        lemma_settled_push(s, base, b, o);
        assert(b.take(a.len() as int) =~= a);
        assert(a.take(order.len() as int) =~= order);
        assert(out.take(order.len() as int) =~= order);
        assert forall|x: u64| #[trigger] out.contains(x) <==> order.contains(x) || (x >= base
            && me.contains(x)) by {
            if out.contains(x) {
                let i = choose|i: int| 0 <= i < out.len() && out[i] == x;
                if i < b.len() {
                    assert(b[i] == x);
                    assert(b.contains(x));
                    assert(a.contains(x) || (x >= base && reach(s, n.lo).contains(x)));
                }
            } else {
                assert(out[b.len() as int] == o);
                if b.contains(x) {
                    let i = choose|i: int| 0 <= i < b.len() && b[i] == x;
                    assert(out[i] == x);
                }
                assert(!b.contains(x));
                assert(!a.contains(x));
            }
        }
    }
}

/// Whether all of `roots` are in `s`.
pub open spec fn roots_in(s: Map<u64, Node>, roots: Seq<Ref>) -> bool {
    forall|i: int| 0 <= i < roots.len() ==> ref_in(s, #[trigger] roots[i])
}

/// Visiting the roots gives exactly the tail nodes that they reach.
pub proof fn lemma_visit_roots(s: Map<u64, Node>, base: u64, roots: Seq<Ref>)
    requires
        closed(s),
        roots_in(s, roots),
    ensures
        settled(s, base, visit_roots(s, base, roots)),
        forall|x: u64| #[trigger]
            visit_roots(s, base, roots).contains(x) <==> x >= base && reached(s, roots, x),
    decreases roots.len(),
{
    if roots.len() == 0 {
        reveal(settled);
    } else {
        let head = roots.drop_last();
        let order = visit_roots(s, base, head);
        let out = visit_roots(s, base, roots);
        let last = roots.last();
        assert forall|i: int| 0 <= i < head.len() implies ref_in(s, #[trigger] head[i]) by {
            assert(ref_in(s, roots[i]));
        }
        lemma_visit_roots(s, base, head);
        assert(ref_in(s, roots[roots.len() - 1]));
        if let Ref::Node(o) = last {
            if o >= base {
                lemma_visit(s, base, o, order);
            }
        }
        assert forall|x: u64| #[trigger] out.contains(x) <==> x >= base && reached(
            s,
            roots,
            x,
        ) by {
            if out.contains(x) {
                if order.contains(x) {
                    let i = choose|i: int|
                        0 <= i < head.len() && #[trigger] reach(s, head[i]).contains(x);
                    assert(reach(s, roots[i]).contains(x));
                } else {
                    assert(reach(s, roots[roots.len() - 1]).contains(x));
                }
            }
            if x >= base && reached(s, roots, x) {
                let i = choose|i: int|
                    0 <= i < roots.len() && #[trigger] reach(s, roots[i]).contains(x);
                if i < head.len() {
                    assert(reach(s, head[i]).contains(x));
                    assert(order.contains(x));
                } else {
                    lemma_reach(s, last, x);
                }
            }
        }
    }
}

// ---------------------------------------------------------------------------
// The work stack
// ---------------------------------------------------------------------------

/// A piece of pending work: a node to be visited, or to be listed now that its
/// children have been.
#[derive(Copy, Clone)]
pub enum Visit {
    Enter(u64),
    Exit(u64),
}

pub open spec fn visit_cost(v: Visit) -> nat {
    match v {
        Visit::Enter(o) => enter_cost(o as nat + 1),
        Visit::Exit(_) => 1,
    }
}

/// A measure of the pending work, which decreases with every step.
pub open spec fn visits_cost(stack: Seq<Visit>) -> nat
    decreases stack.len(),
{
    if stack.len() == 0 {
        0
    } else {
        visits_cost(stack.drop_last()) + visit_cost(stack.last())
    }
}

pub proof fn lemma_visits_push(stack: Seq<Visit>, v: Visit)
    ensures
        visits_cost(stack.push(v)) == visits_cost(stack) + visit_cost(v),
{
    assert(stack.push(v).drop_last() =~= stack);
}

/// `stack` with `o` to be listed after its tail children, the high one first.
pub open spec fn opened(s: Map<u64, Node>, base: u64, stack: Seq<Visit>, o: u64) -> Seq<Visit> {
    let a = stack.push(Visit::Exit(o));
    let b = if young(base, o, s[o].lo) {
        a.push(Visit::Enter(s[o].lo->Node_0))
    } else {
        a
    };
    if young(base, o, s[o].hi) {
        b.push(Visit::Enter(s[o].hi->Node_0))
    } else {
        b
    }
}

/// Opening a node costs more than what it leaves to do.
pub proof fn lemma_opened_cost(s: Map<u64, Node>, base: u64, stack: Seq<Visit>, o: u64)
    ensures
        visits_cost(opened(s, base, stack, o)) < visits_cost(stack.push(Visit::Enter(o))),
{
    let a = stack.push(Visit::Exit(o));
    let lo = Visit::Enter(s[o].lo->Node_0);
    let hi = Visit::Enter(s[o].hi->Node_0);
    lemma_visits_push(stack, Visit::Enter(o));
    lemma_visits_push(stack, Visit::Exit(o));
    lemma_visits_push(a, lo);
    lemma_visits_push(a, hi);
    lemma_visits_push(a.push(lo), hi);
    if young(base, o, s[o].lo) {
        lemma_enter_cost(s[o].lo->Node_0 as nat + 1, o as nat + 1);
    }
    if young(base, o, s[o].hi) {
        lemma_enter_cost(s[o].hi->Node_0 as nat + 1, o as nat + 1);
    }
}

/// Works off `stack`, adding to `order`.
#[verifier::opaque]
pub open spec fn walk(
    s: Map<u64, Node>,
    base: u64,
    stack: Seq<Visit>,
    order: Seq<u64>,
) -> Seq<u64>
    decreases visits_cost(stack),
    via walk_decreases
{
    if stack.len() == 0 {
        order
    } else {
        let rest = stack.drop_last();
        match stack.last() {
            Visit::Enter(o) => if order.contains(o) {
                walk(s, base, rest, order)
            } else {
                walk(s, base, opened(s, base, rest, o), order)
            },
            Visit::Exit(o) => walk(s, base, rest, order.push(o)),
        }
    }
}

#[via_fn]
proof fn walk_decreases(s: Map<u64, Node>, base: u64, stack: Seq<Visit>, order: Seq<u64>) {
    if stack.len() > 0 {
        let rest = stack.drop_last();
        assert(rest.push(stack.last()) =~= stack);
        if let Visit::Enter(o) = stack.last() {
            lemma_opened_cost(s, base, rest, o);
        }
    }
}

/// One step: a node on top of the stack.
pub proof fn lemma_walk_enter(
    s: Map<u64, Node>,
    base: u64,
    stack: Seq<Visit>,
    order: Seq<u64>,
    o: u64,
)
    ensures
        walk(s, base, stack.push(Visit::Enter(o)), order) == if order.contains(o) {
            walk(s, base, stack, order)
        } else {
            walk(s, base, opened(s, base, stack, o), order)
        },
{
    reveal(walk);
    assert(stack.push(Visit::Enter(o)).drop_last() =~= stack);
}

/// One step: a node to be listed on top of the stack.
pub proof fn lemma_walk_exit(
    s: Map<u64, Node>,
    base: u64,
    stack: Seq<Visit>,
    order: Seq<u64>,
    o: u64,
)
    ensures
        walk(s, base, stack.push(Visit::Exit(o)), order) == walk(s, base, stack, order.push(o)),
{
    reveal(walk);
    assert(stack.push(Visit::Exit(o)).drop_last() =~= stack);
}

/// An empty stack: the walk is over.
pub proof fn lemma_walk_empty(s: Map<u64, Node>, base: u64, order: Seq<u64>)
    ensures
        walk(s, base, seq![], order) == order,
{
    reveal(walk);
}

/// Working off a node on top of the stack is visiting it.
pub proof fn lemma_walk_visit(
    s: Map<u64, Node>,
    base: u64,
    stack: Seq<Visit>,
    order: Seq<u64>,
    o: u64,
)
    ensures
        walk(s, base, stack.push(Visit::Enter(o)), order) == walk(
            s,
            base,
            stack,
            visit(s, base, o, order),
        ),
    decreases o,
{
    lemma_walk_enter(s, base, stack, order, o);
    if !order.contains(o) {
        let n = s[o];
        let a = if young(base, o, n.hi) {
            visit(s, base, n.hi->Node_0, order)
        } else {
            order
        };
        let b = if young(base, o, n.lo) {
            visit(s, base, n.lo->Node_0, a)
        } else {
            a
        };
        let exit = stack.push(Visit::Exit(o));
        let low = if young(base, o, n.lo) {
            exit.push(Visit::Enter(n.lo->Node_0))
        } else {
            exit
        };
        if young(base, o, n.hi) {
            lemma_walk_visit(s, base, low, order, n.hi->Node_0);
        }
        if young(base, o, n.lo) {
            lemma_walk_visit(s, base, exit, a, n.lo->Node_0);
        }
        lemma_walk_exit(s, base, stack, b, o);
    }
}

// ---------------------------------------------------------------------------
// The new layout
// ---------------------------------------------------------------------------

/// Where `r` stands in the new layout: tail nodes where `map` says, all else
/// where it was.
pub open spec fn moved(map: Map<u64, Ref>, base: u64, r: Ref) -> Ref {
    match r {
        Ref::Terminal(_) => r,
        Ref::Node(o) => if o < base {
            r
        } else {
            map[o]
        },
    }
}

/// Node `n` with its children where they stand in the new layout.
pub open spec fn moved_node(map: Map<u64, Ref>, base: u64, n: Node) -> Node {
    Node { var: n.var, lo: moved(map, base, n.lo), hi: moved(map, base, n.hi) }
}

/// The nodes of `order` laid out behind `head`, and where each of them went.
pub open spec fn relaid(
    s: Map<u64, Node>,
    base: u64,
    head: Seq<u8>,
    order: Seq<u64>,
) -> (Seq<u8>, Map<u64, Ref>)
    decreases order.len(),
{
    if order.len() == 0 {
        (head, Map::empty())
    } else {
        let (buf, map) = relaid(s, base, head, order.drop_last());
        let o = order.last();
        (
            buf + node_bytes(moved_node(map, base, s[o]), buf.len() as u64),
            map.insert(o, Ref::Node(buf.len() as u64)),
        )
    }
}

/// The arena that is left when only what `roots` reach is kept of the tail, and
/// where the roots went.
pub open spec fn collected(buf: Seq<u8>, base: u64, roots: Seq<Ref>) -> (Seq<u8>, Seq<Ref>) {
    let s = nodes(buf);
    let (out, map) = relaid(s, base, buf.take(base as int), visit_roots(s, base, roots));
    (out, roots.map_values(|r: Ref| moved(map, base, r)))
}

/// What holds of a new layout of the nodes in `order`.
#[verifier::opaque]
pub open spec fn layout_ok(
    s: Map<u64, Node>,
    base: u64,
    head: Seq<u8>,
    order: Seq<u64>,
    out: Seq<u8>,
    map: Map<u64, Ref>,
) -> bool {
    let t = nodes(out);
    &&& arena_ok(out)
    &&& extends(head, out)
    &&& starts(out).len() == starts(head).len() + order.len()
    &&& map.dom() == order.to_set()
    &&& forall|o: u64| #[trigger]
        order.contains(o) ==> {
            &&& map[o] matches Ref::Node(k) && k >= base && t.dom().contains(k) && t[k]
                == moved_node(map, base, s[o])
            &&& tree(t, map[o]) == tree(s, Ref::Node(o))
        }
    &&& forall|k: u64| #[trigger]
        t.dom().contains(k) && k >= base ==> exists|o: u64| #[trigger]
            order.contains(o) && map[o] == Ref::Node(k)
}

/// The empty layout.
pub proof fn lemma_layout_empty(buf: Seq<u8>, base: u64)
    requires
        arena_ok(buf),
        boundary(buf, base as int),
    ensures
        arena_ok(buf.take(base as int)),
        layout_ok(
            nodes(buf),
            base,
            buf.take(base as int),
            seq![],
            buf.take(base as int),
            Map::empty(),
        ),
{
    reveal(layout_ok);
    let head = buf.take(base as int);
    lemma_cut(buf, base as nat);
    lemma_head_ok(buf, base);
    assert(head.take(head.len() as int) =~= head);
    assert(Map::<u64, Ref>::empty().dom() =~= Seq::<u64>::empty().to_set());
    assert forall|k: u64| #[trigger] nodes(head).dom().contains(k) implies k < base by {
        lemma_node_at(head, k);
    }
}

/// The arena before a node boundary is sound by itself.
pub proof fn lemma_head_ok(buf: Seq<u8>, base: u64)
    requires
        arena_ok(buf),
        boundary(buf, base as int),
    ensures
        arena_ok(buf.take(base as int)),
        extends(buf.take(base as int), buf),
{
    reveal(closed);
    reveal(unique);
    lemma_cut(buf, base as nat);
    let head = buf.take(base as int);
    let s = nodes(buf);
    let t = nodes(head);
    assert forall|o: u64| #[trigger] t.dom().contains(o) implies child_ok(
        t,
        o,
        t[o].var,
        t[o].lo,
    ) && child_ok(t, o, t[o].var, t[o].hi) && t[o].lo != t[o].hi by {
        assert(s.dom().contains(o));
        lemma_node_at(head, o);
        if let Ref::Node(c) = t[o].lo {
            assert(s.dom().contains(c));
            assert(t.dom().contains(c));
        }
        if let Ref::Node(c) = t[o].hi {
            assert(s.dom().contains(c));
            assert(t.dom().contains(c));
        }
    }
    assert forall|a: u64, b: u64|
        #[trigger] t.dom().contains(a) && #[trigger] t.dom().contains(b) && t[a] == t[b] implies a
        == b by {
        assert(s.dom().contains(a));
        assert(s.dom().contains(b));
    }
}

/// What a reference of the old arena, with its tail nodes laid out, becomes.
proof fn lemma_moved(
    s: Map<u64, Node>,
    base: u64,
    head: Seq<u8>,
    order: Seq<u64>,
    out: Seq<u8>,
    map: Map<u64, Ref>,
    r: Ref,
)
    requires
        closed(s),
        arena_ok(head),
        nodes(head).submap_of(s),
        forall|o: u64| #[trigger] s.dom().contains(o) && o < base ==> nodes(head).dom().contains(o),
        layout_ok(s, base, head, order, out, map),
        ref_in(s, r),
        r matches Ref::Node(o) ==> o < base || order.contains(o),
    ensures
        ref_in(nodes(out), moved(map, base, r)),
        tree(nodes(out), moved(map, base, r)) == tree(s, r),
        ref_level(nodes(out), moved(map, base, r)) == ref_level(s, r),
{
    reveal(layout_ok);
    if let Ref::Node(o) = r {
        if o < base {
            lemma_extends(head, out);
            assert(nodes(head).dom().contains(o));
            lemma_tree_submap(nodes(head), nodes(out), r);
            lemma_tree_submap(nodes(head), s, r);
        } else {
            assert(order.contains(o));
            lemma_tree_ordered(s, r);
            lemma_tree_ordered(nodes(out), map[o]);
        }
    }
}

/// Laying out one more node.
pub proof fn lemma_layout_push(
    s: Map<u64, Node>,
    base: u64,
    head: Seq<u8>,
    order: Seq<u64>,
    out: Seq<u8>,
    map: Map<u64, Ref>,
    o: u64,
)
    requires
        closed(s),
        unique(s),
        arena_ok(head),
        head.len() == base,
        nodes(head).submap_of(s),
        forall|p: u64| #[trigger] s.dom().contains(p) && p < base ==> nodes(head).dom().contains(p),
        forall|p: u64| #[trigger] s.dom().contains(p) ==> s[p].var < 256,
        settled(s, base, order.push(o)),
        layout_ok(s, base, head, order, out, map),
        (out + node_bytes(moved_node(map, base, s[o]), out.len() as u64)).len() <= u64::MAX,
    ensures
        node_fits(moved_node(map, base, s[o]), out.len() as u64),
        layout_ok(
            s,
            base,
            head,
            order.push(o),
            out + node_bytes(moved_node(map, base, s[o]), out.len() as u64),
            map.insert(o, Ref::Node(out.len() as u64)),
        ),
{
    let next = order.push(o);
    let n = moved_node(map, base, s[o]);
    let off = out.len() as u64;
    let out2 = out + node_bytes(n, off);
    let map2 = map.insert(o, Ref::Node(off));
    let t = nodes(out);
    let t2 = nodes(out2);
    lemma_node_min_len(n, off);
    lemma_next(s, base, order, o);
    lemma_layout_facts(s, base, head, order, out, map);
    assert(s.dom().contains(o));
    assert(ref_in(s, s[o].lo) && ref_in(s, s[o].hi) && ref_level(s, s[o].lo) > s[o].var
        && ref_level(s, s[o].hi) > s[o].var && s[o].lo != s[o].hi) by {
        reveal(closed);
        reveal(unique);
    }
    lemma_moved(s, base, head, order, out, map, s[o].lo);
    lemma_moved(s, base, head, order, out, map, s[o].hi);
    assert(n.lo != n.hi) by {
        if n.lo == n.hi {
            lemma_tree_injective(s, s[o].lo, s[o].hi);
        }
    }
    assert forall|k: u64| #[trigger] t.dom().contains(k) implies k < off by {
        lemma_node_at(out, k);
    }
    if let Ref::Node(k) = n.lo {
        assert(t.dom().contains(k));
    }
    if let Ref::Node(k) = n.hi {
        assert(t.dom().contains(k));
    }
    lemma_append(out, n);
    assert forall|k: u64| #[trigger] t.dom().contains(k) implies t[k] != n by {
        lemma_no_twin(s, base, head, order, out, map, o, k);
    }
    lemma_insert_node(t, off, n);
    lemma_layout_pushed(s, base, head, order, out, map, o);
}

/// The next node of a settled order: new, in the tail, with its tail children in
/// front of it.
proof fn lemma_next(s: Map<u64, Node>, base: u64, order: Seq<u64>, o: u64)
    requires
        closed(s),
        settled(s, base, order.push(o)),
    ensures
        s.dom().contains(o),
        o >= base,
        !order.contains(o),
        s[o].lo matches Ref::Node(c) ==> c < base || order.contains(c),
        s[o].hi matches Ref::Node(c) ==> c < base || order.contains(c),
{
    reveal(settled);
    reveal(closed);
    let next = order.push(o);
    assert(next[order.len() as int] == o);
    assert(next.take(order.len() as int) =~= order);
    if order.contains(o) {
        let i = choose|i: int| 0 <= i < order.len() && order[i] == o;
        assert(next[i] == next[order.len() as int]);
    }
}

/// What a layout says of the arena as a whole.
pub proof fn lemma_layout_facts(
    s: Map<u64, Node>,
    base: u64,
    head: Seq<u8>,
    order: Seq<u64>,
    out: Seq<u8>,
    map: Map<u64, Ref>,
)
    requires
        layout_ok(s, base, head, order, out, map),
    ensures
        arena_ok(out),
        extends(head, out),
        starts(out).len() == starts(head).len() + order.len(),
        forall|o: u64| map.dom().contains(o) <==> order.contains(o),
{
    reveal(layout_ok);
}

/// No node of the new layout is equal to the next one.
proof fn lemma_no_twin(
    s: Map<u64, Node>,
    base: u64,
    head: Seq<u8>,
    order: Seq<u64>,
    out: Seq<u8>,
    map: Map<u64, Ref>,
    o: u64,
    k: u64,
)
    requires
        closed(s),
        unique(s),
        arena_ok(head),
        nodes(head).submap_of(s),
        forall|p: u64| #[trigger] s.dom().contains(p) && p < base ==> nodes(head).dom().contains(p),
        head.len() == base,
        settled(s, base, order.push(o)),
        layout_ok(s, base, head, order, out, map),
        nodes(out).dom().contains(k),
    ensures
        nodes(out)[k] != moved_node(map, base, s[o]),
{
    if nodes(out)[k] == moved_node(map, base, s[o]) {
        lemma_next(s, base, order, o);
        lemma_twin(s, base, head, order, out, map, o, k);
    }
}

/// A node of the new layout that is equal to the next one would be it already.
proof fn lemma_twin(
    s: Map<u64, Node>,
    base: u64,
    head: Seq<u8>,
    order: Seq<u64>,
    out: Seq<u8>,
    map: Map<u64, Ref>,
    o: u64,
    k: u64,
)
    requires
        closed(s),
        unique(s),
        arena_ok(head),
        nodes(head).submap_of(s),
        forall|p: u64| #[trigger] s.dom().contains(p) && p < base ==> nodes(head).dom().contains(p),
        head.len() == base,
        settled(s, base, order.push(o)),
        layout_ok(s, base, head, order, out, map),
        nodes(out).dom().contains(k),
        nodes(out)[k] == moved_node(map, base, s[o]),
    ensures
        k >= base,
        order.contains(o),
{
    let t = nodes(out);
    lemma_next(s, base, order, o);
    lemma_layout_facts(s, base, head, order, out, map);
    assert(ref_in(s, s[o].lo) && ref_in(s, s[o].hi) && rank(s[o].lo) <= o && rank(s[o].hi) <= o) by {
        reveal(closed);
    }
    lemma_moved(s, base, head, order, out, map, s[o].lo);
    lemma_moved(s, base, head, order, out, map, s[o].hi);
    assert(tree(t, Ref::Node(k)) == tree(s, Ref::Node(o))) by {
        reveal(closed);
    }
    if k < base {
        lemma_extends(head, out);
        assert(nodes(head).dom().contains(k)) by {
            assert(head + out.skip(head.len() as int) =~= out);
            lemma_concat(head, out.skip(head.len() as int));
        }
        assert(s.dom().contains(k));
        lemma_tree_submap(nodes(head), t, Ref::Node(k));
        lemma_tree_submap(nodes(head), s, Ref::Node(k));
        lemma_tree_injective(s, Ref::Node(k), Ref::Node(o));
    } else {
        reveal(layout_ok);
        let p = choose|p: u64| #[trigger] order.contains(p) && map[p] == Ref::Node(k);
        assert(s.dom().contains(p)) by {
            reveal(settled);
            let i = choose|i: int| 0 <= i < order.len() && order[i] == p;
            assert(order.push(o)[i] == p);
        }
        lemma_tree_injective(s, Ref::Node(p), Ref::Node(o));
    }
}

/// The clauses of the longer layout.
proof fn lemma_layout_pushed(
    s: Map<u64, Node>,
    base: u64,
    head: Seq<u8>,
    order: Seq<u64>,
    out: Seq<u8>,
    map: Map<u64, Ref>,
    o: u64,
)
    requires
        closed(s),
        arena_ok(head),
        head.len() == base,
        nodes(head).submap_of(s),
        forall|p: u64| #[trigger] s.dom().contains(p) && p < base ==> nodes(head).dom().contains(p),
        settled(s, base, order.push(o)),
        layout_ok(s, base, head, order, out, map),
        node_fits(moved_node(map, base, s[o]), out.len() as u64),
        (out + node_bytes(moved_node(map, base, s[o]), out.len() as u64)).len() <= u64::MAX,
        closed(nodes(out).insert(out.len() as u64, moved_node(map, base, s[o]))),
        unique(nodes(out).insert(out.len() as u64, moved_node(map, base, s[o]))),
    ensures
        layout_ok(
            s,
            base,
            head,
            order.push(o),
            out + node_bytes(moved_node(map, base, s[o]), out.len() as u64),
            map.insert(o, Ref::Node(out.len() as u64)),
        ),
{
    let next = order.push(o);
    let n = moved_node(map, base, s[o]);
    let off = out.len() as u64;
    let out2 = out + node_bytes(n, off);
    let map2 = map.insert(o, Ref::Node(off));
    let t = nodes(out);
    let t2 = nodes(out2);
    lemma_next(s, base, order, o);
    lemma_layout_facts(s, base, head, order, out, map);
    lemma_append(out, n);
    assert(ref_in(s, s[o].lo) && ref_in(s, s[o].hi) && rank(s[o].lo) <= o && rank(s[o].hi) <= o) by {
        reveal(closed);
    }
    lemma_moved(s, base, head, order, out, map, s[o].lo);
    lemma_moved(s, base, head, order, out, map, s[o].hi);
    assert(t.submap_of(t2));
    lemma_tree_submap(t, t2, n.lo);
    lemma_tree_submap(t, t2, n.hi);
    assert(extends(head, out2)) by {
        assert(out2.take(head.len() as int) =~= out.take(head.len() as int));
    }
    reveal(layout_ok);
    assert(map2.dom() =~= next.to_set()) by {
        assert forall|p: u64| map2.dom().contains(p) <==> next.to_set().contains(p) by {
            if p == o {
                assert(next[order.len() as int] == o);
            } else if order.contains(p) {
                let i = choose|i: int| 0 <= i < order.len() && order[i] == p;
                assert(next[i] == p);
            } else if next.contains(p) {
                let i = choose|i: int| 0 <= i < next.len() && next[i] == p;
                assert(order[i] == p);
            }
        }
    }
    assert forall|p: u64| #[trigger] next.contains(p) implies {
        &&& map2[p] matches Ref::Node(k) && k >= base && t2.dom().contains(k) && t2[k]
            == moved_node(map2, base, s[p])
        &&& tree(t2, map2[p]) == tree(s, Ref::Node(p))
    } by {
        let i = choose|i: int| 0 <= i < next.len() && next[i] == p;
        assert(moved_node(map2, base, s[p]) == moved_node(map, base, s[p])) by {
            lemma_children_before(s, base, order, o, i);
        }
        if p == o {
            assert(tree(t2, Ref::Node(off)) == tree(s, Ref::Node(o))) by {
                reveal(closed);
            }
        } else {
            assert(order[i] == p);
            assert(order.contains(p));
            lemma_tree_submap(t, t2, map[p]);
        }
    }
    assert forall|k: u64| #[trigger] t2.dom().contains(k) && k >= base implies exists|p: u64|
        #[trigger] next.contains(p) && map2[p] == Ref::Node(k) by {
        if k == off {
            assert(next[order.len() as int] == o);
            assert(next.contains(o) && map2[o] == Ref::Node(k));
        } else {
            assert(t.dom().contains(k));
            let p = choose|p: u64| #[trigger] order.contains(p) && map[p] == Ref::Node(k);
            let i = choose|i: int| 0 <= i < order.len() && order[i] == p;
            assert(next[i] == p);
            assert(next.contains(p) && map2[p] == Ref::Node(k));
        }
    }
}

/// No node of a settled order has the last one as a child.
proof fn lemma_children_before(s: Map<u64, Node>, base: u64, order: Seq<u64>, o: u64, i: int)
    requires
        closed(s),
        settled(s, base, order.push(o)),
        0 <= i <= order.len(),
    ensures
        s[order.push(o)[i]].lo != Ref::Node(o),
        s[order.push(o)[i]].hi != Ref::Node(o),
{
    reveal(settled);
    reveal(closed);
    let next = order.push(o);
    let p = next[i];
    assert(s.dom().contains(p));
    assert(next[order.len() as int] == o);
    if s[p].lo == Ref::Node(o) || s[p].hi == Ref::Node(o) {
        assert(next.take(i).contains(o));
        let j = choose|j: int| 0 <= j < i && next.take(i)[j] == o;
        assert(next[j] == next[order.len() as int]);
    }
}

/// A settled order without its last node is settled.
pub proof fn lemma_settled_prefix(s: Map<u64, Node>, base: u64, order: Seq<u64>, k: int)
    requires
        settled(s, base, order),
        0 <= k <= order.len(),
    ensures
        settled(s, base, order.take(k)),
{
    reveal(settled);
    let head = order.take(k);
    assert forall|i: int| 0 <= i < head.len() implies {
        let o = #[trigger] head[i];
        &&& s.dom().contains(o)
        &&& o >= base
        &&& young(base, o, s[o].lo) ==> head.take(i).contains(s[o].lo->Node_0)
        &&& young(base, o, s[o].hi) ==> head.take(i).contains(s[o].hi->Node_0)
    } by {
        assert(head[i] == order[i]);
        assert(head.take(i) =~= order.take(i));
    }
}

/// The new layout of a settled order is sound.
pub proof fn lemma_relaid(buf: Seq<u8>, base: u64, order: Seq<u64>)
    requires
        arena_ok(buf),
        boundary(buf, base as int),
        settled(nodes(buf), base, order),
        relaid(nodes(buf), base, buf.take(base as int), order).0.len() <= u64::MAX,
    ensures
        ({
            let head = buf.take(base as int);
            let (out, map) = relaid(nodes(buf), base, head, order);
            layout_ok(nodes(buf), base, head, order, out, map)
        }),
    decreases order.len(),
{
    let s = nodes(buf);
    let head = buf.take(base as int);
    if order.len() == 0 {
        lemma_layout_empty(buf, base);
        assert(order =~= seq![]);
    } else {
        let before = order.drop_last();
        let o = order.last();
        lemma_settled_prefix(s, base, order, order.len() - 1);
        assert(before =~= order.take(order.len() - 1));
        lemma_relaid(buf, base, before);
        let (out, map) = relaid(s, base, head, before);
        lemma_tail_setting(buf, base);
        assert(before.push(o) =~= order);
        lemma_layout_push(s, base, head, before, out, map, o);
    }
}

/// What the lemmas on layouts need to know of the arena that is collected.
pub proof fn lemma_tail_setting(buf: Seq<u8>, base: u64)
    requires
        arena_ok(buf),
        boundary(buf, base as int),
    ensures
        arena_ok(buf.take(base as int)),
        buf.take(base as int).len() == base,
        nodes(buf.take(base as int)).submap_of(nodes(buf)),
        forall|p: u64| #[trigger]
            nodes(buf).dom().contains(p) && p < base ==> nodes(
                buf.take(base as int),
            ).dom().contains(p),
        forall|p: u64| #[trigger] nodes(buf).dom().contains(p) ==> nodes(buf)[p].var < 256,
{
    lemma_cut(buf, base as nat);
    lemma_head_ok(buf, base);
    assert forall|p: u64| #[trigger] nodes(buf).dom().contains(p) implies nodes(buf)[p].var
        < 256 by {
        lemma_node_at(buf, p);
    }
}

/// The children of the next node stand before it in the new layout.
pub proof fn lemma_relaid_children(buf: Seq<u8>, base: u64, order: Seq<u64>, o: u64)
    requires
        arena_ok(buf),
        boundary(buf, base as int),
        settled(nodes(buf), base, order.push(o)),
        relaid(nodes(buf), base, buf.take(base as int), order).0.len() <= u64::MAX,
    ensures
        ({
            let (out, map) = relaid(nodes(buf), base, buf.take(base as int), order);
            let n = moved_node(map, base, nodes(buf)[o]);
            &&& nodes(buf).dom().contains(o)
            &&& o >= base
            &&& nodes(buf)[o].var < 256
            &&& ref_below(n.lo, out.len())
            &&& ref_below(n.hi, out.len())
            &&& nodes(buf)[o].lo matches Ref::Node(c) ==> c < base || map.dom().contains(c)
            &&& nodes(buf)[o].hi matches Ref::Node(c) ==> c < base || map.dom().contains(c)
        }),
{
    let s = nodes(buf);
    let head = buf.take(base as int);
    let (out, map) = relaid(s, base, head, order);
    lemma_settled_prefix(s, base, order.push(o), order.len() as int);
    assert(order.push(o).take(order.len() as int) =~= order);
    lemma_relaid(buf, base, order);
    lemma_tail_setting(buf, base);
    lemma_next(s, base, order, o);
    lemma_layout_facts(s, base, head, order, out, map);
    assert(ref_in(s, s[o].lo) && ref_in(s, s[o].hi)) by {
        reveal(closed);
    }
    lemma_moved(s, base, head, order, out, map, s[o].lo);
    lemma_moved(s, base, head, order, out, map, s[o].hi);
    let n = moved_node(map, base, s[o]);
    if let Ref::Node(k) = n.lo {
        lemma_node_at(out, k);
    }
    if let Ref::Node(k) = n.hi {
        lemma_node_at(out, k);
    }
}

/// What a reference reached in the tail, it reaches in the new layout.
proof fn lemma_reach_moved(
    s: Map<u64, Node>,
    base: u64,
    head: Seq<u8>,
    order: Seq<u64>,
    out: Seq<u8>,
    map: Map<u64, Ref>,
    r: Ref,
    x: u64,
)
    requires
        closed(s),
        ref_in(s, r),
        settled(s, base, order),
        layout_ok(s, base, head, order, out, map),
        r matches Ref::Node(o) ==> o < base || order.contains(o),
        reach(s, r).contains(x),
        x >= base,
    ensures
        order.contains(x),
        reach(nodes(out), moved(map, base, r)).contains(map[x]->Node_0),
    decreases rank(r),
{
    lemma_reach(s, r, x);
    let o = r->Node_0;
    lemma_settled_reach(s, base, order, o, x);
    lemma_layout_facts(s, base, head, order, out, map);
    let t = nodes(out);
    assert(t.dom().contains(map[o]->Node_0) && t[map[o]->Node_0] == moved_node(map, base, s[o])
        && map[o] is Node) by {
        reveal(layout_ok);
    }
    let k = map[o]->Node_0;
    assert(rank(t[k].lo) < rank(map[o]) && rank(t[k].hi) < rank(map[o])) by {
        reveal(closed);
    }
    assert(ref_in(s, s[o].lo) && ref_in(s, s[o].hi) && rank(s[o].lo) < rank(r) && rank(s[o].hi)
        < rank(r)) by {
        reveal(closed);
    }
    if x != o {
        let c = if reach(s, s[o].lo).contains(x) {
            s[o].lo
        } else {
            s[o].hi
        };
        lemma_reach(s, c, x);
        assert(reach(s, Ref::Node(c->Node_0)).contains(c->Node_0));
        assert(reach(s, r).contains(c->Node_0));
        lemma_settled_reach(s, base, order, o, c->Node_0);
        lemma_reach_moved(s, base, head, order, out, map, c, x);
    }
}

/// **Collecting.** The base is untouched, the roots keep their trees, the arena
/// is sound, and all of its tail is reached by the roots.
pub proof fn theorem_collected(buf: Seq<u8>, base: u64, roots: Seq<Ref>)
    requires
        arena_ok(buf),
        boundary(buf, base as int),
        roots_in(nodes(buf), roots),
        collected(buf, base, roots).0.len() <= u64::MAX,
    ensures
        ({
            let (out, kept) = collected(buf, base, roots);
            &&& arena_ok(out)
            &&& extends(buf.take(base as int), out)
            &&& kept.len() == roots.len()
            &&& roots_in(nodes(out), kept)
            &&& forall|i: int|
                0 <= i < roots.len() ==> tree(nodes(out), #[trigger] kept[i]) == tree(
                    nodes(buf),
                    roots[i],
                )
            &&& clean(nodes(out), base, kept)
            &&& starts(out).len() == starts(buf.take(base as int)).len() + visit_roots(
                nodes(buf),
                base,
                roots,
            ).len()
        }),
{
    let s = nodes(buf);
    let head = buf.take(base as int);
    let order = visit_roots(s, base, roots);
    let (out, map) = relaid(s, base, head, order);
    let kept = collected(buf, base, roots).1;
    lemma_visit_roots(s, base, roots);
    lemma_relaid(buf, base, order);
    lemma_layout_facts(s, base, head, order, out, map);
    lemma_tail_setting(buf, base);
    assert forall|i: int| 0 <= i < roots.len() implies ref_in(nodes(out), #[trigger] kept[i])
        && tree(nodes(out), kept[i]) == tree(s, roots[i]) by {
        lemma_root_listed(s, base, roots, i);
        lemma_moved(s, base, head, order, out, map, roots[i]);
    }
    assert forall|k: u64| #[trigger] nodes(out).dom().contains(k) && k >= base implies reached(
        nodes(out),
        kept,
        k,
    ) by {
        reveal(layout_ok);
        let o = choose|o: u64| #[trigger] order.contains(o) && map[o] == Ref::Node(k);
        let i = choose|i: int| 0 <= i < roots.len() && #[trigger] reach(s, roots[i]).contains(o);
        assert(ref_in(s, roots[i]));
        lemma_root_listed(s, base, roots, i);
        lemma_reach_moved(s, base, head, order, out, map, roots[i], o);
        assert(reach(nodes(out), kept[i]).contains(k));
    }
}

// ---------------------------------------------------------------------------
// Collecting again
// ---------------------------------------------------------------------------

/// Where the nodes of `order` stand in the new layout.
pub open spec fn landed(map: Map<u64, Ref>, order: Seq<u64>) -> Seq<u64> {
    order.map_values(|o: u64| map[o]->Node_0)
}

/// The layout in which every node of `order` stays where it is.
pub open spec fn staying(order: Seq<u64>) -> Map<u64, Ref> {
    Map::new(|o: u64| order.contains(o), |o: u64| Ref::Node(o))
}

/// What a layout says of one of its nodes.
proof fn lemma_layout_node(
    s: Map<u64, Node>,
    base: u64,
    head: Seq<u8>,
    order: Seq<u64>,
    out: Seq<u8>,
    map: Map<u64, Ref>,
    o: u64,
)
    requires
        layout_ok(s, base, head, order, out, map),
        order.contains(o),
    ensures
        map[o] is Node,
        map[o]->Node_0 >= base,
        nodes(out).dom().contains(map[o]->Node_0),
        nodes(out)[map[o]->Node_0] == moved_node(map, base, s[o]),
        tree(nodes(out), map[o]) == tree(s, Ref::Node(o)),
{
    reveal(layout_ok);
}

/// What a settled order says of one of its nodes.
proof fn lemma_settled_node(s: Map<u64, Node>, base: u64, order: Seq<u64>, i: int)
    requires
        closed(s),
        settled(s, base, order),
        0 <= i < order.len(),
    ensures
        s.dom().contains(order[i]),
        order[i] >= base,
        !order.take(i).contains(order[i]),
        s[order[i]].lo matches Ref::Node(c) ==> c < order[i] && (c < base || order.take(
            i,
        ).contains(c)),
        s[order[i]].hi matches Ref::Node(c) ==> c < order[i] && (c < base || order.take(
            i,
        ).contains(c)),
{
    reveal(settled);
    reveal(closed);
    assert(s.dom().contains(order[i]));
    if order.take(i).contains(order[i]) {
        let j = choose|j: int| 0 <= j < i && order.take(i)[j] == order[i];
        assert(order[j] == order[i]);
    }
}

/// Different nodes are laid out at different places.
proof fn lemma_landed_contains(
    s: Map<u64, Node>,
    base: u64,
    head: Seq<u8>,
    full: Seq<u64>,
    out: Seq<u8>,
    map: Map<u64, Ref>,
    order: Seq<u64>,
    o: u64,
)
    requires
        closed(s),
        unique(s),
        settled(s, base, full),
        layout_ok(s, base, head, full, out, map),
        full.contains(o),
        forall|x: u64| #[trigger] order.contains(x) ==> full.contains(x),
    ensures
        landed(map, order).contains(map[o]->Node_0) <==> order.contains(o),
{
    let k = map[o]->Node_0;
    if order.contains(o) {
        let i = choose|i: int| 0 <= i < order.len() && order[i] == o;
        assert(landed(map, order)[i] == k);
    }
    if landed(map, order).contains(k) {
        let i = choose|i: int| 0 <= i < order.len() && landed(map, order)[i] == k;
        let x = order[i];
        assert(order.contains(x));
        lemma_layout_node(s, base, head, full, out, map, o);
        lemma_layout_node(s, base, head, full, out, map, x);
        let a = choose|a: int| 0 <= a < full.len() && full[a] == o;
        let b = choose|b: int| 0 <= b < full.len() && full[b] == x;
        lemma_settled_node(s, base, full, a);
        lemma_settled_node(s, base, full, b);
        lemma_tree_injective(s, Ref::Node(o), Ref::Node(x));
    }
}

/// A child is in the tail of the new layout exactly if it was in that of the old
/// one, and stands before its parent.
proof fn lemma_young_moved(
    s: Map<u64, Node>,
    base: u64,
    head: Seq<u8>,
    full: Seq<u64>,
    out: Seq<u8>,
    map: Map<u64, Ref>,
    o: u64,
)
    requires
        closed(s),
        settled(s, base, full),
        layout_ok(s, base, head, full, out, map),
        full.contains(o),
    ensures
        ({
            let t = nodes(out);
            let k = map[o]->Node_0;
            &&& young(base, k, t[k].lo) == young(base, o, s[o].lo)
            &&& young(base, k, t[k].hi) == young(base, o, s[o].hi)
            &&& young(base, o, s[o].lo) ==> full.contains(s[o].lo->Node_0) && t[k].lo
                == map[s[o].lo->Node_0]
            &&& young(base, o, s[o].hi) ==> full.contains(s[o].hi->Node_0) && t[k].hi
                == map[s[o].hi->Node_0]
        }),
{
    let t = nodes(out);
    let k = map[o]->Node_0;
    let i = choose|i: int| 0 <= i < full.len() && full[i] == o;
    lemma_settled_node(s, base, full, i);
    lemma_layout_node(s, base, head, full, out, map, o);
    lemma_layout_facts(s, base, head, full, out, map);
    assert(rank(t[k].lo) <= k && rank(t[k].hi) <= k) by {
        reveal(closed);
    }
    if young(base, o, s[o].lo) {
        let c = s[o].lo->Node_0;
        let j = choose|j: int| 0 <= j < i && full.take(i)[j] == c;
        assert(full[j] == c);
        lemma_layout_node(s, base, head, full, out, map, c);
    }
    if young(base, o, s[o].hi) {
        let c = s[o].hi->Node_0;
        let j = choose|j: int| 0 <= j < i && full.take(i)[j] == c;
        assert(full[j] == c);
        lemma_layout_node(s, base, head, full, out, map, c);
    }
}

/// Visiting in the new layout lists the same nodes in the same order.
proof fn lemma_visit_landed(
    s: Map<u64, Node>,
    base: u64,
    head: Seq<u8>,
    full: Seq<u64>,
    out: Seq<u8>,
    map: Map<u64, Ref>,
    o: u64,
    order: Seq<u64>,
)
    requires
        closed(s),
        unique(s),
        settled(s, base, full),
        layout_ok(s, base, head, full, out, map),
        full.contains(o),
        forall|x: u64| #[trigger] order.contains(x) ==> full.contains(x),
    ensures
        visit(nodes(out), base, map[o]->Node_0, landed(map, order)) == landed(
            map,
            visit(s, base, o, order),
        ),
        forall|x: u64| #[trigger] visit(s, base, o, order).contains(x) ==> full.contains(x),
    decreases o,
{
    let t = nodes(out);
    let k = map[o]->Node_0;
    lemma_landed_contains(s, base, head, full, out, map, order, o);
    if !order.contains(o) {
        lemma_young_moved(s, base, head, full, out, map, o);
        let hi = s[o].hi;
        let lo = s[o].lo;
        let a = if young(base, o, hi) {
            visit(s, base, hi->Node_0, order)
        } else {
            order
        };
        if young(base, o, hi) {
            lemma_visit_landed(s, base, head, full, out, map, hi->Node_0, order);
        }
        let b = if young(base, o, lo) {
            visit(s, base, lo->Node_0, a)
        } else {
            a
        };
        if young(base, o, lo) {
            lemma_visit_landed(s, base, head, full, out, map, lo->Node_0, a);
        }
        assert(visit(s, base, o, order) == b.push(o));
        assert(landed(map, b.push(o)) =~= landed(map, b).push(k));
        assert forall|x: u64| #[trigger] visit(s, base, o, order).contains(x) implies full.contains(
            x,
        ) by {
            lemma_contains_push(b, o);
            if x != o {
                assert(b.contains(x));
            }
        }
    }
}

/// Visiting the roots in the new layout lists the same nodes in the same order.
proof fn lemma_visit_roots_landed(
    s: Map<u64, Node>,
    base: u64,
    head: Seq<u8>,
    full: Seq<u64>,
    out: Seq<u8>,
    map: Map<u64, Ref>,
    roots: Seq<Ref>,
)
    requires
        closed(s),
        unique(s),
        settled(s, base, full),
        layout_ok(s, base, head, full, out, map),
        forall|i: int|
            0 <= i < roots.len() ==> ((#[trigger] roots[i]) matches Ref::Node(o) ==> o < base
                || full.contains(o)),
    ensures
        visit_roots(nodes(out), base, roots.map_values(|r: Ref| moved(map, base, r))) == landed(
            map,
            visit_roots(s, base, roots),
        ),
        forall|x: u64| #[trigger] visit_roots(s, base, roots).contains(x) ==> full.contains(x),
    decreases roots.len(),
{
    let f = |r: Ref| moved(map, base, r);
    if roots.len() == 0 {
        assert(landed(map, seq![]) =~= seq![]);
    } else {
        let before = roots.drop_last();
        assert forall|i: int| 0 <= i < before.len() implies ((
        #[trigger] before[i]) matches Ref::Node(o) ==> o < base || full.contains(o)) by {
            assert(before[i] == roots[i]);
        }
        lemma_visit_roots_landed(s, base, head, full, out, map, before);
        assert(roots.map_values(f).drop_last() =~= before.map_values(f));
        assert(roots.map_values(f).last() == moved(map, base, roots.last()));
        let last = roots[roots.len() - 1];
        if let Ref::Node(o) = last {
            if o >= base {
                assert(full.contains(o));
                lemma_layout_node(s, base, head, full, out, map, o);
                lemma_visit_landed(
                    s,
                    base,
                    head,
                    full,
                    out,
                    map,
                    o,
                    visit_roots(s, base, before),
                );
            }
        }
    }
}

/// A node is laid out where the nodes before it end.
proof fn lemma_relaid_at(
    s: Map<u64, Node>,
    base: u64,
    head: Seq<u8>,
    order: Seq<u64>,
    i: int,
)
    requires
        order.no_duplicates(),
        0 <= i < order.len(),
    ensures
        relaid(s, base, head, order).1[order[i]] == Ref::Node(
            relaid(s, base, head, order.take(i)).0.len() as u64,
        ),
    decreases order.len(),
{
    let before = order.drop_last();
    if i == order.len() - 1 {
        assert(order.take(i) =~= before);
    } else {
        assert(order[i] != order[order.len() - 1]);
        assert(before[i] == order[i]);
        assert(before.take(i) =~= order.take(i));
        lemma_relaid_at(s, base, head, before, i);
    }
}

/// A node keeps the place that it is given.
proof fn lemma_relaid_keeps(
    s: Map<u64, Node>,
    base: u64,
    head: Seq<u8>,
    order: Seq<u64>,
    k: int,
    c: u64,
)
    requires
        order.no_duplicates(),
        0 <= k <= order.len(),
        order.take(k).contains(c),
    ensures
        relaid(s, base, head, order.take(k)).1[c] == relaid(s, base, head, order).1[c],
{
    let part = order.take(k);
    let j = choose|j: int| 0 <= j < part.len() && part[j] == c;
    assert(order[j] == c);
    assert(part.take(j) =~= order.take(j));
    assert(part.no_duplicates());
    lemma_relaid_at(s, base, head, part, j);
    lemma_relaid_at(s, base, head, order, j);
}

/// Laying the new layout out again, in its own order, gives the same bytes and
/// moves nothing.
proof fn lemma_relaid_again(
    s: Map<u64, Node>,
    base: u64,
    head: Seq<u8>,
    full: Seq<u64>,
    out: Seq<u8>,
    map: Map<u64, Ref>,
    i: int,
)
    requires
        closed(s),
        settled(s, base, full),
        layout_ok(s, base, head, full, out, map),
        (out, map) == relaid(s, base, head, full),
        0 <= i <= full.len(),
    ensures
        relaid(nodes(out), base, head, landed(map, full).take(i)) == (
            relaid(s, base, head, full.take(i)).0,
            staying(landed(map, full).take(i)),
        ),
    decreases i,
{
    let t = nodes(out);
    let all = landed(map, full);
    let seen = all.take(i);
    if i == 0 {
        assert(seen =~= seq![]);
        assert(full.take(0) =~= seq![]);
        assert(staying(seen) =~= Map::empty());
    } else {
        let p = i - 1;
        let o = full[p];
        let k = map[o]->Node_0;
        lemma_relaid_again(s, base, head, full, out, map, p);
        assert(full.no_duplicates()) by {
            reveal(settled);
        }
        assert(seen.drop_last() =~= all.take(p));
        assert(seen.last() == k);
        assert(full.take(i).drop_last() =~= full.take(p));
        assert(full.take(i).last() == o);
        assert(full.contains(o));
        lemma_layout_node(s, base, head, full, out, map, o);
        lemma_settled_node(s, base, full, p);
        lemma_relaid_at(s, base, head, full, p);
        let (buf, part) = relaid(s, base, head, full.take(p));
        assert(k == buf.len() as u64);
        lemma_child_again(s, base, head, full, out, map, p, s[o].lo);
        lemma_child_again(s, base, head, full, out, map, p, s[o].hi);
        assert(moved_node(part, base, s[o]) == t[k]);
        assert(moved_node(staying(all.take(p)), base, t[k]) == t[k]);
        assert(staying(seen) =~= staying(all.take(p)).insert(k, Ref::Node(k))) by {
            lemma_contains_push(all.take(p), k);
            assert(seen =~= all.take(p).push(k));
        }
    }
}

/// A child of node number `p` stands where it did when its parent was laid out,
/// and stays there.
proof fn lemma_child_again(
    s: Map<u64, Node>,
    base: u64,
    head: Seq<u8>,
    full: Seq<u64>,
    out: Seq<u8>,
    map: Map<u64, Ref>,
    p: int,
    c: Ref,
)
    requires
        closed(s),
        settled(s, base, full),
        layout_ok(s, base, head, full, out, map),
        (out, map) == relaid(s, base, head, full),
        0 <= p < full.len(),
        c == s[full[p]].lo || c == s[full[p]].hi,
    ensures
        moved(relaid(s, base, head, full.take(p)).1, base, c) == moved(map, base, c),
        moved(staying(landed(map, full).take(p)), base, moved(map, base, c)) == moved(
            map,
            base,
            c,
        ),
{
    lemma_settled_node(s, base, full, p);
    if let Ref::Node(x) = c {
        if x >= base {
            assert(full.no_duplicates()) by {
                reveal(settled);
            }
            lemma_relaid_keeps(s, base, head, full, p, x);
            let j = choose|j: int| 0 <= j < p && full.take(p)[j] == x;
            assert(full[j] == x);
            lemma_layout_node(s, base, head, full, out, map, x);
            let seen = landed(map, full).take(p);
            assert(seen[j] == map[x]->Node_0);
        }
    }
}

/// **Collecting again.** A second collection with the roots that came out finds
/// nothing to remove and moves nothing: the arena and the roots stay as they are.
pub proof fn theorem_collected_again(buf: Seq<u8>, base: u64, roots: Seq<Ref>)
    requires
        arena_ok(buf),
        boundary(buf, base as int),
        roots_in(nodes(buf), roots),
        collected(buf, base, roots).0.len() <= u64::MAX,
    ensures
        ({
            let (out, kept) = collected(buf, base, roots);
            collected(out, base, kept) == (out, kept)
        }),
{
    let s = nodes(buf);
    let head = buf.take(base as int);
    let full = visit_roots(s, base, roots);
    let (out, map) = relaid(s, base, head, full);
    let kept = collected(buf, base, roots).1;
    let n = full.len() as int;
    let all = landed(map, full);
    lemma_visit_roots(s, base, roots);
    lemma_relaid(buf, base, full);
    lemma_layout_facts(s, base, head, full, out, map);
    lemma_tail_setting(buf, base);
    assert forall|i: int| 0 <= i < roots.len() implies ((
    #[trigger] roots[i]) matches Ref::Node(o) ==> o < base || full.contains(o)) by {
        lemma_root_listed(s, base, roots, i);
    }
    lemma_visit_roots_landed(s, base, head, full, out, map, roots);
    lemma_relaid_again(s, base, head, full, out, map, n);
    assert(all.take(n) =~= all);
    assert(full.take(n) =~= full);
    assert(out.take(base as int) =~= head);
    let again = collected(out, base, kept).1;
    assert forall|i: int| 0 <= i < kept.len() implies #[trigger] again[i] == kept[i] by {
        if let Ref::Node(o) = roots[i] {
            if o >= base {
                assert(full.contains(o));
                lemma_layout_node(s, base, head, full, out, map, o);
                let j = choose|j: int| 0 <= j < full.len() && full[j] == o;
                assert(all[j] == map[o]->Node_0);
            }
        }
    }
    assert(again =~= kept);
}

/// Where there is no tail, collecting changes nothing.
pub proof fn lemma_collected_none(buf: Seq<u8>, base: u64, roots: Seq<Ref>)
    requires
        arena_ok(buf),
        base == buf.len(),
        roots_in(nodes(buf), roots),
    ensures
        collected(buf, base, roots) == (buf, roots),
{
    let s = nodes(buf);
    let order = visit_roots(s, base, roots);
    lemma_visit_roots(s, base, roots);
    assert(order.len() == 0) by {
        if order.len() > 0 {
            assert(order.contains(order[0]));
            let i = choose|i: int|
                0 <= i < roots.len() && #[trigger] reach(s, roots[i]).contains(
                    order[0],
                );
            assert(ref_in(s, roots[i]));
            lemma_reach(s, roots[i], order[0]);
            lemma_node_at(buf, order[0]);
        }
    }
    assert(buf.take(base as int) =~= buf);
    let kept = collected(buf, base, roots).1;
    assert forall|i: int| 0 <= i < roots.len() implies #[trigger] kept[i] == roots[i] by {
        assert(ref_in(s, roots[i]));
        if let Ref::Node(o) = roots[i] {
            lemma_node_at(buf, o);
        }
    }
    assert(kept =~= roots);
}

/// A root in the tail is among the nodes visited.
pub proof fn lemma_root_listed(s: Map<u64, Node>, base: u64, roots: Seq<Ref>, i: int)
    requires
        closed(s),
        roots_in(s, roots),
        0 <= i < roots.len(),
    ensures
        ref_in(s, roots[i]),
        roots[i] matches Ref::Node(o) ==> o < base || visit_roots(s, base, roots).contains(o),
{
    lemma_visit_roots(s, base, roots);
    assert(ref_in(s, roots[i]));
    if let Ref::Node(o) = roots[i] {
        assert(reach(s, roots[i]).contains(o));
    }
}

/// The offset of a pending node.
spec fn visit_offset(v: Visit) -> u64 {
    match v {
        Visit::Enter(o) => o,
        Visit::Exit(o) => o,
    }
}

/// The children of a node are in the store, and in front of it.
proof fn lemma_children(s: Map<u64, Node>, o: u64)
    requires
        closed(s),
        s.dom().contains(o),
    ensures
        s[o].lo matches Ref::Node(c) ==> s.dom().contains(c) && c < o,
        s[o].hi matches Ref::Node(c) ==> s.dom().contains(c) && c < o,
{
    reveal(closed);
}

proof fn lemma_contains_push(order: Seq<u64>, o: u64)
    ensures
        forall|x: u64| order.push(o).contains(x) <==> order.contains(x) || x == o,
{
    assert forall|x: u64| order.push(o).contains(x) <==> order.contains(x) || x == o by {
        if x == o {
            assert(order.push(o)[order.len() as int] == o);
        } else if order.contains(x) {
            let i = choose|i: int| 0 <= i < order.len() && order[i] == x;
            assert(order.push(o)[i] == x);
        } else if order.push(o).contains(x) {
            let i = choose|i: int| 0 <= i < order.push(o).len() && order.push(o)[i] == x;
            assert(order[i] == x);
        }
    }
}

/// The tail nodes that `roots` reach, children before parents.
pub(crate) fn post_order(buf: &[u8], base_len: u64, roots: &[Ref]) -> (order: Vec<u64>)
    requires
        parses(buf@),
        closed(nodes(buf@)),
        roots_in(nodes(buf@), roots@),
    ensures
        order@ == visit_roots(nodes(buf@), base_len, roots@),
{
    broadcast use vstd::std_specs::hash::group_hash_axioms;

    let ghost s = nodes(buf@);
    let mut visited: HashSet<u64> = HashSet::new();
    let mut order: Vec<u64> = Vec::new();
    let mut i: usize = 0;
    assert(roots@.take(0) =~= seq![]);
    while i < roots.len()
        invariant
            parses(buf@),
        closed(nodes(buf@)),
            s == nodes(buf@),
            roots_in(s, roots@),
            i <= roots@.len(),
            order@ == visit_roots(s, base_len, roots@.take(i as int)),
            forall|o: u64| #[trigger] visited@.contains(o) <==> order@.contains(o),
        decreases roots@.len() - i,
    {
        let ghost before = order@;
        proof {
            assert(roots@.take(i + 1).drop_last() =~= roots@.take(i as int));
            assert(ref_in(s, roots@[i as int]));
        }
        if let Ref::Node(off) = roots[i] {
            if off >= base_len {
                let mut stack: Vec<Visit> = Vec::new();
                stack.push(Visit::Enter(off));
                proof {
                    lemma_walk_visit(s, base_len, seq![], before, off);
                    lemma_walk_empty(s, base_len, visit(s, base_len, off, before));
                    assert(stack@ =~= Seq::<Visit>::empty().push(Visit::Enter(off)));
                }
                while stack.len() > 0
                    invariant
                        parses(buf@),
        closed(nodes(buf@)),
                        s == nodes(buf@),
                        walk(s, base_len, stack@, order@) == visit(s, base_len, off, before),
                        forall|o: u64| #[trigger] visited@.contains(o) <==> order@.contains(o),
                        forall|k: int|
                            0 <= k < stack@.len() ==> s.dom().contains(
                                visit_offset(#[trigger] stack@[k]),
                            ),
                    decreases visits_cost(stack@),
                {
                    let ghost full = stack@;
                    let frame: Visit = stack.pop().unwrap();
                    let ghost rest = stack@;
                    proof {
                        assert(rest.push(frame) =~= full);
                        assert(s.dom().contains(visit_offset(full[full.len() - 1])));
                        lemma_visits_push(rest, frame);
                    }
                    match frame {
                        Visit::Enter(o) => {
                            proof {
                                lemma_walk_enter(s, base_len, rest, order@, o);
                                lemma_opened_cost(s, base_len, rest, o);
                            }
                            if !visited.contains(&o) {
                                proof {
                                    lemma_node_at(buf@, o);
                                    lemma_children(s, o);
                                }
                                let (node, _len): (Node, usize) = read_node(
                                    buf,
                                    o,
                                );
                                stack.push(Visit::Exit(o));
                                if let Ref::Node(lo_off) = node.lo {
                                    if lo_off >= base_len {
                                        stack.push(Visit::Enter(lo_off));
                                    }
                                }
                                if let Ref::Node(hi_off) = node.hi {
                                    if hi_off >= base_len {
                                        stack.push(Visit::Enter(hi_off));
                                    }
                                }
                                assert(stack@ == opened(s, base_len, rest, o));
                            }
                        },
                        Visit::Exit(o) => {
                            proof {
                                lemma_walk_exit(s, base_len, rest, order@, o);
                                lemma_contains_push(order@, o);
                            }
                            visited.insert(o);
                            order.push(o);
                        },
                    }
                }
                proof {
                    assert(stack@ =~= seq![]);
                    lemma_walk_empty(s, base_len, order@);
                }
            }
        }
        i += 1;
    }
    assert(roots@.take(i as int) =~= roots@);
    order
}

} // verus!
