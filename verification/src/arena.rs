//! What a byte arena means: the nodes laid out in it, and the diagrams that they
//! unfold to.
//!
//! An arena is a sequence of encoded nodes, each of which stands behind its
//! children. [`nodes`] reads it as a map from offsets to nodes, and [`arena_ok`]
//! says that this map is a shared, ordered and reduced diagram.

use crate::codec::{
    decode_node, law_node_roundtrip, lemma_node_decode_len, lemma_node_decode_prefix,
    lemma_node_decode_take, lemma_node_min_len, node_bytes, node_decode, node_fits, ref_below,
    Node, Ref,
};
use crate::diagram::{leaf_level, level, ordered, reduced, same_function, theorem_canonical, Bdd};
use vstd::prelude::*;

verus! {

// ---------------------------------------------------------------------------
// Bytes to nodes
// ---------------------------------------------------------------------------

/// The node at position `pos` of `buf` and its length in bytes.
pub open spec fn step(buf: Seq<u8>, pos: nat) -> Option<(Node, nat)> {
    if pos < buf.len() && pos <= u64::MAX {
        node_decode(buf.skip(pos as int), pos as u64)
    } else {
        None
    }
}

/// Whether `buf` is a sequence of whole nodes from `pos` to its end.
pub open spec fn parses_from(buf: Seq<u8>, pos: nat) -> bool
    decreases buf.len() - pos,
{
    pos == buf.len() || match step(buf, pos) {
        Some((_, len)) => len > 0 && pos + len <= buf.len() && parses_from(buf, pos + len),
        None => false,
    }
}

/// The offsets of the nodes from `pos` on, in order.
pub open spec fn starts_from(buf: Seq<u8>, pos: nat) -> Seq<u64>
    decreases buf.len() - pos,
{
    match step(buf, pos) {
        Some((_, len)) => if len > 0 && pos + len <= buf.len() {
            seq![pos as u64] + starts_from(buf, pos + len)
        } else {
            seq![]
        },
        None => seq![],
    }
}

/// The offsets of the nodes of `buf`, in order.
pub open spec fn starts(buf: Seq<u8>) -> Seq<u64> {
    starts_from(buf, 0)
}

/// Whether `buf` is a sequence of whole nodes whose offsets fit `u64`.
pub open spec fn parses(buf: Seq<u8>) -> bool {
    buf.len() <= u64::MAX && parses_from(buf, 0)
}

/// The nodes of `buf` by their offsets.
pub open spec fn nodes(buf: Seq<u8>) -> Map<u64, Node> {
    Map::new(|o: u64| starts(buf).contains(o), |o: u64| step(buf, o as nat).unwrap().0)
}

/// Whether a node starts at `pos`, or `pos` is the end of `buf`.
pub open spec fn boundary(buf: Seq<u8>, pos: int) -> bool {
    pos == buf.len() || (0 <= pos <= u64::MAX && starts(buf).contains(pos as u64))
}

/// The starts from `pos` on increase, lie between `pos` and the end, and hold
/// whole nodes.
pub proof fn lemma_starts_from(buf: Seq<u8>, pos: nat)
    requires
        buf.len() <= u64::MAX,
    ensures
        forall|i: int|
            0 <= i < starts_from(buf, pos).len() ==> {
                let o = #[trigger] starts_from(buf, pos)[i];
                &&& pos <= o < buf.len()
                &&& step(buf, o as nat) matches Some((_, len)) && 3 <= len && o + len <= buf.len()
            },
        forall|i: int, j: int|
            0 <= i < j < starts_from(buf, pos).len() ==> #[trigger] starts_from(buf, pos)[i]
                < #[trigger] starts_from(buf, pos)[j],
    decreases buf.len() - pos,
{
    if let Some((n, len)) = step(buf, pos) {
        lemma_node_decode_len(buf.skip(pos as int), pos as u64);
        if len > 0 && pos + len <= buf.len() {
            lemma_starts_from(buf, pos + len);
            let s = starts_from(buf, pos);
            let rest = starts_from(buf, pos + len);
            assert forall|i: int| 0 <= i < s.len() implies {
                let o = #[trigger] s[i];
                &&& pos <= o < buf.len()
                &&& step(buf, o as nat) matches Some((_, k)) && 3 <= k && o + k <= buf.len()
            } by {
                if i > 0 {
                    assert(s[i] == rest[i - 1]);
                }
            }
            assert forall|i: int, j: int| 0 <= i < j < s.len() implies #[trigger] s[i]
                < #[trigger] s[j] by {
                assert(s[j] == rest[j - 1]);
                if i > 0 {
                    assert(s[i] == rest[i - 1]);
                }
            }
        }
    }
}

/// What holds at every node of an arena.
pub proof fn lemma_node_at(buf: Seq<u8>, o: u64)
    requires
        buf.len() <= u64::MAX,
        nodes(buf).dom().contains(o),
    ensures
        o + 3 <= buf.len(),
        node_decode(buf.skip(o as int), o) matches Some((n, len)) && n == nodes(buf)[o] && 3 <= len
            && o + len <= buf.len() && n.var < 256,
{
    lemma_starts_from(buf, 0);
    let i = choose|i: int| 0 <= i < starts(buf).len() && starts(buf)[i] == o;
    assert(starts_from(buf, 0)[i] == o);
    lemma_node_decode_len(buf.skip(o as int), o);
}

/// Bytes behind a sequence of whole nodes change nothing about those nodes.
pub proof fn lemma_concat_from(buf: Seq<u8>, t: Seq<u8>, pos: nat)
    requires
        buf.len() <= u64::MAX,
        pos <= buf.len(),
        parses_from(buf, pos),
    ensures
        starts_from(buf + t, pos) == starts_from(buf, pos) + starts_from(buf + t, buf.len()),
        parses_from(buf + t, pos) == parses_from(buf + t, buf.len()),
        forall|i: int|
            0 <= i < starts_from(buf, pos).len() ==> step(
                buf + t,
                (#[trigger] starts_from(buf, pos)[i]) as nat,
            ) == step(buf, starts_from(buf, pos)[i] as nat),
    decreases buf.len() - pos,
{
    if pos == buf.len() {
        assert(starts_from(buf, pos) =~= seq![]);
        assert(starts_from(buf + t, pos) =~= starts_from(buf, pos) + starts_from(
            buf + t,
            buf.len(),
        ));
    } else {
        let (n, len) = step(buf, pos).unwrap();
        lemma_node_decode_prefix(buf.skip(pos as int), t, pos as u64);
        assert((buf + t).skip(pos as int) =~= buf.skip(pos as int) + t);
        lemma_concat_from(buf, t, pos + len);
        assert(starts_from(buf + t, pos) =~= starts_from(buf, pos) + starts_from(
            buf + t,
            buf.len(),
        ));
        assert forall|i: int| 0 <= i < starts_from(buf, pos).len() implies step(
            buf + t,
            (#[trigger] starts_from(buf, pos)[i]) as nat,
        ) == step(buf, starts_from(buf, pos)[i] as nat) by {
            if i > 0 {
                assert(starts_from(buf, pos)[i] == starts_from(buf, pos + len)[i - 1]);
            }
        }
    }
}

/// The nodes of an arena are those of a prefix that ends at a node boundary and
/// those behind it.
pub proof fn lemma_concat(buf: Seq<u8>, t: Seq<u8>)
    requires
        parses(buf),
        (buf + t).len() <= u64::MAX,
    ensures
        starts(buf + t) == starts(buf) + starts_from(buf + t, buf.len()),
        parses(buf + t) <==> parses_from(buf + t, buf.len()),
        nodes(buf).submap_of(nodes(buf + t)),
        forall|o: u64|
            #[trigger] nodes(buf + t).dom().contains(o) && o < buf.len() ==> nodes(
                buf,
            ).dom().contains(o),
{
    lemma_concat_from(buf, t, 0);
    lemma_starts_from(buf + t, buf.len());
    let a = starts(buf);
    let b = starts_from(buf + t, buf.len());
    assert forall|o: u64| #[trigger] nodes(buf).dom().contains(o) implies nodes(
        buf + t,
    ).dom().contains(o) && nodes(buf + t)[o] == nodes(buf)[o] by {
        let i = choose|i: int| 0 <= i < a.len() && a[i] == o;
        assert((a + b)[i] == o);
        assert(starts_from(buf, 0)[i] == o);
    }
    assert forall|o: u64|
        #[trigger] nodes(buf + t).dom().contains(o) && o < buf.len() implies nodes(
        buf,
    ).dom().contains(o) by {
        let i = choose|i: int| 0 <= i < (a + b).len() && (a + b)[i] == o;
        if i >= a.len() {
            assert(b[i - a.len()] == o);
        } else {
            assert(a[i] == o);
        }
    }
}

/// Appending one node adds it at the end of the arena.
pub proof fn lemma_append(buf: Seq<u8>, n: Node)
    requires
        parses(buf),
        node_fits(n, buf.len() as u64),
        (buf + node_bytes(n, buf.len() as u64)).len() <= u64::MAX,
    ensures
        ({
            let out = buf + node_bytes(n, buf.len() as u64);
            &&& parses(out)
            &&& starts(out) == starts(buf).push(buf.len() as u64)
            &&& nodes(out) == nodes(buf).insert(buf.len() as u64, n)
            &&& !nodes(buf).dom().contains(buf.len() as u64)
        }),
{
    let off = buf.len() as u64;
    let t = node_bytes(n, off);
    let out = buf + t;
    lemma_node_min_len(n, off);
    law_node_roundtrip(n, off, seq![]);
    lemma_concat(buf, t);
    assert(out.skip(off as int) =~= t);
    assert(step(out, off as nat) == Some((n, t.len())));
    assert(parses_from(out, out.len()));
    assert(parses_from(out, off as nat));
    assert(starts_from(out, out.len()) =~= seq![]);
    assert(starts_from(out, off as nat) =~= seq![off]);
    assert(starts(out) =~= starts(buf).push(off));
    if nodes(buf).dom().contains(off) {
        lemma_node_at(buf, off);
    }
    assert(nodes(out) =~= nodes(buf).insert(off, n)) by {
        assert forall|o: u64| nodes(out).dom().contains(o) <==> nodes(buf).insert(
            off,
            n,
        ).dom().contains(o) by {
            if nodes(out).dom().contains(o) {
                let i = choose|i: int| 0 <= i < starts(out).len() && starts(out)[i] == o;
                if i < starts(buf).len() {
                    assert(starts(buf)[i] == o);
                }
            } else {
                if o == off {
                    assert(starts(out)[starts(buf).len() as int] == off);
                }
            }
        }
    }
}

/// Cutting an arena at a node boundary keeps the nodes before it whole.
proof fn lemma_take_from(buf: Seq<u8>, b: nat, pos: nat)
    requires
        buf.len() <= u64::MAX,
        pos <= b <= buf.len(),
        parses_from(buf, pos),
        b == buf.len() || starts_from(buf, pos).contains(b as u64),
    ensures
        parses_from(buf.take(b as int), pos),
        parses_from(buf, b),
    decreases buf.len() - pos,
{
    if pos < b {
        let (n, len) = step(buf, pos).unwrap();
        lemma_node_decode_len(buf.skip(pos as int), pos as u64);
        if b < buf.len() {
            let s = starts_from(buf, pos);
            let i = choose|i: int| 0 <= i < s.len() && s[i] == b;
            assert(s[i] == starts_from(buf, pos + len)[i - 1]);
            lemma_starts_from(buf, pos + len);
        }
        lemma_node_decode_take(buf.skip(pos as int), pos as u64, (b - pos) as nat);
        assert(buf.take(b as int).skip(pos as int) =~= buf.skip(pos as int).take(b - pos));
        lemma_take_from(buf, b, pos + len);
    }
}

/// An arena cut at a node boundary: both parts are whole nodes.
pub proof fn lemma_cut(buf: Seq<u8>, b: nat)
    requires
        parses(buf),
        boundary(buf, b as int),
    ensures
        b <= buf.len(),
        parses(buf.take(b as int)),
        parses_from(buf, b),
        nodes(buf.take(b as int)).submap_of(nodes(buf)),
        forall|o: u64| #[trigger]
            nodes(buf).dom().contains(o) && o < b ==> nodes(buf.take(b as int)).dom().contains(o),
        starts(buf) == starts(buf.take(b as int)) + starts_from(buf, b),
{
    if b != buf.len() {
        lemma_node_at(buf, b as u64);
    }
    lemma_take_from(buf, b, 0);
    let head = buf.take(b as int);
    assert(head + buf.skip(b as int) =~= buf);
    lemma_concat(head, buf.skip(b as int));
}

/// Reading on: the node at `pos` is the next one, and the rest follows it.
pub proof fn lemma_next_node(buf: Seq<u8>, done: Seq<u64>, pos: nat)
    requires
        buf.len() <= u64::MAX,
        pos < buf.len(),
        parses_from(buf, pos),
        starts(buf) == done + starts_from(buf, pos),
    ensures
        step(buf, pos) is Some,
        nodes(buf).dom().contains(pos as u64),
        nodes(buf)[pos as u64] == step(buf, pos).unwrap().0,
        step(buf, pos).unwrap().0.var < 256,
        !done.contains(pos as u64),
        ({
            let next = pos + step(buf, pos).unwrap().1;
            &&& pos < next <= buf.len()
            &&& parses_from(buf, next)
            &&& starts(buf) == done.push(pos as u64) + starts_from(buf, next)
        }),
{
    lemma_next_step(buf, done, pos);
}

/// The same where it is not known yet whether the rest is whole nodes.
pub proof fn lemma_next_step(buf: Seq<u8>, done: Seq<u64>, pos: nat)
    requires
        buf.len() <= u64::MAX,
        step(buf, pos) is Some,
        starts(buf) == done + starts_from(buf, pos),
    ensures
        nodes(buf).dom().contains(pos as u64),
        nodes(buf)[pos as u64] == step(buf, pos).unwrap().0,
        step(buf, pos).unwrap().0.var < 256,
        !done.contains(pos as u64),
        ({
            let next = pos + step(buf, pos).unwrap().1;
            &&& pos < next <= buf.len()
            &&& parses_from(buf, next) == parses_from(buf, pos)
            &&& starts(buf) == done.push(pos as u64) + starts_from(buf, next)
        }),
{
    let (n, len) = step(buf, pos).unwrap();
    lemma_node_decode_len(buf.skip(pos as int), pos as u64);
    assert(starts_from(buf, pos)[0] == pos);
    assert(starts(buf)[done.len() as int] == pos);
    assert(starts(buf) =~= done.push(pos as u64) + starts_from(buf, pos + len));
    lemma_starts_from(buf, 0);
    if done.contains(pos as u64) {
        let i = choose|i: int| 0 <= i < done.len() && done[i] == pos;
        assert(starts_from(buf, 0)[i] < starts_from(buf, 0)[done.len() as int]);
    }
}

/// There are as many nodes as starts, and each takes at least three bytes.
pub proof fn lemma_node_count(buf: Seq<u8>)
    requires
        buf.len() <= u64::MAX,
    ensures
        nodes(buf).dom().finite(),
        nodes(buf).dom().len() == starts(buf).len(),
        3 * starts(buf).len() <= buf.len(),
{
    lemma_starts_from(buf, 0);
    lemma_starts_room(buf, 0);
    let s = starts(buf);
    assert(s.no_duplicates()) by {
        assert forall|i: int, j: int| 0 <= i < s.len() && 0 <= j < s.len() && i != j implies s[i]
            != s[j] by {
            if i < j {
                assert(starts_from(buf, 0)[i] < starts_from(buf, 0)[j]);
            } else {
                assert(starts_from(buf, 0)[j] < starts_from(buf, 0)[i]);
            }
        }
    }
    s.unique_seq_to_set();
    assert(nodes(buf).dom() =~= s.to_set());
}

proof fn lemma_starts_room(buf: Seq<u8>, pos: nat)
    requires
        pos <= buf.len() <= u64::MAX,
    ensures
        3 * starts_from(buf, pos).len() <= buf.len() - pos,
    decreases buf.len() - pos,
{
    if let Some((n, len)) = step(buf, pos) {
        lemma_node_decode_len(buf.skip(pos as int), pos as u64);
        if len > 0 && pos + len <= buf.len() {
            lemma_starts_room(buf, pos + len);
        }
    }
}

/// One more than the largest variable in `bytes`; 0 where there is none.
pub open spec fn var_count(bytes: Seq<u8>) -> nat {
    max_var_count(nodes(bytes), starts(bytes))
}

/// One more than the largest variable of the nodes at `offs`.
pub open spec fn max_var_count(s: Map<u64, Node>, offs: Seq<u64>) -> nat
    decreases offs.len(),
{
    if offs.len() == 0 {
        0
    } else {
        let before = max_var_count(s, offs.drop_last());
        let own = s[offs.last()].var as nat + 1;
        if own > before {
            own
        } else {
            before
        }
    }
}

/// Every variable is below the count, and it is the least such number.
pub proof fn lemma_max_var_count(s: Map<u64, Node>, offs: Seq<u64>)
    ensures
        forall|i: int| 0 <= i < offs.len() ==> s[#[trigger] offs[i]].var < max_var_count(s, offs),
        max_var_count(s, offs) > 0 ==> exists|i: int|
            0 <= i < offs.len() && s[#[trigger] offs[i]].var + 1 == max_var_count(s, offs),
    decreases offs.len(),
{
    if offs.len() > 0 {
        let head = offs.drop_last();
        lemma_max_var_count(s, head);
        assert forall|i: int| 0 <= i < offs.len() implies s[#[trigger] offs[i]].var
            < max_var_count(s, offs) by {
            if i < head.len() {
                assert(head[i] == offs[i]);
            }
        }
        if max_var_count(s, offs) == s[offs.last()].var + 1 {
            assert(s[offs[offs.len() - 1]].var + 1 == max_var_count(s, offs));
        } else {
            let i = choose|i: int|
                0 <= i < head.len() && s[#[trigger] head[i]].var + 1 == max_var_count(s, head);
            assert(s[offs[i]].var + 1 == max_var_count(s, offs));
        }
    }
}

/// The number of variables that an arena needs is the least that is above all of its
/// nodes' variables.
pub proof fn law_var_count(buf: Seq<u8>)
    requires
        buf.len() <= u64::MAX,
    ensures
        forall|o: u64| #[trigger]
            nodes(buf).dom().contains(o) ==> nodes(buf)[o].var < var_count(buf),
        var_count(buf) > 0 ==> exists|o: u64| #[trigger]
            nodes(buf).dom().contains(o) && nodes(buf)[o].var + 1 == var_count(buf),
{
    let s = nodes(buf);
    let all = starts(buf);
    lemma_max_var_count(s, all);
    assert forall|o: u64| #[trigger] s.dom().contains(o) implies s[o].var < var_count(buf) by {
        let i = choose|i: int| 0 <= i < all.len() && all[i] == o;
        assert(s[all[i]].var < max_var_count(s, all));
    }
    if var_count(buf) > 0 {
        let i = choose|i: int|
            0 <= i < all.len() && s[#[trigger] all[i]].var + 1 == max_var_count(s, all);
        assert(s.dom().contains(all[i]));
    }
}

/// Reads the node at `off`; the result holds it and its length in bytes.
pub(crate) fn read_node(buf: &[u8], off: u64) -> (r: (Node, usize))
    requires
        buf@.len() <= u64::MAX,
        step(buf@, off as nat) is Some,
    ensures
        step(buf@, off as nat) == Some((r.0, r.1 as nat)),
        r.1 >= 3,
        off + r.1 <= buf@.len(),
{
    let tail = vstd::slice::slice_subrange(buf, off as usize, buf.len());
    assert(tail@ =~= buf@.skip(off as int));
    decode_node(tail, off)
}

/// The number of variables that must be declared for the nodes in `bytes`.
pub(crate) fn scan_max_var(bytes: &[u8]) -> (count: u32)
    requires
        parses(bytes@),
    ensures
        count == var_count(bytes@),
        count <= 256,
{
    let mut count: u32 = 0;
    let mut pos: usize = 0;
    let ghost s = nodes(bytes@);
    let ghost mut done = Seq::<u64>::empty();
    assert(starts(bytes@) =~= done + starts_from(bytes@, 0));
    while pos < bytes.len()
        invariant
            parses(bytes@),
            s == nodes(bytes@),
            pos <= bytes@.len(),
            parses_from(bytes@, pos as nat),
            starts(bytes@) == done + starts_from(bytes@, pos as nat),
            count == max_var_count(s, done),
            count <= 256,
        decreases bytes@.len() - pos,
    {
        proof {
            lemma_next_node(bytes@, done, pos as nat);
            assert(done.push(pos as u64).drop_last() =~= done);
        }
        let (node, len): (Node, usize) = read_node(bytes, pos as u64);
        if node.var >= count {
            count = node.var + 1;
        }
        proof {
            done = done.push(pos as u64);
        }
        pos += len;
    }
    assert(done =~= starts(bytes@));
    count
}

// ---------------------------------------------------------------------------
// Nodes to diagrams
// ---------------------------------------------------------------------------

/// Whether `r` is a terminal or a node of `s`.
pub open spec fn ref_in(s: Map<u64, Node>, r: Ref) -> bool {
    match r {
        Ref::Terminal(_) => true,
        Ref::Node(o) => s.dom().contains(o),
    }
}

/// The level of `r`: the variable of the node, or the leaf level.
pub open spec fn ref_level(s: Map<u64, Node>, r: Ref) -> int {
    match r {
        Ref::Terminal(_) => leaf_level(),
        Ref::Node(o) => s[o].var as int,
    }
}

/// Whether `c` can be a child of a node with variable `var` at `o`.
pub open spec fn child_ok(s: Map<u64, Node>, o: u64, var: u32, c: Ref) -> bool {
    ref_in(s, c) && ref_below(c, o as nat) && ref_level(s, c) > var
}

/// Every child is a node of `s` with a smaller offset and a later variable.
#[verifier::opaque]
pub open spec fn closed(s: Map<u64, Node>) -> bool {
    forall|o: u64| #[trigger]
        s.dom().contains(o) ==> child_ok(s, o, s[o].var, s[o].lo) && child_ok(
            s,
            o,
            s[o].var,
            s[o].hi,
        )
}

/// No node has two equal children, and no two nodes are equal.
#[verifier::opaque]
pub open spec fn unique(s: Map<u64, Node>) -> bool {
    &&& forall|o: u64| #[trigger] s.dom().contains(o) ==> s[o].lo != s[o].hi
    &&& forall|a: u64, b: u64|
        #[trigger] s.dom().contains(a) && #[trigger] s.dom().contains(b) && s[a] == s[b] ==> a == b
}

/// Whether `buf` holds a shared, ordered and reduced diagram.
pub open spec fn arena_ok(buf: Seq<u8>) -> bool {
    parses(buf) && closed(nodes(buf)) && unique(nodes(buf))
}

/// Whether `r` is a terminal or a node of `buf`.
pub(crate) fn holds_ref(buf: &[u8], r: Ref) -> (yes: bool)
    requires
        parses(buf@),
    ensures
        yes == ref_in(nodes(buf@), r),
{
    let off: u64 = match r {
        Ref::Terminal(_) => {
            return true;
        },
        Ref::Node(off) => off,
    };
    let mut pos: usize = 0;
    let ghost mut done = Seq::<u64>::empty();
    assert(starts(buf@) =~= done + starts_from(buf@, 0));
    while pos < buf.len()
        invariant
            r == Ref::Node(off),
            parses(buf@),
            pos <= buf@.len(),
            parses_from(buf@, pos as nat),
            starts(buf@) == done + starts_from(buf@, pos as nat),
            !done.contains(off),
        decreases buf@.len() - pos,
    {
        proof {
            lemma_next_node(buf@, done, pos as nat);
        }
        if pos as u64 == off {
            return true;
        }
        let (_node, len): (Node, usize) = read_node(buf, pos as u64);
        proof {
            let next = done.push(pos as u64);
            assert(!next.contains(off)) by {
                if next.contains(off) {
                    let i = choose|i: int| 0 <= i < next.len() && next[i] == off;
                    assert(done[i] == off);
                }
            }
            done = next;
        }
        pos += len;
    }
    assert(done =~= starts(buf@));
    false
}

/// A measure that decreases from a node to its children.
pub open spec fn rank(r: Ref) -> nat {
    match r {
        Ref::Terminal(_) => 0,
        Ref::Node(o) => o as nat + 1,
    }
}

/// What `r` unfolds to.
pub open spec fn tree(s: Map<u64, Node>, r: Ref) -> Bdd
    decreases rank(r),
{
    match r {
        Ref::Terminal(b) => Bdd::Leaf(b),
        Ref::Node(o) => if s.dom().contains(o) && ref_below(s[o].lo, o as nat) && ref_below(
            s[o].hi,
            o as nat,
        ) {
            Bdd::Branch {
                var: s[o].var,
                lo: Box::new(tree(s, s[o].lo)),
                hi: Box::new(tree(s, s[o].hi)),
            }
        } else {
            Bdd::Leaf(false)
        },
    }
}

/// The tree of a reference is ordered, and its top is that of the reference.
pub proof fn lemma_tree_ordered(s: Map<u64, Node>, r: Ref)
    requires
        closed(s),
        ref_in(s, r),
    ensures
        ordered(tree(s, r)),
        level(tree(s, r)) == ref_level(s, r),
    decreases rank(r),
{
    reveal(closed);
    if let Ref::Node(o) = r {
        assert(s.dom().contains(o));
        lemma_tree_ordered(s, s[o].lo);
        lemma_tree_ordered(s, s[o].hi);
    }
}

/// Different references have different trees.
pub proof fn lemma_tree_injective(s: Map<u64, Node>, a: Ref, b: Ref)
    requires
        closed(s),
        unique(s),
        ref_in(s, a),
        ref_in(s, b),
        tree(s, a) == tree(s, b),
    ensures
        a == b,
    decreases rank(a) + rank(b),
{
    reveal(closed);
    reveal(unique);
    if let (Ref::Node(x), Ref::Node(y)) = (a, b) {
        assert(s.dom().contains(x) && s.dom().contains(y));
        lemma_tree_injective(s, s[x].lo, s[y].lo);
        lemma_tree_injective(s, s[x].hi, s[y].hi);
    }
}

/// The tree of a reference is reduced.
pub proof fn lemma_tree_reduced(s: Map<u64, Node>, r: Ref)
    requires
        closed(s),
        unique(s),
        ref_in(s, r),
    ensures
        reduced(tree(s, r)),
    decreases rank(r),
{
    reveal(closed);
    reveal(unique);
    if let Ref::Node(o) = r {
        assert(s.dom().contains(o));
        lemma_tree_reduced(s, s[o].lo);
        lemma_tree_reduced(s, s[o].hi);
        if tree(s, s[o].lo) == tree(s, s[o].hi) {
            lemma_tree_injective(s, s[o].lo, s[o].hi);
        }
    }
}

/// **Canonicity of references.** In one arena, references that stand for the
/// same function are equal.
pub proof fn theorem_ref_canonical(s: Map<u64, Node>, a: Ref, b: Ref)
    requires
        closed(s),
        unique(s),
        ref_in(s, a),
        ref_in(s, b),
        same_function(tree(s, a), tree(s, b)),
    ensures
        a == b,
{
    lemma_tree_ordered(s, a);
    lemma_tree_ordered(s, b);
    lemma_tree_reduced(s, a);
    lemma_tree_reduced(s, b);
    theorem_canonical(tree(s, a), tree(s, b));
    lemma_tree_injective(s, a, b);
}

/// A larger store unfolds the references of a smaller one to the same trees.
pub proof fn lemma_tree_submap(s: Map<u64, Node>, s2: Map<u64, Node>, r: Ref)
    requires
        closed(s),
        s.submap_of(s2),
        ref_in(s, r),
    ensures
        ref_in(s2, r),
        tree(s2, r) == tree(s, r),
        ref_level(s2, r) == ref_level(s, r),
    decreases rank(r),
{
    reveal(closed);
    if let Ref::Node(o) = r {
        assert(s.dom().contains(o));
        assert(s2.dom().contains(o) && s2[o] == s[o]);
        lemma_tree_submap(s, s2, s[o].lo);
        lemma_tree_submap(s, s2, s[o].hi);
    }
}

/// Adding a new node behind all others keeps the store closed and unique.
pub proof fn lemma_insert_node(s: Map<u64, Node>, o: u64, n: Node)
    requires
        closed(s),
        unique(s),
        forall|k: u64| #[trigger] s.dom().contains(k) ==> k < o,
        ref_in(s, n.lo),
        ref_in(s, n.hi),
        ref_level(s, n.lo) > n.var,
        ref_level(s, n.hi) > n.var,
        n.lo != n.hi,
        forall|k: u64| #[trigger] s.dom().contains(k) ==> s[k] != n,
    ensures
        closed(s.insert(o, n)),
        unique(s.insert(o, n)),
        s.submap_of(s.insert(o, n)),
        ref_in(s.insert(o, n), Ref::Node(o)),
{
    reveal(closed);
    reveal(unique);
    let t = s.insert(o, n);
    assert(!s.dom().contains(o));
    assert forall|k: u64| #[trigger] t.dom().contains(k) implies child_ok(t, k, t[k].var, t[k].lo)
        && child_ok(t, k, t[k].var, t[k].hi) && t[k].lo != t[k].hi by {
        if k != o {
            assert(s.dom().contains(k));
        }
    }
    assert forall|a: u64, b: u64|
        #[trigger] t.dom().contains(a) && #[trigger] t.dom().contains(b) && t[a] == t[b] implies a
        == b by {
        if a != o {
            assert(s.dom().contains(a));
        }
        if b != o {
            assert(s.dom().contains(b));
        }
    }
}

/// Whether `out` is `buf` with more nodes behind it.
pub open spec fn extends(buf: Seq<u8>, out: Seq<u8>) -> bool {
    buf.len() <= out.len() && out.take(buf.len() as int) == buf
}

/// Extending an arena keeps its nodes.
pub proof fn lemma_extends(buf: Seq<u8>, out: Seq<u8>)
    requires
        parses(buf),
        parses(out),
        extends(buf, out),
    ensures
        nodes(buf).submap_of(nodes(out)),
        boundary(out, buf.len() as int),
{
    assert(buf + out.skip(buf.len() as int) =~= out);
    lemma_concat(buf, out.skip(buf.len() as int));
    if buf.len() < out.len() {
        assert(starts_from(out, buf.len())[0] == buf.len());
        assert(starts(out)[starts(buf).len() as int] == buf.len());
    }
}

/// Extension is transitive.
pub proof fn lemma_extends_trans(a: Seq<u8>, b: Seq<u8>, c: Seq<u8>)
    requires
        extends(a, b),
        extends(b, c),
    ensures
        extends(a, c),
{
    assert(c.take(a.len() as int) =~= b.take(a.len() as int));
}

/// The start of an arena is a node boundary.
pub proof fn lemma_boundary_zero(buf: Seq<u8>)
    requires
        parses(buf),
    ensures
        boundary(buf, 0),
{
    if buf.len() > 0 {
        assert(starts(buf)[0] == 0);
    }
}

/// The empty arena is sound.
pub proof fn lemma_empty_arena()
    ensures
        arena_ok(seq![]),
        starts(seq![]) == Seq::<u64>::empty(),
        nodes(seq![]) == Map::<u64, Node>::empty(),
{
    reveal(closed);
    reveal(unique);
    assert(starts(seq![]) =~= seq![]);
    assert(nodes(seq![]) =~= Map::empty());
}

} // verus!
