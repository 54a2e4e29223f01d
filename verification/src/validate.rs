//! Checks that bytes from elsewhere are what an arena must be.

use crate::arena::{
    arena_ok, child_ok, closed, lemma_next_node, lemma_next_step, lemma_starts_from, nodes, parses,
    parses_from, read_node, ref_in, starts, starts_from, unique,
};
use crate::codec::{ref_below, try_decode_node, Node, Ref};
use crate::unique::{unique_key_hash, UniqueTables};
use std::collections::HashMap;
use vstd::prelude::*;

verus! {

/// Whether `c` can be a child of the next node, where `vars` holds the variables
/// of the nodes before it.
fn child_before(vars: &HashMap<u64, u32>, c: Ref, var: u32) -> (ok: bool)
    ensures
        ok == match c {
            Ref::Terminal(_) => true,
            Ref::Node(o) => vars@.dom().contains(o) && vars@[o] > var,
        },
{
    broadcast use vstd::std_specs::hash::group_hash_axioms;

    match c {
        Ref::Terminal(_) => true,
        Ref::Node(o) => match vars.get(&o) {
            None => false,
            Some(v) => *v > var,
        },
    }
}

/// Whether `bytes` are whole nodes, each behind its children and above them in
/// the order of variables.
pub fn arena_is_closed(bytes: &[u8]) -> (ok: bool)
    ensures
        ok == (parses(bytes@) && closed(nodes(bytes@))),
{
    broadcast use vstd::std_specs::hash::group_hash_axioms;

    let ghost s = nodes(bytes@);
    let ghost mut done = Seq::<u64>::empty();
    let mut vars: HashMap<u64, u32> = HashMap::new();
    let mut pos: usize = 0;
    proof {
        assert(bytes@.len() == bytes.len());
        assert(starts(bytes@) =~= done + starts_from(bytes@, 0));
    }
    while pos < bytes.len()
        invariant
            bytes@.len() <= u64::MAX,
            pos <= bytes@.len(),
            s == nodes(bytes@),
            starts(bytes@) == done + starts_from(bytes@, pos as nat),
            parses_from(bytes@, 0) == parses_from(bytes@, pos as nat),
            forall|i: int| 0 <= i < done.len() ==> #[trigger] done[i] < pos,
            forall|o: u64| #[trigger] vars@.dom().contains(o) <==> done.contains(o),
            forall|o: u64| #[trigger] done.contains(o) ==> s.dom().contains(o) && vars@[o] == s[o].var,
            forall|i: int|
                0 <= i < done.len() ==> node_sound(s, #[trigger] done[i]),
        decreases bytes@.len() - pos,
    {
        broadcast use vstd::std_specs::hash::group_hash_axioms;

        let off: u64 = pos as u64;
        let at = vstd::slice::slice_subrange(bytes, pos, bytes.len());
        assert(at@ =~= bytes@.skip(pos as int));
        let decoded = try_decode_node(at, off);
        if decoded.is_none() {
            return false;
        }
        let (node, len): (Node, usize) = decoded.unwrap();
        proof {
            lemma_next_step(bytes@, done, pos as nat);
        }
        if !child_before(&vars, node.lo, node.var) || !child_before(&vars, node.hi, node.var) {
            proof {
                if parses(bytes@) && closed(s) {
                    assert(node_sound(s, off)) by {
                        reveal(closed);
                    }
                    lemma_before(bytes@, done, pos as nat, node.lo);
                    lemma_before(bytes@, done, pos as nat, node.hi);
                }
            }
            return false;
        }
        proof {
            assert(node_sound(s, off)) by {
                if let Ref::Node(c) = node.lo {
                    assert(done.contains(c));
                }
                if let Ref::Node(c) = node.hi {
                    assert(done.contains(c));
                }
            }
        }
        vars.insert(off, node.var);
        proof {
            let next = done.push(off);
            assert forall|o: u64| next.contains(o) <==> done.contains(o) || o == off by {
                if o == off {
                    assert(next[done.len() as int] == off);
                } else if done.contains(o) {
                    let i = choose|i: int| 0 <= i < done.len() && done[i] == o;
                    assert(next[i] == o);
                } else if next.contains(o) {
                    let i = choose|i: int| 0 <= i < next.len() && next[i] == o;
                    assert(done[i] == o);
                }
            }
            assert forall|i: int| 0 <= i < next.len() implies node_sound(s, #[trigger] next[i]) by {
                if i < done.len() {
                    assert(node_sound(s, done[i]));
                }
            }
            done = next;
        }
        pos += len;
    }
    proof {
        assert(done =~= starts(bytes@));
        assert(closed(s)) by {
            reveal(closed);
            assert forall|o: u64| #[trigger] s.dom().contains(o) implies node_sound(s, o) by {
                let i = choose|i: int| 0 <= i < done.len() && done[i] == o;
                assert(node_sound(s, done[i]));
            }
        }
    }
    true
}

/// Whether the children of the node at `o` are in order.
spec fn node_sound(s: Map<u64, Node>, o: u64) -> bool {
    child_ok(s, o, s[o].var, s[o].lo) && child_ok(s, o, s[o].var, s[o].hi)
}

/// In a closed arena, the children of the next node are among those read.
pub(crate) proof fn lemma_before(buf: Seq<u8>, done: Seq<u64>, pos: nat, c: Ref)
    requires
        buf.len() <= u64::MAX,
        starts(buf) == done + starts_from(buf, pos),
        ref_in(nodes(buf), c),
        ref_below(c, pos),
    ensures
        c matches Ref::Node(o) ==> done.contains(o),
{
    if let Ref::Node(o) = c {
        let all = starts(buf);
        let i = choose|i: int| 0 <= i < all.len() && all[i] == o;
        if i < done.len() {
            assert(done[i] == o);
        } else {
            lemma_starts_from(buf, pos);
            assert(starts_from(buf, pos)[i - done.len()] == o);
        }
    }
}

/// Whether `bytes` are an arena: whole nodes, each behind its children and above
/// them in the order of variables, none with two equal children, and no two of
/// them equal.
pub fn arena_is_sound(bytes: &[u8]) -> (ok: bool)
    ensures
        ok == arena_ok(bytes@),
{
    if !arena_is_closed(bytes) {
        return false;
    }
    let ghost s = nodes(bytes@);
    let ghost mut done = Seq::<u64>::empty();
    let mut tables: UniqueTables = UniqueTables::new();
    let mut pos: usize = 0;
    proof {
        assert(starts(bytes@) =~= done + starts_from(bytes@, 0));
    }
    while pos < bytes.len()
        invariant
            parses(bytes@),
            closed(s),
            s == nodes(bytes@),
            pos <= bytes@.len(),
            parses_from(bytes@, pos as nat),
            starts(bytes@) == done + starts_from(bytes@, pos as nat),
            tables.wf(bytes@),
            forall|v: int, o: u64|
                0 <= v < tables@.len() ==> (#[trigger] tables@[v].contains(o) <==> done.contains(o)
                    && s[o].var == v),
            forall|o: u64| #[trigger]
                done.contains(o) ==> s.dom().contains(o) && s[o].lo != s[o].hi && s[o].var
                    < tables@.len(),
            forall|a: u64, b: u64|
                #[trigger] done.contains(a) && #[trigger] done.contains(b) && s[a] == s[b] ==> a
                    == b,
        decreases bytes@.len() - pos,
    {
        proof {
            lemma_next_node(bytes@, done, pos as nat);
        }
        let off: u64 = pos as u64;
        let (node, len): (Node, usize) = read_node(bytes, off);
        if node.lo == node.hi {
            proof {
                reveal(unique);
            }
            return false;
        }
        let ghost narrow = tables;
        tables.ensure_var(node.var);
        proof {
            assert forall|v: int, o: u64| 0 <= v < tables@.len() implies (
            #[trigger] tables@[v].contains(o) <==> done.contains(o) && s[o].var == v) by {
                if v < narrow@.len() {
                    assert(tables@.take(narrow@.len() as int)[v] == narrow@[v]);
                } else {
                    assert(tables@[v] == Set::<u64>::empty());
                }
            }
        }
        let hash: u64 = unique_key_hash(node.var, node.lo, node.hi);
        if let Some(twin) = tables.lookup(hash, node.var, node.lo, node.hi, bytes) {
            proof {
                assert(done.contains(twin));
                assert(s.dom().contains(twin) && s.dom().contains(off) && s[twin] == s[off]);
                reveal(unique);
            }
            return false;
        }
        let ghost before = tables;
        assert(!before@[node.var as int].contains(off));
        tables.insert(hash, node.var, off, bytes);
        proof {
            let next = done.push(off);
            assert forall|o: u64| next.contains(o) <==> done.contains(o) || o == off by {
                if o == off {
                    assert(next[done.len() as int] == off);
                } else if done.contains(o) {
                    let i = choose|i: int| 0 <= i < done.len() && done[i] == o;
                    assert(next[i] == o);
                } else if next.contains(o) {
                    let i = choose|i: int| 0 <= i < next.len() && next[i] == o;
                    assert(done[i] == o);
                }
            }
            assert forall|o: u64| #[trigger] done.contains(o) implies s[o] != s[off] by {
                if s[o] == s[off] {
                    assert(before@[node.var as int].contains(o));
                }
            }
            assert forall|v: int, o: u64| 0 <= v < tables@.len() implies (
            #[trigger] tables@[v].contains(o) <==> next.contains(o) && s[o].var == v) by {
                assert(before@[v].contains(o) <==> done.contains(o) && s[o].var == v);
            }
            done = next;
        }
        pos += len;
    }
    proof {
        assert(done =~= starts(bytes@));
        assert(unique(s)) by {
            reveal(unique);
        }
    }
    true
}

} // verus!
