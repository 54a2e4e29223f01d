//! Which bytes are arenas.

use vwbdd::codec::{encode_node, try_decode_node, Node, Ref};
use vwbdd::validate::{arena_is_closed, arena_is_sound};
use vwbdd::Manager;

const F: Ref = Ref::Terminal(false);
const T: Ref = Ref::Terminal(true);

fn arena(nodes: &[(u32, Ref, Ref)]) -> Vec<u8> {
    let mut buf = Vec::new();
    for &(var, lo, hi) in nodes {
        let off = buf.len() as u64;
        encode_node(var, lo, hi, off, &mut buf);
    }
    buf
}

#[test]
fn arenas_of_managers_are_sound() {
    assert!(arena_is_sound(&[]));
    let mut m = Manager::with_cache_slots(16);
    for _ in 0..6 {
        m.new_var();
    }
    let xs: Vec<Ref> = (0..6).map(|v| m.make_node(v, F, T)).collect();
    let mut acc = F;
    for i in 0..6 {
        let a = m.and(xs[i], xs[(i + 1) % 6]);
        acc = m.xor(acc, a);
    }
    assert!(arena_is_sound(m.arena_slice(0)));
    // Cut inside a node.
    assert!(!arena_is_sound(&m.arena_slice(0)[..m.buf_len() - 1]));
    // Cut between nodes.
    let kept = m.drop_roots(&[acc]);
    if let Ref::Node(o) = kept[0] {
        assert!(arena_is_sound(&m.arena_slice(0)[..o as usize]));
    }
}

#[test]
fn broken_arenas_are_told_apart() {
    // Two equal nodes, and a node with two equal children: closed, not sound.
    let twice = arena(&[(1, F, T), (1, F, T)]);
    assert!(arena_is_closed(&twice) && !arena_is_sound(&twice));
    let same = arena(&[(1, T, T)]);
    assert!(arena_is_closed(&same) && !arena_is_sound(&same));
    // A child with the same variable, and one with a smaller one.
    assert!(!arena_is_closed(&arena(&[(1, F, T), (1, F, Ref::Node(0))])));
    assert!(!arena_is_closed(&arena(&[(0, F, T), (1, F, Ref::Node(0))])));
    // A child in the middle of a node.
    assert!(!arena_is_closed(&arena(&[(1, F, T), (0, F, Ref::Node(1))])));
    // A child that is the node itself, and one before the start.
    assert!(!arena_is_closed(&[0, 2, 1]));
    assert!(!arena_is_closed(&[0, 3, 1]));
    assert!(!arena_is_sound(&[0, 3, 1]));
    // No end in sight.
    assert!(!arena_is_closed(&[0, 0x80, 0x80]));
    assert!(!arena_is_closed(&[7]));
    // In order.
    assert!(arena_is_sound(&arena(&[(1, F, T), (0, F, Ref::Node(0))])));
}

#[test]
fn decoding_may_be_tried() {
    assert_eq!(try_decode_node(&[9, 0, 4], 2), Some((Node { var: 9, lo: F, hi: Ref::Node(0) }, 3)));
    assert_eq!(try_decode_node(&[9, 0, 5], 2), None);
    assert_eq!(try_decode_node(&[9, 0], 2), None);
    assert_eq!(try_decode_node(&[], 0), None);
    // A number that takes twenty bytes is too long.
    let mut long = vec![9u8];
    long.extend_from_slice(&[0x80; 19]);
    long.extend_from_slice(&[0, 1]);
    assert_eq!(try_decode_node(&long, 0), None);
    // One that takes nineteen is not, whatever its high bits.
    let mut wide = vec![9u8];
    wide.extend_from_slice(&[0x80; 18]);
    wide.extend_from_slice(&[0x7f, 1]);
    assert_eq!(try_decode_node(&wide, 0), Some((Node { var: 9, lo: F, hi: T }, 21)));
}
