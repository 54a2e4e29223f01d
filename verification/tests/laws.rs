//! Laws of the engine on concrete values.

use std::collections::HashSet;
use vwbdd::{apply_cache_patterns, apply_cache_stats, apply_cache_stats_enable, apply_cache_stats_reset};
use vwbdd::{Manager, Node, Ref, Slab};

fn with_vars(n: u32) -> (Manager, Vec<Ref>) {
    let mut m = Manager::with_cache_slots(1 << 8);
    let (f, t) = (m.false_(), m.true_());
    let mut xs = Vec::new();
    for _ in 0..n {
        let v = m.new_var();
        xs.push(m.make_node(v, f, t));
    }
    (m, xs)
}

/// (x0 and x1) or (not x0 and x2)
fn mux(m: &mut Manager, xs: &[Ref]) -> Ref {
    m.ite(xs[0], xs[1], xs[2])
}

fn value(m: &Manager, r: Ref, env: u32) -> bool {
    let mut at = r;
    loop {
        match at {
            Ref::Terminal(b) => return b,
            Ref::Node(_) => {
                let n = m.decode_node(at).unwrap();
                at = if (env >> n.var) & 1 == 1 { n.hi } else { n.lo };
            }
        }
    }
}

fn reachable(m: &Manager, r: Ref) -> usize {
    let mut seen = HashSet::new();
    let mut stack = vec![r];
    while let Some(r) = stack.pop() {
        if let Ref::Node(o) = r {
            if seen.insert(o) {
                let n = m.decode_node(r).unwrap();
                stack.push(n.lo);
                stack.push(n.hi);
            }
        }
    }
    seen.len()
}

#[test]
fn ite_computes_if_then_else() {
    let (mut m, xs) = with_vars(4);
    let a = m.xor(xs[0], xs[3]);
    let b = m.or(xs[1], xs[2]);
    let c = m.and(xs[1], xs[3]);
    let r = m.ite(a, b, c);
    for env in 0..16 {
        let expected = if value(&m, a, env) { value(&m, b, env) } else { value(&m, c, env) };
        assert_eq!(value(&m, r, env), expected);
    }
}

#[test]
fn same_function_is_same_reference() {
    let (mut m, xs) = with_vars(3);
    let direct = mux(&mut m, &xs);
    let a = m.and(xs[0], xs[1]);
    let n0 = m.not(xs[0]);
    let b = m.and(n0, xs[2]);
    assert_eq!(m.or(a, b), direct);
    // De Morgan.
    let na = m.not(a);
    let nb = m.not(b);
    let n = m.and(na, nb);
    assert_eq!(m.not(n), direct);
    // xor with itself.
    assert_eq!(m.xor(direct, direct), m.false_());
}

#[test]
fn known_functions_add_nothing() {
    let (mut m, xs) = with_vars(3);
    let f = mux(&mut m, &xs);
    let nf = m.not(f);
    let g = m.and(f, xs[2]);
    let len = m.buf_len();
    assert_eq!(m.not(nf), f);
    assert_eq!(m.and(xs[2], f), g);
    assert_eq!(m.or(f, nf), m.true_());
    assert_eq!(m.and(f, nf), m.false_());
    assert_eq!(m.and(f, f), f);
    assert_eq!(m.or(f, f), f);
    assert_eq!(m.or(f, g), f);
    assert_eq!(m.or(g, f), f);
    assert_eq!(mux(&mut m, &xs), f);
    assert_eq!(m.buf_len(), len);
}

#[test]
fn cache_size_changes_no_byte() {
    let mut small = Manager::with_cache_slots(2);
    let mut large = Manager::with_cache_slots(1 << 12);
    for m in [&mut small, &mut large] {
        let (f, t) = (m.false_(), m.true_());
        for v in 0..6 {
            m.new_var();
            m.make_node(v, f, t);
        }
        let mut acc = f;
        for v in 0..6 {
            let x = m.make_node(v, f, t);
            let y = m.make_node((v + 2) % 6, f, t);
            let xy = m.and(x, y);
            acc = m.xor(acc, xy);
        }
    }
    assert_eq!(small.arena_slice(0), large.arena_slice(0));
}

#[test]
fn counters_balance() {
    let (mut m, xs) = with_vars(2);
    let _ = m.or(xs[0], xs[1]);
    assert_eq!(apply_cache_stats(&m), (0, 0, 0));
    apply_cache_stats_enable(&mut m, true);
    let _ = m.and(xs[0], xs[1]);
    // Looked for when called, and once more when expanded.
    assert_eq!(apply_cache_stats(&m), (0, 0, 2));
    assert_eq!(apply_cache_patterns(&m), (2, 0, 0, 0));
    let _ = m.and(xs[0], xs[1]);
    assert_eq!(apply_cache_stats(&m), (1, 0, 2));
    let _ = m.not(xs[0]);
    let _ = m.ite(xs[0], xs[1], xs[0]);
    let (h, c, e) = apply_cache_stats(&m);
    let (a, o, n, t) = apply_cache_patterns(&m);
    assert_eq!(h + c + e, a + o + n + t);
    assert_eq!((a, o, n, t), (3, 0, 2, 2));
    apply_cache_stats_enable(&mut m, false);
    let _ = m.and(xs[1], xs[0]);
    assert_eq!(apply_cache_stats(&m), (h, c, e));
    apply_cache_stats_reset(&mut m);
    assert_eq!(apply_cache_stats(&m), (0, 0, 0));
    assert_eq!(apply_cache_patterns(&m), (0, 0, 0, 0));
}

#[test]
fn collecting_keeps_functions_and_drops_the_rest() {
    let (mut m, xs) = with_vars(4);
    let a = mux(&mut m, &xs);
    let b = m.xor(a, xs[3]);
    let table_a: Vec<bool> = (0..16).map(|e| value(&m, a, e)).collect();
    let table_b: Vec<bool> = (0..16).map(|e| value(&m, b, e)).collect();
    let live = reachable(&m, a);
    let kept = m.drop_roots(&[a, b, m.true_()]);
    assert_eq!(kept[2], m.true_());
    assert_eq!((0..16).map(|e| value(&m, kept[0], e)).collect::<Vec<_>>(), table_a);
    assert_eq!((0..16).map(|e| value(&m, kept[1], e)).collect::<Vec<_>>(), table_b);
    assert_eq!(reachable(&m, kept[0]), live);
    // A second collection finds nothing to remove, and moves nothing.
    let nodes = m.num_nodes();
    let bytes = m.arena_slice(0).to_vec();
    let again = m.drop_roots(&kept);
    assert_eq!(m.num_nodes(), nodes);
    assert_eq!(again, kept);
    assert_eq!(m.arena_slice(0), &bytes[..]);
    assert_eq!((0..16).map(|e| value(&m, again[1], e)).collect::<Vec<_>>(), table_b);
    let one = m.drop_roots(&[again[0]]);
    assert_eq!(m.num_nodes(), live);
    assert_eq!(reachable(&m, one[0]), live);
}

#[test]
fn operations_do_not_depend_on_the_layout() {
    let (mut m, xs) = with_vars(4);
    let a = mux(&mut m, &xs);
    let b = m.xor(xs[1], xs[3]);
    let before = m.and(a, b);
    let nodes_before = reachable(&m, before);
    let table: Vec<bool> = (0..16).map(|e| value(&m, before, e)).collect();
    let kept = m.drop_roots(&[b, a]);
    let after = m.and(kept[1], kept[0]);
    assert_eq!(reachable(&m, after), nodes_before);
    assert_eq!((0..16).map(|e| value(&m, after, e)).collect::<Vec<_>>(), table);
    assert_eq!(m.xor(kept[0], kept[1]), m.xor(kept[1], kept[0]));
}

#[test]
fn collecting_a_tail_twice_moves_nothing() {
    let (mut m, xs) = with_vars(5);
    let f = mux(&mut m, &xs);
    let kept = m.drop_roots(&[f, xs[3], xs[4]]);
    let base = m.buf_len() as u64;
    let a = m.xor(kept[0], kept[1]);
    let b = m.and(a, kept[2]);
    let _scratch = m.or(b, kept[0]);
    let first = m.gc(base, &[b, kept[0], a]);
    let bytes = m.arena_slice(0).to_vec();
    assert!(bytes.len() as u64 > base);
    let second = m.gc(base, &first);
    assert_eq!(second, first);
    assert_eq!(m.arena_slice(0), &bytes[..]);
}

#[test]
fn collection_order_is_high_child_first() {
    let (mut m, xs) = with_vars(3);
    let f = mux(&mut m, &xs);
    let kept = m.gc(0, &[f]);
    // x1, the high child, then x2, then the root with its children 3 and 6 bytes back.
    assert_eq!(m.arena_slice(0), &[1, 0, 1, 2, 0, 1, 0, 5, 8]);
    assert_eq!(kept, vec![Ref::Node(6)]);
    assert_eq!(
        m.decode_node(kept[0]),
        Some(Node { var: 0, lo: Ref::Node(3), hi: Ref::Node(0) })
    );
}

#[test]
fn node_count_is_a_property_of_the_function() {
    let (mut m, xs) = with_vars(3);
    let f = mux(&mut m, &xs);
    let (mut other, ys) = with_vars(3);
    let mut acc = other.false_();
    for env in 0..8u32 {
        if value(&m, f, env) {
            let mut cube = other.true_();
            for v in 0..3 {
                let lit = if (env >> v) & 1 == 1 { ys[v as usize] } else { other.not(ys[v as usize]) };
                cube = other.and(cube, lit);
            }
            acc = other.or(acc, cube);
        }
    }
    assert_eq!(reachable(&m, f), reachable(&other, acc));
    assert_eq!(reachable(&m, f), 3);
}

#[test]
fn diff_means_the_same_to_both_sides() {
    let (mut m, xs) = with_vars(3);
    let f = mux(&mut m, &xs);
    let base: Slab = m.slab_for(&[f]);
    assert_eq!(base.base_len(), base.bytes.len() as u64);
    let diff = Manager::extend_slab_generic(&base, |m: &mut Manager, roots: &[Ref]| {
        let n = m.not(roots[0]);
        let (f, t) = (m.false_(), m.true_());
        let x2 = m.make_node(2, f, t);
        vec![m.and(n, x2), n]
    });
    assert_eq!(diff.tail_len(), diff.tail.len() as u64);
    let mut client = Manager::with_cache_slots(4);
    let base_roots = client.ingest_slab(&base);
    let before: Vec<bool> = (0..8).map(|e| value(&client, base_roots[0], e)).collect();
    assert!(client.can_apply(&diff));
    let mut other = diff.clone();
    other.base_len += 1;
    assert!(!client.can_apply(&other));
    other.base_len -= 1;
    other.tail.push(0);
    assert!(!client.can_apply(&other));
    let roots = client.apply_diff(&diff);
    assert!(!client.can_apply(&diff));
    for env in 0..8 {
        let f = before[env as usize];
        assert_eq!(value(&client, base_roots[0], env), f);
        assert_eq!(value(&client, roots[1], env), !f);
        assert_eq!(value(&client, roots[0], env), !f && (env >> 2) & 1 == 1);
    }
    // Clean on clean is clean.
    let nodes = client.num_nodes();
    let _ = client.drop_roots(&[base_roots[0], roots[0], roots[1]]);
    assert_eq!(client.num_nodes(), nodes);
}

#[test]
fn counts_beyond_a_word() {
    let (m, _) = with_vars(0);
    let slab = Slab::new(vec![], vec![m.true_()]);
    assert_eq!(slab.sat_count(m.true_(), 127), Some(1u128 << 127));
    assert_eq!(slab.sat_count(m.true_(), 128), None);
    assert_eq!(slab.sat_count(m.false_(), 4_000_000_000), Some(0));
    let (mut m, xs) = with_vars(1);
    let slab = m.slab_for(&[xs[0]]);
    assert_eq!(slab.sat_count(slab.roots[0], 128), Some(1u128 << 127));
    assert_eq!(slab.sat_count(slab.roots[0], 129), None);
    assert!(slab.can_read(slab.roots[0]) && slab.can_read(m.true_()));
    assert!(!slab.can_read(Ref::Node(1)));
    assert!(!Slab::new(vec![0, 2, 1], vec![]).can_read(m.true_()));
}

#[test]
fn references_can_be_asked_for() {
    let (mut m, xs) = with_vars(2);
    let f = m.and(xs[0], xs[1]);
    assert!(m.holds(f) && m.holds(m.true_()));
    assert!(!m.holds(Ref::Node(1)) && !m.holds(Ref::Node(m.buf_len() as u64)));
    assert!(m.is_boundary(0) && m.is_boundary(3) && m.is_boundary(m.buf_len() as u64));
    assert!(!m.is_boundary(1) && !m.is_boundary(m.buf_len() as u64 + 1));
    assert_eq!(m.num_vars(), 2);
    assert_eq!(m.var_of(f), Some(0));
    assert_eq!(m.var_of(m.constant(true)), None);
    assert_eq!(m.decode_node(m.constant(false)), None);
}

#[test]
fn memory_is_accounted_for() {
    let (mut m, xs) = with_vars(3);
    let stats = m.mem_stats();
    assert_eq!(stats.arena_bytes, 9);
    assert_eq!(stats.unique_entries, 3);
    assert_eq!(stats.unique_bytes, 3 * 1024 * 9);
    assert_eq!(stats.cache_bytes, 256 * 32);
    assert_eq!(stats.cache_entries, 0);
    assert_eq!(stats.total_live(), 9 + 27648);
    assert_eq!(stats.total_with_cache(), 9 + 27648 + 8192);
    let _ = m.and(xs[0], xs[1]);
    assert_eq!(m.mem_stats().cache_entries, 1);
}
