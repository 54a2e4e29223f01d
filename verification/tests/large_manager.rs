//! Wide offsets: the engine holds `u64` offsets throughout, and node counts are a
//! property of the variable order alone.

use vwbdd::{Manager, Ref};

fn build_fixture(m: &mut Manager) -> Ref {
    let _ = m.new_var();
    let _ = m.new_var();
    let _ = m.new_var();
    let x0 = m.make_node(0, m.false_(), m.true_());
    let x1 = m.make_node(1, m.false_(), m.true_());
    let x2 = m.make_node(2, m.false_(), m.true_());
    // (x0 & x1) | x2
    let a = m.and(x0, x1);
    m.or(a, x2)
}

#[test]
fn large_manager_builds_and_runs_ite() {
    let mut m = Manager::default();
    let _ = build_fixture(&mut m);
    assert!(m.num_nodes() >= 3);
}

#[test]
fn large_manager_gc_roundtrip() {
    let mut m = Manager::default();
    let r = build_fixture(&mut m);
    let pre = m.num_nodes();
    let kept = m.gc(0, &[r]);
    assert_eq!(kept.len(), 1);
    assert!(m.num_nodes() <= pre, "GC should not manufacture nodes (pre={}, post={})", pre, m.num_nodes());
    // Semantics survive: we can still read the root's top var.
    let Ref::Node(_) = kept[0] else { panic!("root vanished"); };
    assert!(m.var_of(kept[0]).is_some());
}

fn var_node(m: &mut Manager) -> Ref {
    let v = m.new_var();
    let f = m.false_();
    let t = m.true_();
    m.make_node(v, f, t)
}

fn full_adder(m: &mut Manager, a: Ref, b: Ref, c: Ref) -> (Ref, Ref) {
    let ab = m.xor(a, b);
    let sum = m.xor(ab, c);
    let a_and_b = m.and(a, b);
    let c_and_ab = m.and(c, ab);
    let carry = m.or(a_and_b, c_and_ab);
    (sum, carry)
}

fn mult_node_count(m: &mut Manager, k: u32) -> usize {
    // Variables: x[0..k], y[0..k], z[0..2k].
    let xs: Vec<Ref> = (0..k).map(|_| var_node(m)).collect();
    let ys: Vec<Ref> = (0..k).map(|_| var_node(m)).collect();
    let zs: Vec<Ref> = (0..2 * k).map(|_| var_node(m)).collect();

    // p = x * y via ripple-carry; eq = all bits of p match z.
    let n = 2 * (k as usize);
    let f = m.false_();
    let mut acc: Vec<Ref> = vec![f; n];
    for j in 0..(k as usize) {
        let mut pp: Vec<Ref> = vec![f; n];
        for i in 0..(k as usize) {
            if i + j < n {
                pp[i + j] = m.and(xs[i], ys[j]);
            }
        }
        let mut out = Vec::with_capacity(n);
        let mut c = f;
        for i in 0..n {
            let (s, co) = full_adder(m, acc[i], pp[i], c);
            out.push(s);
            c = co;
        }
        acc = out;
    }
    let mut eq = m.true_();
    for i in 0..n {
        let d = m.xor(acc[i], zs[i]);
        let s = m.not(d);
        eq = m.and(eq, s);
    }
    // Count reachable.
    let mut seen = std::collections::HashSet::new();
    let mut stk = vec![eq];
    while let Some(r) = stk.pop() {
        if let Ref::Node(o) = r {
            if !seen.insert(o) {
                continue;
            }
            let n = m.decode_node(r).unwrap();
            stk.push(n.lo);
            stk.push(n.hi);
        }
    }
    seen.len()
}

#[test]
fn mult_k4_node_count_matches_across_offset_widths() {
    let mut m = Manager::default();
    let c = mult_node_count(&mut m, 4);
    assert_eq!(c, 498, "regression: mult(k=4) node count drift");
}
