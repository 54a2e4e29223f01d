//! Quick correctness check: the truncated mult builder produces the node
//! counts iota reports in its demo.
//!
//! iota demo output (https://rndmcnlly.github.io/oxidd-wasm/iota.html):
//!   k=7  →   2,634 nodes
//!   k=10 →  58,533 nodes
//!   k=12 → 464,183 nodes
//!   k=13 → 1,292,160 nodes
//!
//! These values are oxidd's `node_count()` which includes both terminals
//! (vwbdd excludes). So expected vwbdd reachable = iota_count - 2.

use vwbdd::{Manager, Ref};

/// Variables for x, y and z, of `k` bits each.
fn vars_trunc(m: &mut Manager, k: u32) -> (Vec<Ref>, Vec<Ref>, Vec<Ref>) {
    let f = m.false_();
    let t = m.true_();
    let mut all: Vec<Ref> = Vec::new();
    for i in 0..3 * k {
        let _ = m.new_var();
        all.push(m.make_node(i, f, t));
    }
    let k = k as usize;
    (all[..k].to_vec(), all[k..2 * k].to_vec(), all[2 * k..].to_vec())
}

/// The sum of two numbers, without the last carry.
fn add_bits(m: &mut Manager, a: &[Ref], b: &[Ref]) -> Vec<Ref> {
    let mut carry = m.false_();
    let mut out = Vec::with_capacity(a.len());
    for i in 0..a.len() {
        let ab = m.xor(a[i], b[i]);
        let s = m.xor(ab, carry);
        let and_ab = m.and(a[i], b[i]);
        let and_c_ab = m.and(carry, ab);
        carry = m.or(and_ab, and_c_ab);
        out.push(s);
    }
    out
}

/// The product of two numbers, truncated to their width.
fn mult_trunc(m: &mut Manager, x: &[Ref], y: &[Ref]) -> Vec<Ref> {
    let k = x.len();
    let f = m.false_();
    let mut acc: Vec<Ref> = vec![f; k];
    for j in 0..k {
        let mut partial: Vec<Ref> = vec![f; k];
        for i in j..k {
            partial[i] = m.and(x[i - j], y[j]);
        }
        acc = add_bits(m, &acc, &partial);
    }
    acc
}

/// Whether two numbers are equal.
fn eq_bits(m: &mut Manager, p: &[Ref], z: &[Ref]) -> Ref {
    let mut eq = m.true_();
    for i in 0..p.len() {
        let xi = m.xor(p[i], z[i]);
        let eq_bit = m.not(xi);
        eq = m.and(eq, eq_bit);
    }
    eq
}

/// The relation `(x * y) mod 2^k = z`.
fn build_mult_trunc(m: &mut Manager, k: u32) -> Ref {
    let (x, y, z) = vars_trunc(m, k);
    let p = mult_trunc(m, &x, &y);
    eq_bits(m, &p, &z)
}

/// The number of nodes that `r` reaches.
fn vw_reachable(m: &Manager, r: Ref) -> usize {
    let mut seen = std::collections::HashSet::new();
    let mut stk = vec![r];
    while let Some(r) = stk.pop() {
        if let Ref::Node(o) = r {
            if !seen.insert(o) {
                continue;
            }
            let n = m.decode_node(r).unwrap();
            stk.push(n.lo);
            stk.push(n.hi);
        }
    }
    seen.len()
}

#[test]
fn trunc_mult_k7_matches_iota() {
    let mut vw = Manager::new();
    let r = build_mult_trunc(&mut vw, 7);
    let n = vw_reachable(&vw, r);
    assert_eq!(n, 2634 - 2, "k=7: vwbdd got {}, iota reports 2634 (incl. terminals)", n);
}

#[test]
fn trunc_mult_k10_matches_iota() {
    let mut vw = Manager::new();
    let r = build_mult_trunc(&mut vw, 10);
    let n = vw_reachable(&vw, r);
    assert_eq!(n, 58533 - 2, "k=10: vwbdd got {}, iota reports 58533 (incl. terminals)", n);
}
