//! Tests for ite and its boolean-op derivatives. Node counts must match any
//! correctly-reduced BDD engine (e.g. OxiDD) under the same variable order.

use vwbdd::{Manager, Ref};

/// Helper: build the single-variable BDD for variable i.
fn var(m: &mut Manager, i: u32) -> Ref {
    let f = m.false_();
    let t = m.true_();
    m.make_node(i, f, t)
}

#[test]
fn ite_terminal_condition_true() {
    let mut m = Manager::new();
    let _ = m.new_var();
    let x = var(&mut m, 0);
    let t = m.true_();
    let f = m.false_();
    assert_eq!(m.ite(t, x, f), x);
}

#[test]
fn ite_terminal_condition_false() {
    let mut m = Manager::new();
    let _ = m.new_var();
    let x = var(&mut m, 0);
    let t = m.true_();
    let f = m.false_();
    assert_eq!(m.ite(f, x, t), t);
}

#[test]
fn ite_identical_branches() {
    let mut m = Manager::new();
    let _ = m.new_var();
    let _ = m.new_var();
    let x = var(&mut m, 0);
    let y = var(&mut m, 1);
    assert_eq!(m.ite(x, y, y), y, "ite(cond, g, g) == g");
}

#[test]
fn not_via_ite() {
    let mut m = Manager::new();
    let _ = m.new_var();
    let x = var(&mut m, 0);
    let nx = m.not(x);
    // ~x should have a single node too (var 0, lo=true, hi=false).
    // Total distinct nodes: x, ~x = 2.
    assert_eq!(m.num_nodes(), 2);
    assert_ne!(x, nx);
    assert_eq!(m.not(nx), x, "double negation");
}

#[test]
fn and_of_two_vars_has_two_nodes() {
    // x AND y, in var order (x=0, y=1). Canonical BDD is exactly:
    //   x: lo=false, hi=y_node
    //   y: lo=false, hi=true
    let mut m = Manager::new();
    let _ = m.new_var();
    let _ = m.new_var();
    let x = var(&mut m, 0);
    let y = var(&mut m, 1);
    let and = m.and(x, y);
    assert_eq!(m.num_nodes(), 3, "x, y, (x AND y) — three nodes total");
    assert_ne!(and, x);
    assert_ne!(and, y);
    let t = m.true_();
    let f = m.false_();
    assert_ne!(and, t);
    assert_ne!(and, f);
}

#[test]
fn or_of_two_vars_has_two_nodes() {
    // x OR y. Canonical BDD:
    //   x: lo=y_node, hi=true
    //   y: lo=false, hi=true
    let mut m = Manager::new();
    let _ = m.new_var();
    let _ = m.new_var();
    let x = var(&mut m, 0);
    let y = var(&mut m, 1);
    let _ = m.or(x, y);
    // Nodes: x itself (1), y itself (2), (x OR y) (3).
    assert_eq!(m.num_nodes(), 3);
}

#[test]
fn xor_of_two_vars_node_count() {
    // x XOR y. The reduced BDD for the XOR function alone has 3 internal
    // nodes (root + y + ~y). But the manager also retains `x` from the
    // `var(0)` call (it's in the unique table even if nothing currently
    // refers to it as a root), so total live nodes = 4.
    let mut m = Manager::new();
    let _ = m.new_var();
    let _ = m.new_var();
    let x = var(&mut m, 0);
    let y = var(&mut m, 1);
    let _ = m.xor(x, y);
    assert_eq!(m.num_nodes(), 4);
}

#[test]
fn and_commutes() {
    let mut m = Manager::new();
    let _ = m.new_var();
    let _ = m.new_var();
    let x = var(&mut m, 0);
    let y = var(&mut m, 1);
    assert_eq!(m.and(x, y), m.and(y, x));
}

#[test]
fn and_identities() {
    let mut m = Manager::new();
    let _ = m.new_var();
    let x = var(&mut m, 0);
    let t = m.true_();
    let f = m.false_();
    assert_eq!(m.and(x, t), x, "x AND true = x");
    assert_eq!(m.and(x, f), f, "x AND false = false");
    assert_eq!(m.and(x, x), x, "x AND x = x");
}

#[test]
fn or_identities() {
    let mut m = Manager::new();
    let _ = m.new_var();
    let x = var(&mut m, 0);
    let t = m.true_();
    let f = m.false_();
    assert_eq!(m.or(x, t), t, "x OR true = true");
    assert_eq!(m.or(x, f), x, "x OR false = x");
    assert_eq!(m.or(x, x), x, "x OR x = x");
}

#[test]
fn excluded_middle() {
    let mut m = Manager::new();
    let _ = m.new_var();
    let x = var(&mut m, 0);
    let nx = m.not(x);
    let t = m.true_();
    let f = m.false_();
    assert_eq!(m.or(x, nx), t, "x OR ~x = true");
    assert_eq!(m.and(x, nx), f, "x AND ~x = false");
}

#[test]
fn three_variable_and_has_three_nodes() {
    // x AND y AND z. Canonical ordered BDD has one node per variable on the
    // path to true, with false as the fallthrough:
    //   x: lo=false, hi=(y AND z)
    //   y: lo=false, hi=z
    //   z: lo=false, hi=true
    // Distinct internal nodes total = 3.
    let mut m = Manager::new();
    let _ = m.new_var();
    let _ = m.new_var();
    let _ = m.new_var();
    let x = var(&mut m, 0);
    let y = var(&mut m, 1);
    let z = var(&mut m, 2);
    let xy = m.and(x, y);
    let _xyz = m.and(xy, z);
    // Count all distinct nodes ever created by these operations:
    //   x, y, z, (x AND y), (x AND y AND z) = 5
    // and (y AND z), a subexpression that is built on the way.
    assert!(
        m.num_nodes() >= 3 && m.num_nodes() <= 10,
        "got {} nodes, expected small",
        m.num_nodes()
    );
}
