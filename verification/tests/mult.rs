//! Mult relation x*y=z over k-bit unsigned ints. Bitblasts the multiplier in
//! both engines and compares node counts at each k. Prints bytes/node for
//! vwbdd at each k so we can see the curve.

use oxidd::bdd::{new_manager as oxidd_new_manager, BDDFunction};
use oxidd::{BooleanFunction, Function, Manager as _, ManagerRef};

use vwbdd::{Manager, Ref};


/// Build mult at bit-width k, in both engines, assert matching node counts.
/// Returns (reachable_internal, oxidd_count, mem_after_gc).
fn run_mult(k: u32) -> (usize, usize, vwbdd::MemStats) {
    // --- OxiDD side ---
    let oxm = oxidd_new_manager(1 << 22, 1 << 16, 1);
    let (oxx, oxy, oxz, ox_true, ox_false) = oxm.with_manager_exclusive(|mgr| {
        let names: Vec<String> = (0..k)
            .map(|i| format!("x{}", i))
            .chain((0..k).map(|i| format!("y{}", i)))
            .chain((0..2 * k).map(|i| format!("z{}", i)))
            .collect();
        mgr.add_named_vars(names.iter().map(|s| s.as_str())).unwrap();
        let oxx: Vec<_> = (0..k).map(|i| BDDFunction::var(mgr, i).unwrap()).collect();
        let oxy: Vec<_> = (k..2 * k).map(|i| BDDFunction::var(mgr, i).unwrap()).collect();
        let oxz: Vec<_> = (2 * k..4 * k).map(|i| BDDFunction::var(mgr, i).unwrap()).collect();
        (oxx, oxy, oxz, BDDFunction::t(mgr), BDDFunction::f(mgr))
    });
    let ox_p = ox_mult(&oxx, &oxy, &ox_false);
    let ox_rel = ox_eq(&ox_p, &oxz, &ox_true);
    let oxidd_count = ox_rel.node_count();

    // --- vwbdd side ---
    let mut vw = Manager::new();
    let vrel = build_mult(&mut vw, k);

    let reachable = vw_reachable(&vw, vrel);
    assert_eq!(
        reachable + 2,
        oxidd_count,
        "node count mismatch at k={}: vwbdd={} oxidd={}",
        k,
        reachable + 2,
        oxidd_count
    );

    // GC to reachable set, report post-GC mem.
    let remapped = vw.gc(0, &[vrel]);
    let reachable_post = vw_reachable(&vw, remapped[0]);
    assert_eq!(reachable_post, reachable, "GC should preserve reachable count");
    assert_eq!(
        vw.num_nodes(),
        reachable,
        "post-GC manager should contain only reachable nodes"
    );

    (reachable, oxidd_count, vw.mem_stats())
}

#[test]
fn mult_sweep() {
    println!(
        "{:>3} {:>10} {:>5} {:>7} {:>7} {:>11}",
        "k", "reachable", "arena", "uniq", "cache", "total_live"
    );
    println!(
        "{:>3} {:>10} {:>5} {:>7} {:>7} {:>11}",
        "", "", "B/n", "B/n", "B/n", "B/n (w/ cache)"
    );
    for k in 2..=8 {
        let (reachable, oxidd, mem) = run_mult(k);
        let n = reachable.max(1);
        println!(
            "{:>3} {:>10} {:>5.2} {:>7.2} {:>7.2} {:>5.2}+{:.2}={:.2}  (oxidd={})",
            k,
            reachable,
            mem.arena_bytes as f64 / n as f64,
            mem.unique_bytes as f64 / n as f64,
            mem.cache_bytes as f64 / n as f64,
            mem.total_live() as f64 / n as f64,
            mem.cache_bytes as f64 / n as f64,
            mem.total_with_cache() as f64 / n as f64,
            oxidd,
        );
    }
}

// ---------- vwbdd side ----------

fn vw_vars(vw: &mut Manager, k: u32) -> (Vec<Ref>, Vec<Ref>, Vec<Ref>) {
    let mk = |vw: &mut Manager| {
        let v = vw.new_var();
        let f = vw.false_();
        let t = vw.true_();
        vw.make_node(v, f, t)
    };
    let x: Vec<Ref> = (0..k).map(|_| mk(vw)).collect();
    let y: Vec<Ref> = (0..k).map(|_| mk(vw)).collect();
    let z: Vec<Ref> = (0..2 * k).map(|_| mk(vw)).collect();
    (x, y, z)
}

fn vw_full_adder(vw: &mut Manager, a: Ref, b: Ref, c: Ref) -> (Ref, Ref) {
    let ab = vw.xor(a, b);
    let sum = vw.xor(ab, c);
    let a_and_b = vw.and(a, b);
    let c_and_ab = vw.and(c, ab);
    let carry = vw.or(a_and_b, c_and_ab);
    (sum, carry)
}

fn vw_add(vw: &mut Manager, a: &[Ref], b: &[Ref]) -> Vec<Ref> {
    let mut out = Vec::with_capacity(a.len());
    let mut c = vw.false_();
    for i in 0..a.len() {
        let (s, co) = vw_full_adder(vw, a[i], b[i], c);
        out.push(s);
        c = co;
    }
    out
}

fn vw_mult(vw: &mut Manager, x: &[Ref], y: &[Ref]) -> Vec<Ref> {
    let k = x.len();
    let n = 2 * k;
    let f = vw.false_();
    let mut acc: Vec<Ref> = vec![f; n];
    for j in 0..k {
        let mut pp: Vec<Ref> = vec![f; n];
        for i in 0..k {
            if i + j < n {
                pp[i + j] = vw.and(x[i], y[j]);
            }
        }
        acc = vw_add(vw, &acc, &pp);
    }
    acc
}

fn vw_eq(vw: &mut Manager, p: &[Ref], z: &[Ref]) -> Ref {
    let mut acc = vw.true_();
    for i in 0..p.len() {
        let d = vw.xor(p[i], z[i]);
        let s = vw.not(d);
        acc = vw.and(acc, s);
    }
    acc
}

/// Build the x*y=z relation end-to-end in vwbdd, returning its root.
fn build_mult(vw: &mut Manager, k: u32) -> Ref {
    let (x, y, z) = vw_vars(vw, k);
    let p = vw_mult(vw, &x, &y);
    vw_eq(vw, &p, &z)
}

/// Count reachable internal nodes from a root.
fn vw_reachable(m: &Manager, r: Ref) -> usize {
    let mut seen = std::collections::HashSet::new();
    let mut stk = vec![r];
    while let Some(r) = stk.pop() {
        if let Ref::Node(o) = r {
            if !seen.insert(o) {
                continue;
            }
            let n = m.decode_node(r).unwrap();
            stk.push(n.lo);
            stk.push(n.hi);
        }
    }
    seen.len()
}

// ---------- OxiDD side ----------

fn ox_full_adder(a: &BDDFunction, b: &BDDFunction, c: &BDDFunction) -> (BDDFunction, BDDFunction) {
    let ab = a.xor(b).unwrap();
    let sum = ab.xor(c).unwrap();
    let a_and_b = a.and(b).unwrap();
    let c_and_ab = c.and(&ab).unwrap();
    (sum, a_and_b.or(&c_and_ab).unwrap())
}

fn ox_add(a: &[BDDFunction], b: &[BDDFunction], f: &BDDFunction) -> Vec<BDDFunction> {
    let mut out = Vec::with_capacity(a.len());
    let mut c = f.clone();
    for i in 0..a.len() {
        let (s, co) = ox_full_adder(&a[i], &b[i], &c);
        out.push(s);
        c = co;
    }
    out
}

fn ox_mult(x: &[BDDFunction], y: &[BDDFunction], f: &BDDFunction) -> Vec<BDDFunction> {
    let k = x.len();
    let n = 2 * k;
    let mut acc: Vec<BDDFunction> = (0..n).map(|_| f.clone()).collect();
    for j in 0..k {
        let mut pp: Vec<BDDFunction> = (0..n).map(|_| f.clone()).collect();
        for i in 0..k {
            if i + j < n {
                pp[i + j] = x[i].and(&y[j]).unwrap();
            }
        }
        acc = ox_add(&acc, &pp, f);
    }
    acc
}

fn ox_eq(p: &[BDDFunction], z: &[BDDFunction], t: &BDDFunction) -> BDDFunction {
    let mut acc = t.clone();
    for i in 0..p.len() {
        let d = p[i].xor(&z[i]).unwrap();
        let s = d.not().unwrap();
        acc = acc.and(&s).unwrap();
    }
    acc
}
