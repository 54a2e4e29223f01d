//! Decision diagrams as mathematical trees, and the functions they stand for.
//!
//! An arena holds shared nodes; [`Bdd`] is what such a node unfolds to. The main
//! result is [`theorem_canonical`]: ordered and reduced trees that stand for the
//! same function are equal.

use vstd::prelude::*;

verus! {

/// A binary decision tree.
pub enum Bdd {
    Leaf(bool),
    Branch { var: u32, lo: Box<Bdd>, hi: Box<Bdd> },
}

/// An assignment of truth values to variables.
pub type Env = spec_fn(u32) -> bool;

/// `env` with variable `v` set to `b`.
pub open spec fn env_with(env: Env, v: u32, b: bool) -> Env {
    |x: u32|
        if x == v {
            b
        } else {
            env(x)
        }
}

/// The value of `t` under `env`.
pub open spec fn eval(t: Bdd, env: Env) -> bool
    decreases t,
{
    match t {
        Bdd::Leaf(b) => b,
        Bdd::Branch { var, lo, hi } => if env(var) {
            eval(*hi, env)
        } else {
            eval(*lo, env)
        },
    }
}

/// The level of a leaf: below that of every variable.
pub open spec fn leaf_level() -> int {
    u32::MAX + 1
}

/// The level of the top of `t`: its variable, or the leaf level.
pub open spec fn level(t: Bdd) -> int {
    match t {
        Bdd::Leaf(_) => leaf_level(),
        Bdd::Branch { var, .. } => var as int,
    }
}

/// Variables increase along every path.
pub open spec fn ordered(t: Bdd) -> bool
    decreases t,
{
    match t {
        Bdd::Leaf(_) => true,
        Bdd::Branch { var, lo, hi } => level(*lo) > var && level(*hi) > var && ordered(*lo)
            && ordered(*hi),
    }
}

/// No branch has two equal children.
pub open spec fn reduced(t: Bdd) -> bool
    decreases t,
{
    match t {
        Bdd::Leaf(_) => true,
        Bdd::Branch { var, lo, hi } => *lo != *hi && reduced(*lo) && reduced(*hi),
    }
}

/// Every variable of `t` is below `n`.
pub open spec fn vars_below(t: Bdd, n: int) -> bool
    decreases t,
{
    match t {
        Bdd::Leaf(_) => true,
        Bdd::Branch { var, lo, hi } => var < n && vars_below(*lo, n) && vars_below(*hi, n),
    }
}

/// The variables that occur in `t`.
pub open spec fn support(t: Bdd) -> Set<u32>
    decreases t,
{
    match t {
        Bdd::Leaf(_) => Set::empty(),
        Bdd::Branch { var, lo, hi } => support(*lo).union(support(*hi)).insert(var),
    }
}

/// The number of branches and leaves of `t`.
pub open spec fn size(t: Bdd) -> nat
    decreases t,
{
    match t {
        Bdd::Leaf(_) => 1,
        Bdd::Branch { var, lo, hi } => 1 + size(*lo) + size(*hi),
    }
}

/// The different branches of `t`, shared ones counted once.
pub open spec fn branches(t: Bdd) -> Set<Bdd>
    decreases t,
{
    match t {
        Bdd::Leaf(_) => Set::empty(),
        Bdd::Branch { var, lo, hi } => branches(*lo).union(branches(*hi)).insert(t),
    }
}

/// Both trees have the same value under every assignment.
pub open spec fn same_function(a: Bdd, b: Bdd) -> bool {
    forall|env: Env| #[trigger] eval(a, env) == eval(b, env)
}

/// The value of `t` depends on the variables in its support alone.
pub proof fn lemma_eval_support(t: Bdd, e1: Env, e2: Env)
    requires
        forall|v: u32| support(t).contains(v) ==> e1(v) == e2(v),
    ensures
        eval(t, e1) == eval(t, e2),
    decreases t,
{
    if let Bdd::Branch { var, lo, hi } = t {
        assert(support(t).contains(var));
        assert forall|v: u32| support(*lo).contains(v) implies e1(v) == e2(v) by {
            assert(support(t).contains(v));
        }
        assert forall|v: u32| support(*hi).contains(v) implies e1(v) == e2(v) by {
            assert(support(t).contains(v));
        }
        lemma_eval_support(*lo, e1, e2);
        lemma_eval_support(*hi, e1, e2);
    }
}

/// The support of an ordered tree starts at its level.
pub proof fn lemma_support_level(t: Bdd, v: u32)
    requires
        ordered(t),
        support(t).contains(v),
    ensures
        level(t) <= v,
    decreases t,
{
    if let Bdd::Branch { var, lo, hi } = t {
        if v != var {
            if support(*lo).contains(v) {
                lemma_support_level(*lo, v);
            } else {
                lemma_support_level(*hi, v);
            }
        }
    }
}

/// A larger bound bounds the variables too.
pub proof fn lemma_vars_below_mono(t: Bdd, n: int, m: int)
    requires
        vars_below(t, n),
        n <= m,
    ensures
        vars_below(t, m),
    decreases t,
{
    if let Bdd::Branch { var, lo, hi } = t {
        lemma_vars_below_mono(*lo, n, m);
        lemma_vars_below_mono(*hi, n, m);
    }
}

/// An ordered tree does not depend on variables above its top.
pub proof fn lemma_eval_above(t: Bdd, env: Env, v: u32, b: bool)
    requires
        ordered(t),
        v < level(t),
    ensures
        eval(t, env_with(env, v, b)) == eval(t, env),
{
    assert forall|x: u32| support(t).contains(x) implies env_with(env, v, b)(x) == env(x) by {
        lemma_support_level(t, x);
    }
    lemma_eval_support(t, env_with(env, v, b), env);
}

/// The children of an ordered branch are its cofactors.
pub proof fn lemma_eval_children(t: Bdd, env: Env)
    requires
        ordered(t),
        t is Branch,
    ensures
        eval(*t->lo, env) == eval(t, env_with(env, t->var, false)),
        eval(*t->hi, env) == eval(t, env_with(env, t->var, true)),
{
    lemma_eval_above(*t->lo, env, t->var, false);
    lemma_eval_above(*t->hi, env, t->var, true);
}

/// A branch whose function does not depend on its top variable has two equal
/// children.
proof fn lemma_top_matters(t: Bdd, other: Bdd)
    requires
        t is Branch,
        ordered(t),
        reduced(t),
        ordered(other),
        reduced(other),
        t->var < level(other),
    ensures
        !same_function(t, other),
    decreases size(t) + size(other), 0int,
{
    if same_function(t, other) {
        assert forall|env: Env| #[trigger] eval(*t->lo, env) == eval(*t->hi, env) by {
            lemma_eval_children(t, env);
            assert(eval(t, env_with(env, t->var, false)) == eval(
                other,
                env_with(env, t->var, false),
            ));
            assert(eval(t, env_with(env, t->var, true)) == eval(
                other,
                env_with(env, t->var, true),
            ));
            lemma_eval_above(other, env, t->var, false);
            lemma_eval_above(other, env, t->var, true);
        }
        theorem_canonical(*t->lo, *t->hi);
    }
}

/// **Canonicity.** Ordered and reduced trees that stand for the same function
/// are the same tree.
pub proof fn theorem_canonical(a: Bdd, b: Bdd)
    requires
        ordered(a),
        ordered(b),
        reduced(a),
        reduced(b),
        same_function(a, b),
    ensures
        a == b,
    decreases size(a) + size(b), 1int,
{
    match (a, b) {
        (Bdd::Leaf(x), Bdd::Leaf(y)) => {
            let env: Env = |v: u32| false;
            assert(eval(a, env) == eval(b, env));
        },
        (Bdd::Branch { var: v, lo: lo1, hi: hi1 }, Bdd::Branch { var: w, lo: lo2, hi: hi2 }) => {
            if v < w {
                lemma_top_matters(a, b);
            } else if w < v {
                assert forall|env: Env| #[trigger] eval(b, env) == eval(a, env) by {
                    assert(eval(a, env) == eval(b, env));
                }
                lemma_top_matters(b, a);
            } else {
                assert forall|env: Env| #[trigger] eval(*lo1, env) == eval(*lo2, env) by {
                    lemma_eval_children(a, env);
                    lemma_eval_children(b, env);
                    assert(eval(a, env_with(env, v, false)) == eval(b, env_with(env, v, false)));
                }
                theorem_canonical(*lo1, *lo2);
                assert forall|env: Env| #[trigger] eval(*hi1, env) == eval(*hi2, env) by {
                    lemma_eval_children(a, env);
                    lemma_eval_children(b, env);
                    assert(eval(a, env_with(env, v, true)) == eval(b, env_with(env, v, true)));
                }
                theorem_canonical(*hi1, *hi2);
            }
        },
        (Bdd::Branch { .. }, Bdd::Leaf(_)) => {
            lemma_top_matters(a, b);
        },
        (Bdd::Leaf(_), Bdd::Branch { .. }) => {
            assert forall|env: Env| #[trigger] eval(b, env) == eval(a, env) by {
                assert(eval(a, env) == eval(b, env));
            }
            lemma_top_matters(b, a);
        },
    }
}

// ---------------------------------------------------------------------------
// Counting
// ---------------------------------------------------------------------------

/// The number of assignments to the variables from `k` to `n`, without `n`, that
/// make `t` true where all other variables are as in `env`.
pub open spec fn assignments(t: Bdd, env: Env, k: nat, n: nat) -> nat
    decreases n - k,
{
    if k >= n {
        if eval(t, env) {
            1
        } else {
            0
        }
    } else {
        assignments(t, env_with(env, k as u32, false), k + 1, n) + assignments(
            t,
            env_with(env, k as u32, true),
            k + 1,
            n,
        )
    }
}

/// The number of assignments to the first `n` variables that make `t` true.
pub open spec fn count_sat(t: Bdd, n: nat) -> nat {
    assignments(t, |v: u32| false, 0, n)
}

/// The same number, read off an ordered tree: a variable that is skipped doubles
/// it.
pub open spec fn models(t: Bdd, k: nat, n: nat) -> nat
    decreases n - k,
{
    if k >= n {
        if t == Bdd::Leaf(true) {
            1
        } else {
            0
        }
    } else {
        match t {
            Bdd::Branch { var, lo, hi } => if var == k {
                models(*lo, k + 1, n) + models(*hi, k + 1, n)
            } else {
                2 * models(t, k + 1, n)
            },
            Bdd::Leaf(_) => 2 * models(t, k + 1, n),
        }
    }
}

/// Where the top variable has been assigned, one child is left to count.
proof fn lemma_assignments_child(t: Bdd, env: Env, k: nat, n: nat)
    requires
        t is Branch,
        t->var < k,
        n <= u32::MAX + 1,
    ensures
        assignments(t, env, k, n) == assignments(
            if env(t->var) {
                *t->hi
            } else {
                *t->lo
            },
            env,
            k,
            n,
        ),
    decreases n - k,
{
    if k < n {
        lemma_assignments_child(t, env_with(env, k as u32, false), k + 1, n);
        lemma_assignments_child(t, env_with(env, k as u32, true), k + 1, n);
    }
}

/// Counting along the tree counts the assignments.
pub proof fn lemma_models(t: Bdd, env: Env, k: nat, n: nat)
    requires
        ordered(t),
        k <= level(t),
        vars_below(t, n as int),
        k <= n <= u32::MAX + 1,
    ensures
        assignments(t, env, k, n) == models(t, k, n),
    decreases n - k,
{
    if k < n {
        let e0 = env_with(env, k as u32, false);
        let e1 = env_with(env, k as u32, true);
        if t is Branch && t->var == k {
            lemma_assignments_child(t, e0, k + 1, n);
            lemma_assignments_child(t, e1, k + 1, n);
            lemma_models(*t->lo, e0, k + 1, n);
            lemma_models(*t->hi, e1, k + 1, n);
        } else {
            lemma_models(t, e0, k + 1, n);
            lemma_models(t, e1, k + 1, n);
        }
    }
}

/// `x` doubled `d` times.
pub open spec fn doubled(x: nat, d: nat) -> nat
    decreases d,
{
    if d == 0 {
        x
    } else {
        2 * doubled(x, (d - 1) as nat)
    }
}

/// The level of the top of `t`, or `n` for a leaf.
pub open spec fn level_or(t: Bdd, n: nat) -> nat {
    match t {
        Bdd::Leaf(_) => n,
        Bdd::Branch { var, .. } => var as nat,
    }
}

/// Each variable above the top doubles the count.
pub proof fn lemma_models_doubled(t: Bdd, k: nat, n: nat)
    requires
        k <= level_or(t, n) <= n,
    ensures
        models(t, k, n) == doubled(models(t, level_or(t, n), n), (level_or(t, n) - k) as nat),
    decreases level_or(t, n) - k,
{
    if k < level_or(t, n) {
        lemma_models_doubled(t, k + 1, n);
    }
}

/// Doubling does not decrease, and keeps 0.
pub proof fn lemma_doubled(x: nat, d: nat)
    ensures
        doubled(x, d) >= x,
        x == 0 ==> doubled(x, d) == 0,
        doubled(2 * x, d) == 2 * doubled(x, d),
    decreases d,
{
    if d > 0 {
        lemma_doubled(x, (d - 1) as nat);
    }
}

/// A function and its negation divide the assignments between them: together
/// they are as many as there are.
pub proof fn lemma_complement_assignments(a: Bdd, b: Bdd, env: Env, k: nat, n: nat)
    requires
        forall|e: Env| #[trigger] eval(b, e) == !eval(a, e),
        k <= n,
    ensures
        assignments(a, env, k, n) + assignments(b, env, k, n) == doubled(1, (n - k) as nat),
    decreases n - k,
{
    if k < n {
        lemma_complement_assignments(a, b, env_with(env, k as u32, false), k + 1, n);
        lemma_complement_assignments(a, b, env_with(env, k as u32, true), k + 1, n);
    }
}

} // verus!
