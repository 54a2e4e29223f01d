//! If-then-else with the apply cache, as a function on states, and as the run of
//! a work stack.
//!
//! [`ite_memo`] is Shannon expansion that looks into the cache first and stores
//! what it computes. [`run`] does the same with an explicit stack of frames. The
//! lemmas show that the two agree, and that the cache changes nothing about the
//! arena and the reference that come out.

use crate::apply::{
    branch, intern, internable, ite_on, ite_sound, law_ite_again, lemma_branch, lemma_intern_grows,
    lemma_ite, lemma_same_trees, rank3, top, triple_in, trivial, Triple,
};
use crate::arena::{arena_ok, extends, lemma_extends, lemma_tree_submap, nodes};
use crate::cache::{
    count_event, count_pattern, probe, slot_of, stored, triple_hash, ApplyStats, Entry,
};
use crate::codec::Ref;
use crate::unique::lemma_home;
use vstd::prelude::*;

verus! {

/// What if-then-else works on: the arena, the cache and the counters.
pub struct State {
    pub buf: Seq<u8>,
    pub memo: Seq<Option<Entry>>,
    pub stats: ApplyStats,
}

/// The state after probing the cache for `t`.
pub open spec fn after_probe(st: State, t: Triple) -> State {
    State {
        stats: count_event(count_pattern(st.stats, t), probe(st.memo, t).1),
        ..st
    }
}

/// The state and the reference after building the node over the results of both
/// branches of `t`, and storing it.
pub open spec fn combine(st: State, t: Triple, var: u32, lo: Ref, hi: Ref) -> (State, Ref) {
    let (buf, r) = intern(st.buf, var, lo, hi);
    (State { buf, memo: stored(st.memo, t, r), ..st }, r)
}

/// If-then-else with the cache; `None` where the arena would outgrow its offsets.
pub open spec fn ite_memo(st: State, t: Triple) -> Option<(State, Ref)>
    decreases rank3(t),
{
    let s = nodes(st.buf);
    let st1 = after_probe(st, t);
    match trivial(t) {
        Some(r) => Some((st, r)),
        None => match probe(st.memo, t).0 {
            Some(r) => Some((st1, r)),
            None => if rank3(branch(s, t, false)) < rank3(t) && rank3(branch(s, t, true)) < rank3(
                t,
            ) {
                match ite_memo(st1, branch(s, t, false)) {
                    None => None,
                    Some((st2, lo)) => match ite_memo(st2, branch(s, t, true)) {
                        None => None,
                        Some((st3, hi)) => {
                            let (st4, r) = combine(st3, t, top(s, t) as u32, lo, hi);
                            if st4.buf.len() <= u64::MAX {
                                Some((st4, r))
                            } else {
                                None
                            }
                        },
                    },
                }
            } else {
                None
            },
        },
    }
}

/// If-then-else as it is called: the cache is probed once more before the
/// expansion begins.
pub open spec fn ite_call(st: State, t: Triple) -> Option<(State, Ref)> {
    match trivial(t) {
        Some(r) => Some((st, r)),
        None => match probe(st.memo, t).0 {
            Some(r) => Some((after_probe(st, t), r)),
            None => ite_memo(after_probe(st, t), t),
        },
    }
}

// ---------------------------------------------------------------------------
// The cache holds true results
// ---------------------------------------------------------------------------

/// Whether `e` is a result that the arena holds already.
pub open spec fn entry_ok(buf: Seq<u8>, e: Entry) -> bool {
    triple_in(nodes(buf), e.t) && ite_on(buf, e.t) == (buf, e.r)
}

/// Whether every entry is a result that the arena holds already.
#[verifier::opaque]
pub open spec fn memo_ok(memo: Seq<Option<Entry>>, buf: Seq<u8>) -> bool {
    &&& 0 < memo.len() <= u64::MAX
    &&& forall|i: int|
        0 <= i < memo.len() && #[trigger] memo[i] is Some ==> entry_ok(buf, memo[i]->0)
}

/// The cache stays true as the arena grows.
pub proof fn lemma_memo_extends(memo: Seq<Option<Entry>>, buf: Seq<u8>, later: Seq<u8>)
    requires
        memo_ok(memo, buf),
        arena_ok(buf),
        arena_ok(later),
        extends(buf, later),
    ensures
        memo_ok(memo, later),
{
    reveal(memo_ok);
    lemma_extends(buf, later);
    assert forall|i: int| 0 <= i < memo.len() && #[trigger] memo[i] is Some implies entry_ok(
        later,
        memo[i]->0,
    ) by {
        let e = memo[i]->0;
        assert(entry_ok(buf, e));
        lemma_same_trees(nodes(buf), nodes(later), e.t);
        law_ite_again(buf, e.t, later);
    }
}

/// Storing a true result keeps the cache true.
pub proof fn lemma_memo_stored(memo: Seq<Option<Entry>>, buf: Seq<u8>, e: Entry)
    requires
        memo_ok(memo, buf),
        entry_ok(buf, e),
    ensures
        memo_ok(stored(memo, e.t, e.r), buf),
        stored(memo, e.t, e.r).len() == memo.len(),
{
    reveal(memo_ok);
    lemma_home(triple_hash(e.t), memo.len());
}

/// A hit is the true result.
pub proof fn lemma_memo_hit(memo: Seq<Option<Entry>>, buf: Seq<u8>, t: Triple)
    requires
        memo_ok(memo, buf),
        probe(memo, t).0 is Some,
    ensures
        ite_on(buf, t) == (buf, probe(memo, t).0.unwrap()),
{
    reveal(memo_ok);
    lemma_home(triple_hash(t), memo.len());
    let i = slot_of(t, memo.len());
    assert(memo[i] is Some);
}

/// A state that if-then-else can start from.
pub open spec fn state_ok(st: State) -> bool {
    arena_ok(st.buf) && memo_ok(st.memo, st.buf)
}

/// The cache changes nothing about the arena and the reference that come out.
pub proof fn lemma_memo(st: State, t: Triple)
    requires
        state_ok(st),
        triple_in(nodes(st.buf), t),
        ite_memo(st, t) is Some,
    ensures
        ({
            let (st2, r) = ite_memo(st, t)->0;
            &&& ite_on(st.buf, t) == (st2.buf, r)
            &&& st2.buf.len() <= u64::MAX
            &&& state_ok(st2)
            &&& st2.memo.len() == st.memo.len()
        }),
    decreases rank3(t),
{
    let s = nodes(st.buf);
    if trivial(t) is None {
        let st1 = after_probe(st, t);
        if probe(st.memo, t).0 is Some {
            lemma_memo_hit(st.memo, st.buf, t);
        } else {
            let t0 = branch(s, t, false);
            let t1 = branch(s, t, true);
            lemma_branch(st.buf, t, false);
            lemma_branch(st.buf, t, true);
            let (st2, lo) = ite_memo(st1, t0)->0;
            lemma_memo(st1, t0);
            lemma_ite(st.buf, t0);
            lemma_same_trees(s, nodes(st2.buf), t1);
            let (st3, hi) = ite_memo(st2, t1)->0;
            lemma_memo(st2, t1);
            lemma_memo_combine(st, t, st3, lo, hi);
        }
    }
}

/// The last step of an expansion keeps the state sound.
proof fn lemma_memo_combine(st: State, t: Triple, st3: State, lo: Ref, hi: Ref)
    requires
        arena_ok(st.buf),
        triple_in(nodes(st.buf), t),
        state_ok(st3),
        ite_on(st.buf, t) == intern(st3.buf, top(nodes(st.buf), t) as u32, lo, hi),
        combine(st3, t, top(nodes(st.buf), t) as u32, lo, hi).0.buf.len() <= u64::MAX,
    ensures
        ({
            let (st4, r) = combine(st3, t, top(nodes(st.buf), t) as u32, lo, hi);
            &&& ite_on(st.buf, t) == (st4.buf, r)
            &&& state_ok(st4)
            &&& st4.memo.len() == st3.memo.len()
        }),
{
    let s = nodes(st.buf);
    let v = top(s, t) as u32;
    let (st4, r) = combine(st3, t, v, lo, hi);
    lemma_ite_entry(st.buf, t);
    lemma_intern_grows(st3.buf, v, lo, hi);
    lemma_memo_extends(st3.memo, st3.buf, st4.buf);
    lemma_memo_stored(st3.memo, st4.buf, Entry { t, r });
}

/// What comes out of an if-then-else is a result that the arena holds.
proof fn lemma_ite_entry(buf: Seq<u8>, t: Triple)
    requires
        arena_ok(buf),
        triple_in(nodes(buf), t),
        ite_on(buf, t).0.len() <= u64::MAX,
    ensures
        arena_ok(ite_on(buf, t).0),
        entry_ok(ite_on(buf, t).0, Entry { t, r: ite_on(buf, t).1 }),
{
    let out = ite_on(buf, t).0;
    lemma_ite(buf, t);
    lemma_same_trees(nodes(buf), nodes(out), t);
    assert(out.take(out.len() as int) =~= out);
    law_ite_again(buf, t, out);
}

/// The same of a call.
pub proof fn lemma_call(st: State, t: Triple)
    requires
        state_ok(st),
        triple_in(nodes(st.buf), t),
        ite_call(st, t) is Some,
    ensures
        ({
            let (st2, r) = ite_call(st, t)->0;
            &&& ite_on(st.buf, t) == (st2.buf, r)
            &&& st2.buf.len() <= u64::MAX
            &&& state_ok(st2)
            &&& st2.memo.len() == st.memo.len()
            &&& ite_sound(st.buf, t, st2.buf, r)
        }),
{
    if trivial(t) is None {
        if probe(st.memo, t).0 is Some {
            lemma_memo_hit(st.memo, st.buf, t);
        } else {
            lemma_memo(after_probe(st, t), t);
        }
    }
    lemma_ite(st.buf, t);
}

// ---------------------------------------------------------------------------
// The work stack
// ---------------------------------------------------------------------------

/// A piece of pending work: an if-then-else to be evaluated, or the two results
/// of its branches to be combined into a node.
#[derive(Copy, Clone)]
pub enum Frame {
    Enter { f: Ref, g: Ref, h: Ref },
    Combine { f: Ref, g: Ref, h: Ref, tv: u32 },
}

/// How a run ends: with its last state and the results, in an arena that would
/// outgrow its offsets, or on frames and results that do not fit together.
pub enum Outcome {
    Done(State, Seq<Ref>),
    Full,
    Stuck,
}

/// The cost of evaluating a triple of rank `k`.
pub open spec fn enter_cost(k: nat) -> nat
    decreases k,
{
    if k == 0 {
        1
    } else {
        2 * enter_cost((k - 1) as nat) + 2
    }
}

pub open spec fn frame_cost(f: Frame) -> nat {
    match f {
        Frame::Enter { f, g, h } => enter_cost(rank3(Triple { f, g, h })),
        Frame::Combine { .. } => 1,
    }
}

/// A measure of the pending work, which decreases with every step.
pub open spec fn stack_cost(stack: Seq<Frame>) -> nat
    decreases stack.len(),
{
    if stack.len() == 0 {
        0
    } else {
        stack_cost(stack.drop_last()) + frame_cost(stack.last())
    }
}

pub proof fn lemma_cost_push(stack: Seq<Frame>, f: Frame)
    ensures
        stack_cost(stack.push(f)) == stack_cost(stack) + frame_cost(f),
{
    assert(stack.push(f).drop_last() =~= stack);
}

pub proof fn lemma_enter_cost(a: nat, b: nat)
    requires
        a < b,
    ensures
        enter_cost(b) >= 2 * enter_cost(a) + 2,
    decreases b,
{
    if a + 1 < b {
        lemma_enter_cost(a, (b - 1) as nat);
    }
}

/// Expanding costs more than what it leaves to do.
pub proof fn lemma_expand_cost(rest: Seq<Frame>, t: Triple, tv: u32, t0: Triple, t1: Triple)
    requires
        rank3(t0) < rank3(t),
        rank3(t1) < rank3(t),
    ensures
        stack_cost(expanded(rest, t, tv, t0, t1)) < stack_cost(
            rest.push(Frame::Enter { f: t.f, g: t.g, h: t.h }),
        ),
{
    let c = Frame::Combine { f: t.f, g: t.g, h: t.h, tv };
    let e1 = Frame::Enter { f: t1.f, g: t1.g, h: t1.h };
    let e0 = Frame::Enter { f: t0.f, g: t0.g, h: t0.h };
    lemma_cost_push(rest, Frame::Enter { f: t.f, g: t.g, h: t.h });
    lemma_cost_push(rest, c);
    lemma_cost_push(rest.push(c), e1);
    lemma_cost_push(rest.push(c).push(e1), e0);
    lemma_enter_cost(rank3(t0), rank3(t));
    lemma_enter_cost(rank3(t1), rank3(t));
}

/// The work of evaluating `t`.
pub open spec fn enter(t: Triple) -> Frame {
    Frame::Enter { f: t.f, g: t.g, h: t.h }
}

/// `rest` with the expansion of `t` on top: the low branch first, then the high
/// one, then the node over both.
pub open spec fn expanded(
    rest: Seq<Frame>,
    t: Triple,
    tv: u32,
    t0: Triple,
    t1: Triple,
) -> Seq<Frame> {
    rest.push(Frame::Combine { f: t.f, g: t.g, h: t.h, tv }).push(
        Frame::Enter { f: t1.f, g: t1.g, h: t1.h },
    ).push(Frame::Enter { f: t0.f, g: t0.g, h: t0.h })
}

/// `results` with the top two replaced by `r`.
pub open spec fn combined(results: Seq<Ref>, r: Ref) -> Seq<Ref> {
    results.drop_last().drop_last().push(r)
}

/// Works off `stack`, on top of the results of what was worked off before.
#[verifier::opaque]
pub open spec fn run(stack: Seq<Frame>, results: Seq<Ref>, st: State) -> Outcome
    decreases stack_cost(stack),
    via run_decreases
{
    if stack.len() == 0 {
        Outcome::Done(st, results)
    } else {
        let rest = stack.drop_last();
        match stack.last() {
            Frame::Enter { f, g, h } => {
                let t = Triple { f, g, h };
                match trivial(t) {
                    Some(r) => run(rest, results.push(r), st),
                    None => match probe(st.memo, t).0 {
                        Some(r) => run(rest, results.push(r), after_probe(st, t)),
                        None => {
                            let s = nodes(st.buf);
                            let t0 = branch(s, t, false);
                            let t1 = branch(s, t, true);
                            if rank3(t0) < rank3(t) && rank3(t1) < rank3(t) {
                                run(
                                    expanded(rest, t, top(s, t) as u32, t0, t1),
                                    results,
                                    after_probe(st, t),
                                )
                            } else {
                                Outcome::Stuck
                            }
                        },
                    },
                }
            },
            Frame::Combine { f, g, h, tv } => {
                let t = Triple { f, g, h };
                let hi = results.last();
                let lo = results.drop_last().last();
                let (st2, r) = combine(st, t, tv, lo, hi);
                if results.len() < 2 || !internable(nodes(st.buf), tv, lo, hi) {
                    Outcome::Stuck
                } else if st2.buf.len() > u64::MAX {
                    Outcome::Full
                } else if !entry_ok(st2.buf, Entry { t, r }) {
                    Outcome::Stuck
                } else {
                    run(rest, combined(results, r), st2)
                }
            },
        }
    }
}

#[via_fn]
proof fn run_decreases(stack: Seq<Frame>, results: Seq<Ref>, st: State) {
    if stack.len() > 0 {
        let rest = stack.drop_last();
        assert(rest.push(stack.last()) =~= stack);
        match stack.last() {
            Frame::Enter { f, g, h } => {
                let t = Triple { f, g, h };
                let s = nodes(st.buf);
                let t0 = branch(s, t, false);
                let t1 = branch(s, t, true);
                assert(enter_cost(rank3(t)) >= 1);
                if rank3(t0) < rank3(t) && rank3(t1) < rank3(t) {
                    lemma_expand_cost(rest, t, top(s, t) as u32, t0, t1);
                }
            },
            Frame::Combine { .. } => {},
        }
    }
}

/// A triple on top of the stack: its result where that is at hand, else its
/// expansion.
pub proof fn lemma_step_enter(stack: Seq<Frame>, results: Seq<Ref>, st: State, t: Triple)
    ensures
        run(stack.push(Frame::Enter { f: t.f, g: t.g, h: t.h }), results, st) == {
            let s = nodes(st.buf);
            let t0 = branch(s, t, false);
            let t1 = branch(s, t, true);
            match (trivial(t), probe(st.memo, t).0) {
                (Some(r), _) => run(stack, results.push(r), st),
                (None, Some(r)) => run(stack, results.push(r), after_probe(st, t)),
                (None, None) => if rank3(t0) < rank3(t) && rank3(t1) < rank3(t) {
                    run(
                        expanded(stack, t, top(s, t) as u32, t0, t1),
                        results,
                        after_probe(st, t),
                    )
                } else {
                    Outcome::Stuck
                },
            }
        },
{
    reveal(run);
    assert(stack.push(Frame::Enter { f: t.f, g: t.g, h: t.h }).drop_last() =~= stack);
}

/// Two results to be combined on top of the stack: the node over them.
pub proof fn lemma_step_combine(
    stack: Seq<Frame>,
    results: Seq<Ref>,
    st: State,
    t: Triple,
    tv: u32,
    lo: Ref,
    hi: Ref,
)
    ensures
        run(
            stack.push(Frame::Combine { f: t.f, g: t.g, h: t.h, tv }),
            results.push(lo).push(hi),
            st,
        ) == {
            let (st2, r) = combine(st, t, tv, lo, hi);
            if !internable(nodes(st.buf), tv, lo, hi) {
                Outcome::Stuck
            } else if st2.buf.len() > u64::MAX {
                Outcome::Full
            } else if !entry_ok(st2.buf, Entry { t, r }) {
                Outcome::Stuck
            } else {
                run(stack, results.push(r), st2)
            }
        },
{
    reveal(run);
    let both = results.push(lo).push(hi);
    assert(both.drop_last() =~= results.push(lo));
    assert(both.drop_last().drop_last() =~= results);
    assert(stack.push(Frame::Combine { f: t.f, g: t.g, h: t.h, tv }).drop_last() =~= stack);
}

/// Where a run does not get stuck, there are two results to be combined.
pub proof fn lemma_step_results(stack: Seq<Frame>, results: Seq<Ref>, st: State)
    requires
        stack.len() > 0,
        stack.last() is Combine,
        run(stack, results, st) != Outcome::Stuck,
    ensures
        results.len() >= 2,
{
    reveal(run);
}

/// An empty stack: the run is over.
pub proof fn lemma_step_empty(results: Seq<Ref>, st: State)
    ensures
        run(seq![], results, st) == Outcome::Done(st, results),
{
    reveal(run);
}

/// Working off a triple on top of the stack is if-then-else with the cache.
pub proof fn lemma_run_enter(stack: Seq<Frame>, results: Seq<Ref>, st: State, t: Triple)
    requires
        state_ok(st),
        triple_in(nodes(st.buf), t),
    ensures
        run(stack.push(Frame::Enter { f: t.f, g: t.g, h: t.h }), results, st) == match ite_memo(
            st,
            t,
        ) {
            None => Outcome::Full,
            Some((st2, r)) => run(stack, results.push(r), st2),
        },
    decreases rank3(t),
{
    lemma_step_enter(stack, results, st, t);
    if trivial(t) is None && probe(st.memo, t).0 is None {
        let s = nodes(st.buf);
        let v = top(s, t) as u32;
        let t0 = branch(s, t, false);
        let t1 = branch(s, t, true);
        lemma_branch(st.buf, t, false);
        lemma_branch(st.buf, t, true);
        let st1 = after_probe(st, t);
        let c = stack.push(Frame::Combine { f: t.f, g: t.g, h: t.h, tv: v });
        let ce = c.push(Frame::Enter { f: t1.f, g: t1.g, h: t1.h });
        lemma_run_enter(ce, results, st1, t0);
        if ite_memo(st1, t0) is Some {
            let (st2, lo) = ite_memo(st1, t0)->0;
            lemma_memo(st1, t0);
            lemma_ite(st.buf, t0);
            lemma_same_trees(s, nodes(st2.buf), t1);
            lemma_run_enter(c, results.push(lo), st2, t1);
            if ite_memo(st2, t1) is Some {
                let (st3, hi) = ite_memo(st2, t1)->0;
                lemma_memo(st2, t1);
                lemma_ite(st2.buf, t1);
                lemma_tree_submap(nodes(st2.buf), nodes(st3.buf), lo);
                assert(internable(nodes(st3.buf), v, lo, hi));
                if combine(st3, t, v, lo, hi).0.buf.len() <= u64::MAX {
                    lemma_ite_entry(st.buf, t);
                }
                lemma_step_combine(stack, results, st3, t, v, lo, hi);
            }
        }
    }
}

/// A run that starts with one triple is if-then-else with the cache.
pub proof fn lemma_run_whole(st: State, t: Triple)
    requires
        state_ok(st),
        triple_in(nodes(st.buf), t),
    ensures
        run(seq![Frame::Enter { f: t.f, g: t.g, h: t.h }], seq![], st) == match ite_memo(st, t) {
            None => Outcome::Full,
            Some((st2, r)) => Outcome::Done(st2, seq![r]),
        },
{
    lemma_run_enter(seq![], seq![], st, t);
    assert(Seq::<Frame>::empty().push(Frame::Enter { f: t.f, g: t.g, h: t.h }) =~= seq![
        Frame::Enter { f: t.f, g: t.g, h: t.h },
    ]);
    if let Some((st2, r)) = ite_memo(st, t) {
        assert(Seq::<Ref>::empty().push(r) =~= seq![r]);
        lemma_step_empty(seq![r], st2);
    }
}

} // verus!
