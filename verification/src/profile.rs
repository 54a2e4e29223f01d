//! Counters for the time spent in the phases of the engine.
//!
//! The guards here do nothing, so that code may hold one at no cost. A
//! [`Snapshot`] can be filled by whoever holds a clock.

use vstd::prelude::*;

verus! {

/// A phase of the engine.
#[derive(Copy, Clone, Debug, PartialEq, Eq, Structural)]
pub enum Phase {
    /// Reading a node's variable.
    VarOf,
    /// Reading a whole node.
    DecodeNode,
    /// Reading a node to compare it with a key of a unique table.
    DecodeVerify,
    /// Reading a node while a unique table grows.
    DecodeResize,
    /// Writing a new node.
    Encode,
}

/// The number of phases.
pub const PHASES: usize = 5;

/// The place of `p` among the phases.
pub open spec fn place(p: Phase) -> int {
    match p {
        Phase::VarOf => 0,
        Phase::DecodeNode => 1,
        Phase::DecodeVerify => 2,
        Phase::DecodeResize => 3,
        Phase::Encode => 4,
    }
}

impl Phase {
    /// All phases, in their order.
    pub fn all() -> (phases: [Phase; 5])
        ensures
            forall|i: int| 0 <= i < 5 ==> place(#[trigger] phases@[i]) == i,
            phases@ == seq![
                Phase::VarOf,
                Phase::DecodeNode,
                Phase::DecodeVerify,
                Phase::DecodeResize,
                Phase::Encode,
            ],
    {
        [
            Phase::VarOf,
            Phase::DecodeNode,
            Phase::DecodeVerify,
            Phase::DecodeResize,
            Phase::Encode,
        ]
    }

    /// The name of the phase.
    pub fn name(self) -> (name: &'static str)
        ensures
            name == match self {
                Phase::VarOf => "var_of",
                Phase::DecodeNode => "decode_node",
                Phase::DecodeVerify => "decode_verify",
                Phase::DecodeResize => "decode_resize",
                Phase::Encode => "encode",
            },
    {
        match self {
            Phase::VarOf => "var_of",
            Phase::DecodeNode => "decode_node",
            Phase::DecodeVerify => "decode_verify",
            Phase::DecodeResize => "decode_resize",
            Phase::Encode => "encode",
        }
    }

    fn idx(self) -> (i: usize)
        ensures
            i == place(self),
            i < 5,
    {
        match self {
            Phase::VarOf => 0,
            Phase::DecodeNode => 1,
            Phase::DecodeVerify => 2,
            Phase::DecodeResize => 3,
            Phase::Encode => 4,
        }
    }
}

/// How often a phase was entered, and the nanoseconds spent in it.
#[derive(Copy, Clone, Debug, PartialEq, Eq, Structural)]
pub struct PhaseStat {
    pub calls: u64,
    pub ns: u64,
}

impl Default for PhaseStat {
    fn default() -> (s: Self)
        ensures
            s == (PhaseStat { calls: 0, ns: 0 }),
    {
        PhaseStat { calls: 0, ns: 0 }
    }
}

/// The counters of all phases.
#[derive(Copy, Clone, Debug)]
pub struct Snapshot {
    pub stats: [PhaseStat; 5],
}

impl Default for Snapshot {
    fn default() -> (s: Self)
        ensures
            forall|p: Phase| #[trigger] s.at(p) == (PhaseStat { calls: 0, ns: 0 }),
    {
        Snapshot { stats: [PhaseStat { calls: 0, ns: 0 };5] }
    }
}

/// The sum of the nanoseconds in the first `k` counters.
pub open spec fn ns_sum(stats: Seq<PhaseStat>, k: nat) -> nat
    decreases k,
{
    if k == 0 {
        0
    } else {
        ns_sum(stats, (k - 1) as nat) + stats[k - 1].ns as nat
    }
}

/// The total is that of all phases.
pub proof fn law_total(s: Snapshot)
    ensures
        ns_sum(s.stats@, 5) == s.at(Phase::VarOf).ns + s.at(Phase::DecodeNode).ns + s.at(
            Phase::DecodeVerify,
        ).ns + s.at(Phase::DecodeResize).ns + s.at(Phase::Encode).ns,
{
    reveal_with_fuel(ns_sum, 6);
}

impl Snapshot {
    /// The counter of `p`.
    pub open spec fn at(&self, p: Phase) -> PhaseStat {
        self.stats@[place(p)]
    }

    /// The counter of `p`.
    pub fn get(&self, p: Phase) -> (s: PhaseStat)
        ensures
            s == self.at(p),
    {
        self.stats[p.idx()]
    }

    /// The nanoseconds of all phases together.
    pub fn total_ns(&self) -> (total: u64)
        requires
            ns_sum(self.stats@, 5) <= u64::MAX,
        ensures
            total == ns_sum(self.stats@, 5),
    {
        proof {
            reveal_with_fuel(ns_sum, 6);
        }
        self.stats[0].ns + self.stats[1].ns + self.stats[2].ns + self.stats[3].ns
            + self.stats[4].ns
    }

    /// Counts one call of `p` that took `ns` nanoseconds.
    pub fn record(&mut self, p: Phase, ns: u64)
        requires
            old(self).at(p).calls < u64::MAX,
            old(self).at(p).ns + ns <= u64::MAX,
        ensures
            final(self).at(p).calls == old(self).at(p).calls + 1,
            final(self).at(p).ns == old(self).at(p).ns + ns,
            forall|q: Phase| q != p ==> #[trigger] final(self).at(q) == old(self).at(q),
    {
        let i: usize = p.idx();
        let before: PhaseStat = self.stats[i];
        self.stats[i] = PhaseStat { calls: before.calls + 1, ns: before.ns + ns };
    }
}

/// Stands for the time spent in a phase, and measures nothing.
pub struct Guard;

impl Guard {
    /// A guard for `_phase`.
    #[inline]
    pub fn new(_phase: Phase) -> (g: Self)
        ensures
            g == Guard,
    {
        Guard
    }
}

/// The counters: nothing was measured.
pub fn snapshot() -> (s: Snapshot)
    ensures
        forall|p: Phase| #[trigger] s.at(p) == (PhaseStat { calls: 0, ns: 0 }),
{
    Snapshot::default()
}

/// Sets the counters to zero, which they are.
pub fn reset() {
}

} // verus!
