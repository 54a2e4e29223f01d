//! Phase counters.

use vwbdd::profile::{reset, snapshot, Guard, Phase, PhaseStat, Snapshot};

#[test]
fn phases_have_names() {
    let names: Vec<&str> = Phase::all().iter().map(|p| p.name()).collect();
    assert_eq!(names, vec!["var_of", "decode_node", "decode_verify", "decode_resize", "encode"]);
}

#[test]
fn calls_are_counted_per_phase() {
    let mut s = Snapshot::default();
    assert_eq!(s.total_ns(), 0);
    s.record(Phase::Encode, 30);
    s.record(Phase::Encode, 12);
    s.record(Phase::VarOf, 5);
    assert_eq!(s.get(Phase::Encode), PhaseStat { calls: 2, ns: 42 });
    assert_eq!(s.get(Phase::VarOf), PhaseStat { calls: 1, ns: 5 });
    assert_eq!(s.get(Phase::DecodeNode), PhaseStat::default());
    assert_eq!(s.total_ns(), 47);
}

#[test]
fn guards_measure_nothing() {
    let _guard = Guard::new(Phase::DecodeResize);
    reset();
    assert_eq!(snapshot().total_ns(), 0);
    assert_eq!(snapshot().get(Phase::DecodeResize).calls, 0);
}
