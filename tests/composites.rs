use swamp_plan::behaviour::{fallback_pass, sequence_pass, Aggregate, Behaviours, StatusMap};
use swamp_plan::plan::{max_util_pick, Plan};
use swamp_plan::predicate::Predicates;

#[test]
fn sequence_stops_at_first_failure() {
    let (ran, status) = sequence_pass(&vec![Some(true), Some(true), Some(false), Some(true)]);
    assert_eq!(ran, 3);
    assert_eq!(status, Some(false));
}

#[test]
fn fallback_stops_at_first_success() {
    let (ran, status) = fallback_pass(&vec![Some(false), Some(false), Some(true), Some(false)]);
    assert_eq!(ran, 3);
    assert_eq!(status, Some(true));
}

#[test]
fn sequence_all_success_and_in_progress() {
    assert_eq!(sequence_pass(&vec![Some(true), Some(true)]), (2, Some(true)));
    assert_eq!(sequence_pass(&vec![Some(true), None, Some(false)]), (2, None));
    assert_eq!(sequence_pass(&vec![]), (0, Some(true)));
}

#[test]
fn fallback_all_failure() {
    assert_eq!(fallback_pass(&vec![Some(false), Some(false)]), (2, Some(false)));
    assert_eq!(fallback_pass(&vec![]), (0, Some(false)));
}

#[test]
fn behaviour_status_rules() {
    let st = vec![Some(true), Some(false)];
    assert_eq!(Behaviours::AllSuccessStatus.status(&st), Some(false));
    assert_eq!(Behaviours::AnySuccessStatus.status(&st), Some(true));
    assert_eq!(Behaviours::ModifyStatus(StatusMap::Invert).status(&st), Some(false));
    assert_eq!(Behaviours::ModifyStatus(StatusMap::ForceNone).status(&st), None);
    assert_eq!(Behaviours::MultiBehaviour(Aggregate::All).status(&st), Some(false));
    assert_eq!(Behaviours::MultiBehaviour(Aggregate::Any).status(&st), Some(true));
    assert_eq!(
        Behaviours::MultiBehaviour(Aggregate::All).status(&vec![Some(true), None]),
        None
    );
    assert_eq!(
        Behaviours::EvaluateStatus(Predicates::AnyFailure).status(&st),
        Some(true)
    );
    assert_eq!(Behaviours::SequenceBehaviour.status(&st), Some(false));
    assert_eq!(Behaviours::FallbackBehaviour.status(&st), Some(true));
}

#[test]
fn max_util_prefers_highest_then_earliest() {
    assert_eq!(max_util_pick(&vec![Some(1), Some(5), Some(5), None]), Some(1));
    assert_eq!(max_util_pick(&vec![None, Some(0), Some(0)]), Some(1));
    assert_eq!(max_util_pick(&vec![None, None]), None);
    assert_eq!(max_util_pick(&vec![]), None);
}

fn status_leaf(name: &str, value: bool) -> Plan {
    let p = if value { Predicates::True } else { Predicates::False };
    Plan::new(Behaviours::EvaluateStatus(p), name, 1, true)
}

#[test]
fn sequence_plan_status_from_children() {
    let mut seq = Plan::new(Behaviours::SequenceBehaviour, "seq", 1, true);
    assert!(seq.insert(status_leaf("a", true)).is_ok());
    assert!(seq.insert(status_leaf("b", true)).is_ok());
    assert!(seq.insert(status_leaf("c", false)).is_ok());
    assert!(seq.insert(status_leaf("d", true)).is_ok());
    assert_eq!(seq.status(), Some(false));
}

#[test]
fn fallback_plan_status_from_children() {
    let mut fb = Plan::new(Behaviours::FallbackBehaviour, "fb", 1, true);
    assert!(fb.insert(status_leaf("a", false)).is_ok());
    assert!(fb.insert(status_leaf("b", false)).is_ok());
    assert!(fb.insert(status_leaf("c", true)).is_ok());
    assert!(fb.insert(status_leaf("d", false)).is_ok());
    assert_eq!(fb.status(), Some(true));
}

fn empty_world() -> swamp_plan::host::World {
    swamp_plan::host::World { spawns: vec![], creeps: vec![], containers: vec![], live: vec![] }
}

fn entered(p: &Plan, name: &str) -> bool {
    p.get(name).unwrap().is_active()
}

#[test]
fn sequence_run_never_reaches_child_after_failure() {
    let mut seq = Plan::new(Behaviours::SequenceBehaviour, "seq", 1, true);
    for (name, v) in [("a", true), ("b", true), ("c", false), ("d", true)] {
        seq.insert(status_leaf(name, v)).unwrap();
    }
    let mut out = Vec::new();
    seq.run(0, &empty_world(), &mut out);
    assert!(entered(&seq, "a") && entered(&seq, "b") && entered(&seq, "c"));
    assert!(!entered(&seq, "d"));
    assert_eq!(seq.status(), Some(false));
}

#[test]
fn fallback_run_never_reaches_child_after_success() {
    let mut fb = Plan::new(Behaviours::FallbackBehaviour, "fb", 1, true);
    for (name, v) in [("a", false), ("b", false), ("c", true), ("d", false)] {
        fb.insert(status_leaf(name, v)).unwrap();
    }
    let mut out = Vec::new();
    fb.run(0, &empty_world(), &mut out);
    assert!(entered(&fb, "a") && entered(&fb, "b") && entered(&fb, "c"));
    assert!(!entered(&fb, "d"));
    assert_eq!(fb.status(), Some(true));
}

#[test]
fn max_util_runs_only_first_due_child() {
    let mut m = Plan::new(Behaviours::MaxUtilBehaviour, "m", 1, true);
    m.insert(Plan::new(Behaviours::SequenceBehaviour, "off", 1, false)).unwrap();
    m.insert(Plan::new(Behaviours::SequenceBehaviour, "x", 1, true)).unwrap();
    m.insert(Plan::new(Behaviours::SequenceBehaviour, "y", 1, true)).unwrap();
    let mut out = Vec::new();
    m.run(0, &empty_world(), &mut out);
    assert!(!entered(&m, "off"));
    assert!(entered(&m, "x"));
    assert!(!entered(&m, "y"));
}

#[test]
fn multi_runs_every_due_child() {
    let mut m = Plan::new(Behaviours::MultiBehaviour(Aggregate::All), "m", 1, true);
    m.insert(status_leaf("a", false)).unwrap();
    m.insert(status_leaf("b", true)).unwrap();
    m.insert(Plan::new(Behaviours::SequenceBehaviour, "slow", 2, true)).unwrap();
    let mut out = Vec::new();
    m.run(1, &empty_world(), &mut out);
    assert!(entered(&m, "a") && entered(&m, "b"));
    assert!(!entered(&m, "slow"));
    assert_eq!(m.status(), Some(false));
}
