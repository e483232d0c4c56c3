use swamp_plan::creeps::Creeps;
use swamp_plan::game_helpers::{Creep, IdValue};

fn creep(handle: u64, id: u64) -> Creep {
    Creep { handle, id: IdValue::Number(id) }
}

#[test]
fn add_creep_keeps_first_handle_for_an_id() {
    let mut reg = Creeps::new();
    let first = creep(1, 10);
    let second = creep(2, 10);
    assert_eq!(reg.add_creep(first).map(|c| *c), Some(first));
    assert_eq!(reg.add_creep(second).map(|c| *c), Some(first));
    assert_eq!(reg.existing(), &vec![first]);
}

#[test]
fn add_creep_drops_handle_without_id() {
    let mut reg = Creeps::new();
    assert!(reg.add_creep(Creep { handle: 5, id: IdValue::Missing }).is_none());
    assert!(reg.add_creep(Creep { handle: 6, id: IdValue::Malformed }).is_none());
    assert!(reg.existing().is_empty());
}

#[test]
fn add_spawning_never_deduplicates() {
    let mut reg = Creeps::new();
    let c = creep(3, 30);
    reg.add_spawning(c);
    reg.add_spawning(c);
    assert_eq!(reg.spawning(), &vec![c, c]);
    assert!(reg.existing().is_empty());
}

#[test]
fn spawned_and_alive_moves_to_existing() {
    let mut reg = Creeps::new();
    let a = creep(1, 11);
    let b = creep(2, 12);
    reg.add_spawning(a);
    reg.add_spawning(b);
    let left = reg.check_existence(&vec![1, 2]);
    assert_eq!(left, 0);
    assert_eq!(reg.existing(), &vec![a, b]);
    assert!(reg.spawning().is_empty());
}

#[test]
fn not_alive_is_dropped_everywhere() {
    let mut reg = Creeps::new();
    let old = creep(1, 11);
    reg.add_creep(old);
    let spawned = creep(2, 12);
    reg.add_spawning(spawned);
    let left = reg.check_existence(&vec![7]);
    assert_eq!(left, 0);
    assert!(reg.existing().is_empty());
    assert!(reg.spawning().is_empty());
}

#[test]
fn existing_entry_wins_over_spawned_handle_with_same_id() {
    let mut reg = Creeps::new();
    let old = creep(1, 11);
    reg.add_creep(old);
    reg.add_spawning(creep(2, 11));
    reg.check_existence(&vec![1, 2]);
    assert_eq!(reg.existing(), &vec![old]);
}

#[test]
fn spawned_handle_without_id_is_dropped_on_reconcile() {
    let mut reg = Creeps::with_spawning(vec![Creep { handle: 4, id: IdValue::Missing }]);
    assert_eq!(reg.check_existence(&vec![4]), 0);
    assert!(reg.existing().is_empty());
}

#[test]
fn reconcile_twice_equals_once() {
    let mut reg = Creeps::new();
    reg.add_creep(creep(1, 1));
    reg.add_creep(creep(2, 2));
    reg.add_spawning(creep(3, 3));
    reg.add_spawning(creep(4, 4));
    let live = vec![2, 3];
    reg.check_existence(&live);
    let once_existing = reg.existing().clone();
    let once_spawning = reg.spawning().clone();
    reg.check_existence(&live);
    assert_eq!(reg.existing(), &once_existing);
    assert_eq!(reg.spawning(), &once_spawning);
    assert_eq!(once_existing, vec![creep(2, 2), creep(3, 3)]);
}

#[test]
fn add_creep_entry_can_be_changed_in_place() {
    let mut reg = Creeps::new();
    reg.add_creep(creep(1, 10));
    if let Some(c) = reg.add_creep(creep(2, 10)) {
        c.handle = 5;
    }
    assert_eq!(reg.existing(), &vec![creep(5, 10)]);
}
