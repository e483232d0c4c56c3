use swamp_plan::behaviour::{AttackBehaviour, Behaviours, RootBehaviour};
use swamp_plan::creeps::Creeps;
use swamp_plan::game_helpers::{gen_parts, Creep, IdValue, Part};
use swamp_plan::host::{Command, ContainerInfo, CreepInfo, SpawnInfo, World};
use swamp_plan::plan::{Plan, PlanError};

fn leaf(name: &str) -> Plan {
    Plan::new(Behaviours::SequenceBehaviour, name, 1, true)
}

#[test]
fn inserted_children_are_found_by_name() {
    let mut root = leaf("root");
    for name in ["harvest", "attack", "scout"] {
        assert_eq!(root.insert(leaf(name)), Ok(()));
    }
    for name in ["harvest", "attack", "scout"] {
        assert_eq!(root.get(name).map(|p| p.name().clone()), Some(name.to_string()));
        assert_eq!(root.get_mut(name).map(|p| p.name().clone()), Some(name.to_string()));
    }
    assert!(root.get("missing").is_none());
    let names: Vec<String> = root.children().iter().map(|c| c.name().clone()).collect();
    assert_eq!(names, vec!["harvest", "attack", "scout"]);
}

#[test]
fn reused_name_is_rejected_and_tree_unchanged() {
    let mut root = leaf("root");
    assert_eq!(root.insert(Plan::new(Behaviours::SequenceBehaviour, "a", 3, true)), Ok(()));
    assert_eq!(
        root.insert(Plan::new(Behaviours::FallbackBehaviour, "a", 1, false)),
        Err(PlanError::NameTaken)
    );
    assert_eq!(root.children().len(), 1);
    let a = root.get("a").unwrap();
    assert_eq!(a.period(), 3);
    assert!(a.enabled());
    assert!(matches!(a.behaviour(), Behaviours::SequenceBehaviour));
}

#[test]
fn remove_takes_child_out_and_keeps_order() {
    let mut root = leaf("root");
    root.insert(leaf("a")).unwrap();
    root.insert(leaf("b")).unwrap();
    root.insert(leaf("c")).unwrap();
    assert_eq!(root.remove("b").map(|p| p.name().clone()), Some("b".to_string()));
    assert!(root.remove("b").is_none());
    let names: Vec<String> = root.children().iter().map(|c| c.name().clone()).collect();
    assert_eq!(names, vec!["a", "c"]);
    assert_eq!(root.insert(leaf("b")), Ok(()));
}

#[test]
fn get_mut_changes_the_child_in_place() {
    let mut root = leaf("root");
    root.insert(leaf("a")).unwrap();
    root.get_mut("a").unwrap().insert(leaf("inner")).unwrap();
    assert!(root.get("a").unwrap().get("inner").is_some());
}

#[test]
fn routing_spawned_creeps_to_children() {
    let mut root = leaf("root");
    let attack = AttackBehaviour { op_spawn: None, creeps: Creeps::new() };
    root.insert(Plan::new(Behaviours::AttackBehaviour(attack), "attack", 1, true)).unwrap();
    root.insert(leaf("other")).unwrap();
    let c = Creep { handle: 9, id: IdValue::Number(90) };
    assert_eq!(root.add_spawning_to("attack", c), Ok(()));
    assert_eq!(root.add_spawning_to("nowhere", c), Err(PlanError::NotFound));
    assert_eq!(root.add_spawning_to("other", c), Err(PlanError::WrongBehaviour));
    match root.get("attack").unwrap().behaviour() {
        Behaviours::AttackBehaviour(a) => assert_eq!(a.creeps.spawning(), &vec![c]),
        _ => panic!("attack child lost its behaviour"),
    }
}

fn world(live: Vec<u64>, creeps: Vec<CreepInfo>) -> World {
    World {
        spawns: vec![
            SpawnInfo { handle: 100, my: Some(true) },
            SpawnInfo { handle: 200, my: Some(false) },
            SpawnInfo { handle: 101, my: Some(true) },
        ],
        creeps,
        containers: vec![
            ContainerInfo { handle: 300, energy: Some(50) },
            ContainerInfo { handle: 301, energy: Some(20) },
            ContainerInfo { handle: 302, energy: None },
        ],
        live,
    }
}

#[test]
fn first_tick_enters_root_and_orders_spawns() {
    let mut root = Plan::new(Behaviours::RootBehaviour(RootBehaviour::new()), "root", 1, true);
    let mut out = Vec::new();
    root.run(0, &world(vec![], vec![]), &mut out);
    assert!(root.is_active());
    let names: Vec<String> = root.children().iter().map(|c| c.name().clone()).collect();
    assert_eq!(names, vec!["harvest", "attack"]);
    let attack_parts = gen_parts(&[(Part::Move, 5), (Part::Attack, 5)]);
    assert_eq!(
        out,
        vec![
            Command::Spawn {
                spawn: 101,
                parts: gen_parts(&[(Part::Carry, 5), (Part::Move, 2)]),
                route: "harvest".to_string(),
            },
            Command::Spawn { spawn: 101, parts: attack_parts, route: "attack".to_string() },
        ]
    );
}

#[test]
fn later_ticks_order_harvesters_and_attackers() {
    let mut root = Plan::new(Behaviours::RootBehaviour(RootBehaviour::new()), "root", 1, true);
    let mut out = Vec::new();
    root.run(0, &world(vec![], vec![]), &mut out);
    let empty = Creep { handle: 5, id: IdValue::Number(50) };
    let loaded = Creep { handle: 6, id: IdValue::Number(60) };
    let fighter = Creep { handle: 7, id: IdValue::Number(70) };
    root.add_spawning_to("harvest", empty).unwrap();
    root.add_spawning_to("harvest", loaded).unwrap();
    root.add_spawning_to("attack", fighter).unwrap();
    let reports = vec![
        CreepInfo { creep: empty, my: true, energy: Some(0) },
        CreepInfo { creep: loaded, my: true, energy: Some(30) },
        CreepInfo { creep: fighter, my: true, energy: Some(0) },
        CreepInfo { creep: Creep { handle: 8, id: IdValue::Number(80) }, my: false, energy: None },
    ];
    let mut out = Vec::new();
    root.run(1, &world(vec![5, 6, 7], reports), &mut out);
    assert_eq!(out.len(), 4);
    assert!(matches!(&out[0], Command::Spawn { spawn: 101, route, .. } if route == "attack"));
    assert_eq!(out[1], Command::Withdraw { creep: empty, containers: vec![300] });
    assert_eq!(out[2], Command::Transfer { creep: loaded, target: 101 });
    assert_eq!(out[3], Command::Attack { creep: fighter, target: 200 });
    match root.behaviour() {
        Behaviours::RootBehaviour(r) => {
            assert_eq!(r.my_creeps, vec![empty, loaded, fighter]);
            assert_eq!(r.op_creeps.len(), 1);
        },
        _ => panic!("root lost its behaviour"),
    }
}

#[test]
fn plan_not_due_is_left_alone() {
    let mut root = Plan::new(Behaviours::RootBehaviour(RootBehaviour::new()), "root", 3, true);
    let mut out = Vec::new();
    root.run(1, &world(vec![], vec![]), &mut out);
    assert!(!root.is_active());
    assert!(out.is_empty());
    assert!(root.children().is_empty());
    let mut off = Plan::new(Behaviours::RootBehaviour(RootBehaviour::new()), "root", 1, false);
    off.run(0, &world(vec![], vec![]), &mut out);
    assert!(!off.is_active());
    assert!(out.is_empty());
}

#[test]
fn disabling_exits_and_reentry_happens_on_next_run() {
    let mut p = Plan::new(Behaviours::SequenceBehaviour, "p", 1, true);
    let mut out = Vec::new();
    p.run(0, &world(vec![], vec![]), &mut out);
    assert!(p.is_active());
    p.set_enabled(false);
    assert!(!p.is_active());
    p.set_enabled(true);
    p.run(1, &world(vec![], vec![]), &mut out);
    assert!(p.is_active());
}

#[test]
fn removed_plan_comes_out_exited() {
    let mut root = leaf("root");
    root.insert(leaf("a")).unwrap();
    let mut out = Vec::new();
    root.run(0, &world(vec![], vec![]), &mut out);
    assert!(root.get("a").unwrap().is_active());
    let a = root.remove("a").unwrap();
    assert!(!a.is_active());
    assert_eq!(a.name(), "a");
}

#[test]
fn routing_confirmed_creeps_to_children() {
    let mut root = leaf("root");
    let attack = AttackBehaviour { op_spawn: Some(200), creeps: Creeps::new() };
    root.insert(Plan::new(Behaviours::AttackBehaviour(attack), "attack", 1, true)).unwrap();
    root.insert(leaf("other")).unwrap();
    let c = Creep { handle: 9, id: IdValue::Number(90) };
    let twin = Creep { handle: 10, id: IdValue::Number(90) };
    assert_eq!(root.add_creep_to("attack", c), Ok(Some(c)));
    assert_eq!(root.add_creep_to("attack", twin), Ok(Some(c)));
    assert_eq!(root.add_creep_to("attack", Creep { handle: 11, id: IdValue::Missing }), Ok(None));
    assert_eq!(root.add_creep_to("nowhere", c), Err(PlanError::NotFound));
    assert_eq!(root.add_creep_to("other", c), Err(PlanError::WrongBehaviour));
    match root.get("attack").unwrap().behaviour() {
        Behaviours::AttackBehaviour(a) => {
            assert_eq!(a.creeps.existing(), &vec![c]);
            assert_eq!(a.op_spawn, Some(200));
        },
        _ => panic!("attack child lost its behaviour"),
    }
}

#[test]
fn harvesters_wait_without_own_spawn() {
    let mut root = Plan::new(Behaviours::RootBehaviour(RootBehaviour::new()), "root", 1, true);
    let no_spawns = World { spawns: vec![], creeps: vec![], containers: vec![], live: vec![] };
    let mut out = Vec::new();
    root.run(0, &no_spawns, &mut out);
    assert!(out.is_empty());
    let empty = Creep { handle: 5, id: IdValue::Number(50) };
    root.add_spawning_to("harvest", empty).unwrap();
    let w = World {
        spawns: vec![],
        creeps: vec![CreepInfo { creep: empty, my: true, energy: Some(0) }],
        containers: vec![ContainerInfo { handle: 300, energy: Some(50) }],
        live: vec![5],
    };
    let mut out = Vec::new();
    root.run(1, &w, &mut out);
    assert!(out.is_empty());
    match root.get("harvest").unwrap().behaviour() {
        Behaviours::HarvestBehaviour(h) => assert_eq!(h.creeps.existing(), &vec![empty]),
        _ => panic!("harvest child lost its behaviour"),
    }
}

#[test]
fn reentry_keeps_existing_children_and_orders_no_second_harvester() {
    let mut root = Plan::new(Behaviours::RootBehaviour(RootBehaviour::new()), "root", 1, true);
    let mut out = Vec::new();
    root.run(0, &world(vec![], vec![]), &mut out);
    let fighter = Creep { handle: 7, id: IdValue::Number(70) };
    root.add_spawning_to("attack", fighter).unwrap();
    root.set_enabled(false);
    root.set_enabled(true);
    let mut again = Vec::new();
    root.run(1, &world(vec![], vec![]), &mut again);
    let names: Vec<String> = root.children().iter().map(|c| c.name().clone()).collect();
    assert_eq!(names, vec!["harvest", "attack"]);
    assert_eq!(again.len(), 1);
    assert!(matches!(&again[0], Command::Spawn { route, .. } if route == "attack"));
}
