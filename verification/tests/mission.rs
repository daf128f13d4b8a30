use temporal_networks::interval::{Interval, TIME_MAX};
use temporal_networks::mission::{Mission, MissionError};
use temporal_networks::schedule::Episode;

#[test]
fn mission_starts_with_the_limiting_consumable() {
    let mission = Mission::new().unwrap();
    assert!(Mission::actors(&mission).is_empty());
}

#[test]
fn mission_sync_sections_are_steps_for_all() {
    let mut mission = Mission::new().unwrap();
    let sync = mission.create_sync("egress".to_string(), vec![10, 20]).unwrap();
    assert_eq!(sync.episode(), Episode(2, 3));
    assert_eq!(sync.actor(), "ALL");
    assert_eq!(sync.description(), "egress");
    assert_eq!(sync.to_string(), "egress for ALL");
    assert!(mission.has_step(&sync));
    assert!(mission.has_step(&sync.copy()));
    assert!(sync.same_as(&sync.clone()));
    assert_eq!(mission.timing(sync), Interval(10, 20));
    let again = mission.create_sync("egress".to_string(), vec![10, 20]).unwrap();
    assert_eq!(again.episode(), Episode(4, 5));
}

#[test]
fn mission_steps_need_a_known_actor() {
    let mut mission = Mission::new().unwrap();
    match mission.create_step("EV1".to_string(), "setup".to_string(), vec![5, 9], None) {
        Err(MissionError::UnknownActor(name)) => assert_eq!(name, "EV1"),
        other => panic!("expected an unknown actor, got {:?}", other),
    }
    assert_eq!(mission.create_actor("EV1".to_string()), "EV1");
    assert_eq!(mission.create_actor("EV3".to_string()), "EV3");
    assert_eq!(mission.create_actor("EV1".to_string()), "EV1");
    assert_eq!(Mission::actors(&mission), vec!["EV1".to_string(), "EV3".to_string()]);
    let step =
        mission.create_step("EV1".to_string(), "setup".to_string(), vec![5, 9], None).unwrap();
    assert_eq!(step.episode(), Episode(2, 3));
    assert_eq!(step.to_string(), "setup for EV1");
    assert!(!mission.has_step(&step));
    assert_eq!(mission.timing(step), Interval(5, 9));
}

#[test]
fn mission_substep_pins_its_parent() {
    let mut mission = Mission::new().unwrap();
    mission.create_actor("EV1".to_string());
    let parent =
        mission.create_step("EV1".to_string(), "outer".to_string(), vec![5, 9], None).unwrap();
    assert_eq!(mission.timing(parent.copy()), Interval(5, 9));
    let child = mission
        .create_step("EV1".to_string(), "inner".to_string(), vec![1, 2], Some(parent.copy()))
        .unwrap();
    assert_eq!(mission.timing(child), Interval(1, 2));
    assert_eq!(mission.timing(parent), Interval(0, 0));
}

#[test]
fn mission_root_episode_is_unbounded_above() {
    let mut mission = Mission::new().unwrap();
    let sync = mission.create_sync("all".to_string(), vec![3, 4]).unwrap();
    assert_eq!(sync.episode(), Episode(2, 3));
    let root = mission.create_sync("x".to_string(), vec![0, TIME_MAX]).unwrap();
    assert_eq!(mission.timing(root), Interval(0, TIME_MAX));
}
