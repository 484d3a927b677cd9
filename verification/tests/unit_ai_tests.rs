use std::collections::VecDeque;

use rts_core::hud::UnitStance;
use rts_core::unit_ai::{
    begin_next_task, cleanup_assigned_workers, decide, execute_unit_state, leash_return, start_task,
    target_building, eject_orphaned_workers,
    DecisionFacts, LeashFacts, ProcessorStatus, QueuedTask, QueuedTaskEntry, TaskQueue, TaskSource,
    TaskStartFacts, UnitCommand, UnitFacts, UnitState,
};

type P = (i32, i32);

fn facts() -> UnitFacts<P> {
    UnitFacts {
        has_move_target: true,
        attack_target_exists: true,
        target_pos: None,
        gather_far: false,
        build_near: false,
        build_far: false,
        processor_near: false,
        site_under_construction: None,
        processor: None,
        nearest_hostile: None,
        first_hostile: None,
    }
}

fn empty_queue() -> TaskQueue<P> {
    TaskQueue { current: None, queue: VecDeque::new() }
}

#[test]
fn idle_unit_takes_the_next_queued_task() {
    let mut q = empty_queue();
    q.queue.push_back(QueuedTaskEntry { id: 1, task: QueuedTask::Move((3, 4)) });
    q.queue.push_back(QueuedTaskEntry { id: 2, task: QueuedTask::HoldPosition });
    let mut source = TaskSource::Auto;
    let got = begin_next_task(&UnitState::Idle, &mut source, &mut q);
    assert_eq!(got, Some(QueuedTaskEntry { id: 1, task: QueuedTask::Move((3, 4)) }));
    assert_eq!(q.current, got);
    assert_eq!(q.queue.len(), 1);
    assert_eq!(source, TaskSource::Manual);
    // a task in progress blocks the next one
    let mut source2 = TaskSource::Auto;
    assert_eq!(begin_next_task(&UnitState::Idle, &mut source2, &mut q), None);
    assert_eq!(source2, TaskSource::Auto);
    // a busy unit does not start tasks
    let mut q2 = empty_queue();
    q2.queue.push_back(QueuedTaskEntry { id: 9, task: QueuedTask::Attack(5) });
    assert_eq!(begin_next_task(&UnitState::Moving((0, 0)), &mut source2, &mut q2), None);
    assert_eq!(q2.queue.len(), 1);
}

#[test]
fn starting_tasks() {
    let f = TaskStartFacts { target_pos: Some((7, 7)), unit_pos: Some((1, 1)), processor: None };
    assert_eq!(
        start_task(QueuedTask::Move((2, 2)), f),
        (Some(UnitState::Moving((2, 2))), vec![UnitCommand::InsertMoveTarget((2, 2))])
    );
    assert_eq!(
        start_task(QueuedTask::Gather(40), f),
        (Some(UnitState::Gathering(40)), vec![UnitCommand::InsertMoveTarget((7, 7))])
    );
    assert_eq!(
        start_task(QueuedTask::Patrol((9, 0)), f),
        (
            Some(UnitState::Patrolling { target: (9, 0), origin: (1, 1) }),
            vec![UnitCommand::InsertMoveTarget((9, 0))]
        )
    );
    assert_eq!(
        start_task(QueuedTask::HoldPosition, f),
        (
            Some(UnitState::HoldPosition),
            vec![UnitCommand::RemoveMoveTarget, UnitCommand::RemoveAttackTarget]
        )
    );
    // a full processor turns the worker away
    let full = TaskStartFacts {
        target_pos: Some((7, 7)),
        unit_pos: None,
        processor: Some(ProcessorStatus { complete: true, assigned_workers: 2, max_workers: 2 }),
    };
    assert_eq!(start_task(QueuedTask::AssignToProcessor(3), full), (None, vec![]));
    let open = TaskStartFacts {
        processor: Some(ProcessorStatus { complete: true, assigned_workers: 1, max_workers: 2 }),
        ..full
    };
    assert_eq!(
        start_task(QueuedTask::AssignToProcessor(3), open),
        (Some(UnitState::MovingToProcessor(3)), vec![UnitCommand::InsertMoveTarget((7, 7))])
    );
    let no_pos = TaskStartFacts { target_pos: None, unit_pos: None, processor: None };
    assert_eq!(start_task(QueuedTask::Patrol((1, 2)), no_pos), (None, vec![]));
}

#[test]
fn moving_unit_arrives_and_gives_up_its_task() {
    let f = UnitFacts { has_move_target: false, ..facts() };
    let s = execute_unit_state(UnitState::Moving((5, 5)), TaskSource::Manual, f);
    assert_eq!(s.state, UnitState::Idle);
    assert_eq!(s.source, TaskSource::Auto);
    assert!(s.clear_current);
    assert!(s.commands.is_empty());
}

#[test]
fn attacker_loses_its_target() {
    let f = UnitFacts { attack_target_exists: false, ..facts() };
    let s = execute_unit_state(UnitState::Attacking(8), TaskSource::Manual, f);
    assert_eq!(s.state, UnitState::Idle);
    assert_eq!(s.commands, vec![UnitCommand::RemoveAttackTarget, UnitCommand::RemoveLeashOrigin]);
    let g = execute_unit_state(UnitState::Attacking(8), TaskSource::Manual, facts());
    assert_eq!(g.state, UnitState::Attacking(8));
    assert!(!g.clear_current);
    assert_eq!(g.commands, vec![UnitCommand::InsertAttackTarget(8)]);
}

#[test]
fn builder_reaches_the_site() {
    let f = UnitFacts {
        target_pos: Some((3, 3)),
        build_near: true,
        site_under_construction: Some(true),
        ..facts()
    };
    let s = execute_unit_state(UnitState::MovingToBuild(11), TaskSource::Manual, f);
    assert_eq!(s.state, UnitState::Building(11));
    assert_eq!(s.commands, vec![UnitCommand::RemoveMoveTarget]);
    let done = UnitFacts { site_under_construction: Some(false), ..f };
    let t = execute_unit_state(UnitState::Building(11), TaskSource::Manual, done);
    assert_eq!(t.state, UnitState::Idle);
    assert!(t.clear_current);
}

#[test]
fn patrol_turns_around_at_each_end() {
    let f = UnitFacts { has_move_target: false, ..facts() };
    let s = execute_unit_state(UnitState::Patrolling { target: (9, 0), origin: (0, 0) }, TaskSource::Manual, f);
    assert_eq!(s.state, UnitState::Patrolling { target: (0, 0), origin: (9, 0) });
    assert_eq!(s.commands, vec![UnitCommand::InsertMoveTarget((0, 0))]);
    let s2 = execute_unit_state(s.state, TaskSource::Manual, f);
    assert_eq!(s2.state, UnitState::Patrolling { target: (9, 0), origin: (0, 0) });
    let hostile = UnitFacts { first_hostile: Some(66), ..f };
    let s3 = execute_unit_state(s2.state, TaskSource::Manual, hostile);
    assert_eq!(s3.state, UnitState::Attacking(66));
}

#[test]
fn worker_enters_a_processor_with_room() {
    let f = UnitFacts {
        target_pos: Some((1, 1)),
        processor_near: true,
        processor: Some(ProcessorStatus { complete: true, assigned_workers: 0, max_workers: 1 }),
        ..facts()
    };
    let s = execute_unit_state(UnitState::MovingToProcessor(4), TaskSource::Manual, f);
    assert_eq!(s.state, UnitState::InsideProcessor(4));
    assert_eq!(s.commands, vec![UnitCommand::RemoveMoveTarget, UnitCommand::EnterProcessor(4)]);
    let gone = UnitFacts { processor: None, ..facts() };
    let t = execute_unit_state(UnitState::InsideProcessor(4), TaskSource::Manual, gone);
    assert_eq!(t.state, UnitState::Idle);
    assert_eq!(t.commands, vec![UnitCommand::LeaveProcessor]);
}

#[test]
fn idle_units_stay_idle() {
    let s = execute_unit_state(UnitState::Idle, TaskSource::Auto, facts());
    assert_eq!(s.state, UnitState::Idle);
    assert_eq!(s.commands, vec![UnitCommand::RemoveMoveTarget, UnitCommand::RemoveAttackTarget]);
    let h = execute_unit_state(UnitState::HoldPosition, TaskSource::Manual, facts());
    assert_eq!(h.state, UnitState::HoldPosition);
    assert_eq!(h.source, TaskSource::Manual);
}

fn dfacts(threat: Option<u64>, low_health: bool, retreat_to: Option<P>) -> DecisionFacts<P> {
    DecisionFacts { unit_pos: (2, 2), low_health, retreat_to, threat }
}

#[test]
fn automatic_engagement_by_stance() {
    let q = empty_queue();
    let s = decide(UnitState::Idle, TaskSource::Auto, &q, UnitStance::Defensive, dfacts(Some(5), false, None)).unwrap();
    assert_eq!(s.state, UnitState::Attacking(5));
    assert_eq!(s.source, TaskSource::Auto);
    assert_eq!(s.commands, vec![UnitCommand::InsertLeashOrigin((2, 2)), UnitCommand::InsertAttackTarget(5)]);
    assert!(decide(UnitState::Idle, TaskSource::Auto, &q, UnitStance::Passive, dfacts(Some(5), false, None)).is_none());
    assert!(decide(UnitState::Idle, TaskSource::Manual, &q, UnitStance::Aggressive, dfacts(Some(5), false, None)).is_none());
    assert!(decide(UnitState::Building(3), TaskSource::Auto, &q, UnitStance::Aggressive, dfacts(Some(5), false, None)).is_none());
    let mut busy_q = empty_queue();
    busy_q.queue.push_back(QueuedTaskEntry { id: 1, task: QueuedTask::HoldPosition });
    assert!(decide(UnitState::Idle, TaskSource::Auto, &busy_q, UnitStance::Aggressive, dfacts(Some(5), false, None)).is_none());
}

#[test]
fn hurt_units_retreat_unless_aggressive() {
    let q = empty_queue();
    let s = decide(UnitState::Attacking(9), TaskSource::Auto, &q, UnitStance::Defensive, dfacts(None, true, Some((0, 0)))).unwrap();
    assert_eq!(s.state, UnitState::Moving((0, 0)));
    assert_eq!(s.commands, vec![UnitCommand::RemoveAttackTarget, UnitCommand::InsertMoveTarget((0, 0))]);
    assert!(decide(UnitState::Attacking(9), TaskSource::Auto, &q, UnitStance::Aggressive, dfacts(None, true, Some((0, 0)))).is_none());
}

#[test]
fn leash_pulls_chasers_back() {
    let f = LeashFacts { origin: (1, 1), leash_active: true, beyond_leash: true };
    let s = leash_return(UnitState::Attacking(3), TaskSource::Auto, f).unwrap();
    assert_eq!(s.state, UnitState::Moving((1, 1)));
    assert_eq!(
        s.commands,
        vec![UnitCommand::RemoveAttackTarget, UnitCommand::RemoveLeashOrigin, UnitCommand::InsertMoveTarget((1, 1))]
    );
    let near = LeashFacts { beyond_leash: false, ..f };
    assert!(leash_return(UnitState::Attacking(3), TaskSource::Auto, near).is_none());
    let idle = leash_return(UnitState::Idle, TaskSource::Auto, f).unwrap();
    assert_eq!(idle.state, UnitState::Idle);
    assert_eq!(idle.commands, vec![UnitCommand::RemoveLeashOrigin]);
    assert!(leash_return(UnitState::Attacking(3), TaskSource::Manual, f).is_none());
}

#[test]
fn assigned_workers_are_cleaned_up() {
    let mut workers = vec![1u64, 2, 3, 4];
    let states: Vec<Option<UnitState<P>>> = vec![
        Some(UnitState::InsideProcessor(9)),
        None,
        Some(UnitState::Idle),
        Some(UnitState::MovingToProcessor(9)),
    ];
    cleanup_assigned_workers(&mut workers, &states);
    assert_eq!(workers, vec![1, 4]);
}

#[test]
fn steering_target_building_by_state() {
    let none: Option<u64> = None;
    assert_eq!(target_building::<P>(&UnitState::Building(4), Some(9)), Some(4));
    assert_eq!(target_building::<P>(&UnitState::MovingToBuild(4), none), Some(4));
    assert_eq!(target_building::<P>(&UnitState::ReturningToDeposit { depot: 7, gather_node: 2 }, none), Some(7));
    assert_eq!(target_building::<P>(&UnitState::WaitingForStorage { depot: 7 }, Some(1)), Some(7));
    assert_eq!(target_building::<P>(&UnitState::InsideProcessor(3), none), Some(3));
    assert_eq!(target_building::<P>(&UnitState::Attacking(8), Some(1)), Some(8));
    assert_eq!(target_building::<P>(&UnitState::Idle, Some(1)), Some(1));
    assert_eq!(target_building::<P>(&UnitState::Moving((0, 0)), none), None);
}

#[test]
fn workers_of_vanished_buildings_are_ejected() {
    let mut states: Vec<UnitState<P>> = vec![
        UnitState::InsideProcessor(7),
        UnitState::InsideProcessor(8),
        UnitState::MovingToProcessor(9),
        UnitState::Gathering(9),
    ];
    let ejected = eject_orphaned_workers(&mut states, &vec![8]);
    assert_eq!(ejected, vec![0, 2]);
    assert_eq!(
        states,
        vec![UnitState::Idle, UnitState::InsideProcessor(8), UnitState::Idle, UnitState::Gathering(9)]
    );
}
