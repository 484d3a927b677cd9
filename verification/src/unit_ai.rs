//! Unit behaviour as a state machine: each decision takes a unit's state
//! and the facts observed about its surroundings, and returns its next
//! state and the component changes to apply. Positions are of type `P`;
//! entities are ids.
use vstd::prelude::*;
use std::collections::VecDeque;
use crate::hud::UnitStance;

verus! {

#[derive(Clone, Copy, PartialEq, Eq, Debug)]
pub enum TaskSource {
    Manual,
    Auto,
}

#[derive(Clone, Copy, PartialEq, Eq, Debug)]
pub enum UnitState<P> {
    Idle,
    Moving(P),
    Attacking(u64),
    Gathering(u64),
    ReturningToDeposit { depot: u64, gather_node: u64 },
    Depositing { depot: u64 },
    WaitingForStorage { depot: u64 },
    MovingToPlot(P),
    MovingToBuild(u64),
    Building(u64),
    MovingToProcessor(u64),
    InsideProcessor(u64),
    AttackMoving(P),
    Patrolling { target: P, origin: P },
    HoldPosition,
}

#[derive(Clone, Copy, PartialEq, Eq, Debug)]
pub enum QueuedTask<P> {
    Move(P),
    AttackMove(P),
    Attack(u64),
    Gather(u64),
    Build(u64),
    Patrol(P),
    AssignToProcessor(u64),
    HoldPosition,
}

#[derive(Clone, Copy, PartialEq, Eq, Debug)]
pub struct QueuedTaskEntry<P> {
    pub id: u64,
    pub task: QueuedTask<P>,
}

/// A unit's task in progress and the tasks queued after it.
pub struct TaskQueue<P> {
    pub current: Option<QueuedTaskEntry<P>>,
    pub queue: VecDeque<QueuedTaskEntry<P>>,
}

/// A component change requested by a decision.
#[derive(Clone, Copy, PartialEq, Eq, Debug)]
pub enum UnitCommand<P> {
    InsertMoveTarget(P),
    RemoveMoveTarget,
    InsertAttackTarget(u64),
    RemoveAttackTarget,
    InsertLeashOrigin(P),
    RemoveLeashOrigin,
    /// Hide the worker inside the building and add it to the building's
    /// assigned workers (once).
    EnterProcessor(u64),
    /// Show the worker again and drop its processor work state.
    LeaveProcessor,
}

/// What is known of a resource processor building.
#[derive(Clone, Copy, PartialEq, Eq, Debug)]
pub struct ProcessorStatus {
    pub complete: bool,
    pub assigned_workers: usize,
    pub max_workers: u32,
}

pub open spec fn has_room(p: Option<ProcessorStatus>) -> bool {
    match p {
        Some(s) => s.complete && s.assigned_workers < s.max_workers,
        None => false,
    }
}

fn has_room_exec(p: Option<ProcessorStatus>) -> (r: bool)
    ensures
        r == has_room(p),
{
    match p {
        Some(s) => s.complete && s.assigned_workers < s.max_workers as usize,
        None => false,
    }
}

// ── Starting queued tasks ──

/// When the unit is idle with no task in progress and tasks queued, the
/// first queued task becomes the current task, the unit comes under manual
/// control, and the task is returned; otherwise nothing changes.
pub fn begin_next_task<P: Copy>(state: &UnitState<P>, source: &mut TaskSource, queue: &mut TaskQueue<P>) -> (r: Option<QueuedTaskEntry<P>>)
    ensures
        if *state == UnitState::<P>::Idle && old(queue).current is None && old(queue).queue@.len() > 0 {
            &&& r == Some(old(queue).queue@[0])
            &&& final(queue).current == Some(old(queue).queue@[0])
            &&& final(queue).queue@ == old(queue).queue@.drop_first()
            &&& *final(source) == TaskSource::Manual
        } else {
            &&& r is None
            &&& final(queue).current == old(queue).current
            &&& final(queue).queue@ == old(queue).queue@
            &&& *final(source) == *old(source)
        },
{
    let idle = match state {
        UnitState::Idle => true,
        _ => false,
    };
    if !idle || queue.current.is_some() || queue.queue.len() == 0 {
        return None;
    }
    let task = queue.queue.pop_front().unwrap();
    queue.current = Some(task);
    *source = TaskSource::Manual;
    Some(task)
}

/// Facts gathered for a task being started.
#[derive(Clone, Copy)]
pub struct TaskStartFacts<P> {
    /// Position of the task's target entity, if it has one.
    pub target_pos: Option<P>,
    /// Position of the unit itself.
    pub unit_pos: Option<P>,
    /// The target building as a processor, if it is one.
    pub processor: Option<ProcessorStatus>,
}

/// New state (`None` = unchanged) and component changes for starting `task`.
pub open spec fn start_task_spec<P>(task: QueuedTask<P>, f: TaskStartFacts<P>) -> (Option<UnitState<P>>, Seq<UnitCommand<P>>) {
    match task {
        QueuedTask::Move(pos) => (Some(UnitState::Moving(pos)), seq![UnitCommand::InsertMoveTarget(pos)]),
        QueuedTask::AttackMove(pos) => (Some(UnitState::AttackMoving(pos)), seq![UnitCommand::InsertMoveTarget(pos)]),
        QueuedTask::Attack(t) => (Some(UnitState::Attacking(t)), seq![UnitCommand::InsertAttackTarget(t)]),
        QueuedTask::Gather(node) => (
            Some(UnitState::Gathering(node)),
            match f.target_pos {
                Some(p) => seq![UnitCommand::InsertMoveTarget(p)],
                None => Seq::empty(),
            },
        ),
        QueuedTask::Build(b) => (
            Some(UnitState::MovingToBuild(b)),
            match f.target_pos {
                Some(p) => seq![UnitCommand::InsertMoveTarget(p)],
                None => Seq::empty(),
            },
        ),
        QueuedTask::Patrol(pos) => match f.unit_pos {
            Some(origin) => (Some(UnitState::Patrolling { target: pos, origin }), seq![UnitCommand::InsertMoveTarget(pos)]),
            None => (None, Seq::empty()),
        },
        QueuedTask::AssignToProcessor(b) => if has_room(f.processor) {
            (
                Some(UnitState::MovingToProcessor(b)),
                match f.target_pos {
                    Some(p) => seq![UnitCommand::InsertMoveTarget(p)],
                    None => Seq::empty(),
                },
            )
        } else {
            (None, Seq::empty())
        },
        QueuedTask::HoldPosition => (
            Some(UnitState::HoldPosition),
            seq![UnitCommand::RemoveMoveTarget, UnitCommand::RemoveAttackTarget],
        ),
    }
}

fn one<P>(c: UnitCommand<P>) -> (r: Vec<UnitCommand<P>>)
    ensures
        r@ == seq![c],
{
    let mut v = Vec::new();
    v.push(c);
    v
}

fn two<P>(a: UnitCommand<P>, b: UnitCommand<P>) -> (r: Vec<UnitCommand<P>>)
    ensures
        r@ == seq![a, b],
{
    let mut v = Vec::new();
    v.push(a);
    v.push(b);
    v
}

fn three<P>(a: UnitCommand<P>, b: UnitCommand<P>, c: UnitCommand<P>) -> (r: Vec<UnitCommand<P>>)
    ensures
        r@ == seq![a, b, c],
{
    let mut v = Vec::new();
    v.push(a);
    v.push(b);
    v.push(c);
    v
}

fn move_to<P>(pos: Option<P>) -> (r: Vec<UnitCommand<P>>)
    ensures
        r@ == match pos {
            Some(p) => seq![UnitCommand::InsertMoveTarget(p)],
            None => Seq::<UnitCommand<P>>::empty(),
        },
{
    match pos {
        Some(p) => one(UnitCommand::InsertMoveTarget(p)),
        None => Vec::new(),
    }
}

/// Decides how a just-started task changes the unit.
pub fn start_task<P: Copy>(task: QueuedTask<P>, facts: TaskStartFacts<P>) -> (r: (Option<UnitState<P>>, Vec<UnitCommand<P>>))
    ensures
        r.0 == start_task_spec(task, facts).0,
        r.1@ == start_task_spec(task, facts).1,
{
    match task {
        QueuedTask::Move(pos) => (Some(UnitState::Moving(pos)), one(UnitCommand::InsertMoveTarget(pos))),
        QueuedTask::AttackMove(pos) => (Some(UnitState::AttackMoving(pos)), one(UnitCommand::InsertMoveTarget(pos))),
        QueuedTask::Attack(t) => (Some(UnitState::Attacking(t)), one(UnitCommand::InsertAttackTarget(t))),
        QueuedTask::Gather(node) => (Some(UnitState::Gathering(node)), move_to(facts.target_pos)),
        QueuedTask::Build(b) => (Some(UnitState::MovingToBuild(b)), move_to(facts.target_pos)),
        QueuedTask::Patrol(pos) => match facts.unit_pos {
            Some(origin) => (Some(UnitState::Patrolling { target: pos, origin }), one(UnitCommand::InsertMoveTarget(pos))),
            None => (None, Vec::new()),
        },
        QueuedTask::AssignToProcessor(b) => if has_room_exec(facts.processor) {
            (Some(UnitState::MovingToProcessor(b)), move_to(facts.target_pos))
        } else {
            (None, Vec::new())
        },
        QueuedTask::HoldPosition => (
            Some(UnitState::HoldPosition),
            two(UnitCommand::RemoveMoveTarget, UnitCommand::RemoveAttackTarget),
        ),
    }
}

// ── Executing states ──

/// Facts observed about a unit and the target of its current state.
#[derive(Clone, Copy)]
pub struct UnitFacts<P> {
    /// The unit still has a move target (it is removed on arrival).
    pub has_move_target: bool,
    /// The attacked entity still exists.
    pub attack_target_exists: bool,
    /// Position of the state's target entity (resource node, depot or
    /// building), if it still exists.
    pub target_pos: Option<P>,
    /// Distance to that target is more than the gather range (3).
    pub gather_far: bool,
    /// Distance to that target is at most the build range (4).
    pub build_near: bool,
    /// Distance to that target is more than the build range (4).
    pub build_far: bool,
    /// Distance to that target is at most the processor range (3).
    pub processor_near: bool,
    /// The targeted construction site, if it is one: whether it is still
    /// under construction.
    pub site_under_construction: Option<bool>,
    /// The targeted building as a processor, if it is one.
    pub processor: Option<ProcessorStatus>,
    /// While attack-moving: the closest hostile unit, mob or building within
    /// twice the attack range (none without an attack range).
    pub nearest_hostile: Option<u64>,
    /// While patrolling: the first hostile unit or mob found within twice
    /// the attack range (none without an attack range).
    pub first_hostile: Option<u64>,
}

/// Result of one decision for a unit.
pub struct UnitStep<P> {
    pub state: UnitState<P>,
    pub source: TaskSource,
    /// The current queued task is finished or dropped.
    pub clear_current: bool,
    pub commands: Vec<UnitCommand<P>>,
}

/// The step's content, with the command list as a sequence.
pub struct StepSpec<P> {
    pub state: UnitState<P>,
    pub source: TaskSource,
    pub clear_current: bool,
    pub commands: Seq<UnitCommand<P>>,
}

pub open spec fn keep<P>(state: UnitState<P>, source: TaskSource, commands: Seq<UnitCommand<P>>) -> StepSpec<P> {
    StepSpec { state, source, clear_current: false, commands }
}

/// The unit gives up: idle, automatic control, current task dropped.
pub open spec fn give_up<P>(commands: Seq<UnitCommand<P>>) -> StepSpec<P> {
    StepSpec { state: UnitState::Idle, source: TaskSource::Auto, clear_current: true, commands }
}

/// Next state of a unit following its current state.
pub open spec fn execute_spec<P>(state: UnitState<P>, source: TaskSource, f: UnitFacts<P>) -> StepSpec<P> {
    match state {
        UnitState::Idle | UnitState::HoldPosition => keep(
            state,
            source,
            seq![UnitCommand::RemoveMoveTarget, UnitCommand::RemoveAttackTarget],
        ),
        UnitState::Moving(pos) => if !f.has_move_target {
            give_up(Seq::empty())
        } else {
            keep(state, source, seq![UnitCommand::InsertMoveTarget(pos)])
        },
        UnitState::Attacking(t) => if !f.attack_target_exists {
            give_up(seq![UnitCommand::RemoveAttackTarget, UnitCommand::RemoveLeashOrigin])
        } else {
            keep(state, source, seq![UnitCommand::InsertAttackTarget(t)])
        },
        UnitState::Gathering(_) => match f.target_pos {
            Some(p) => keep(state, source, if f.gather_far { seq![UnitCommand::InsertMoveTarget(p)] } else { Seq::empty() }),
            None => give_up(Seq::empty()),
        },
        UnitState::ReturningToDeposit { .. } => match f.target_pos {
            Some(_) => keep(state, source, Seq::empty()),
            None => give_up(Seq::empty()),
        },
        UnitState::Depositing { .. } | UnitState::WaitingForStorage { .. } => keep(state, source, Seq::empty()),
        UnitState::MovingToPlot(pos) => keep(
            state,
            source,
            if !f.has_move_target { seq![UnitCommand::InsertMoveTarget(pos)] } else { Seq::empty() },
        ),
        UnitState::MovingToBuild(b) => match f.site_under_construction {
            Some(true) => match f.target_pos {
                Some(p) => if f.build_near {
                    keep(UnitState::Building(b), source, seq![UnitCommand::RemoveMoveTarget])
                } else {
                    keep(state, source, seq![UnitCommand::InsertMoveTarget(p)])
                },
                None => keep(state, source, Seq::empty()),
            },
            _ => give_up(seq![UnitCommand::RemoveMoveTarget]),
        },
        UnitState::Building(b) => match f.site_under_construction {
            Some(true) => match f.target_pos {
                Some(_) => if f.build_far {
                    keep(UnitState::MovingToBuild(b), source, Seq::empty())
                } else {
                    keep(state, source, seq![UnitCommand::RemoveMoveTarget])
                },
                None => keep(state, source, Seq::empty()),
            },
            _ => give_up(seq![UnitCommand::RemoveMoveTarget]),
        },
        UnitState::MovingToProcessor(b) => match f.target_pos {
            Some(p) => if f.processor_near {
                if has_room(f.processor) {
                    keep(UnitState::InsideProcessor(b), source, seq![UnitCommand::RemoveMoveTarget, UnitCommand::EnterProcessor(b)])
                } else {
                    give_up(seq![UnitCommand::RemoveMoveTarget])
                }
            } else {
                keep(state, source, seq![UnitCommand::InsertMoveTarget(p)])
            },
            None => give_up(seq![UnitCommand::RemoveMoveTarget]),
        },
        UnitState::InsideProcessor(_) => if f.processor is None {
            give_up(seq![UnitCommand::LeaveProcessor])
        } else {
            keep(state, source, Seq::empty())
        },
        UnitState::AttackMoving(_) => if !f.has_move_target {
            give_up(Seq::empty())
        } else {
            match f.nearest_hostile {
                Some(t) => keep(UnitState::Attacking(t), source, seq![UnitCommand::RemoveMoveTarget, UnitCommand::InsertAttackTarget(t)]),
                None => keep(state, source, Seq::empty()),
            }
        },
        UnitState::Patrolling { target, origin } => if !f.has_move_target {
            match f.first_hostile {
                Some(t) => keep(
                    UnitState::Attacking(t),
                    source,
                    seq![UnitCommand::InsertMoveTarget(origin), UnitCommand::RemoveMoveTarget, UnitCommand::InsertAttackTarget(t)],
                ),
                None => keep(UnitState::Patrolling { target: origin, origin: target }, source, seq![UnitCommand::InsertMoveTarget(origin)]),
            }
        } else {
            keep(state, source, Seq::empty())
        },
    }
}

fn step<P>(state: UnitState<P>, source: TaskSource, clear_current: bool, commands: Vec<UnitCommand<P>>) -> (r: UnitStep<P>)
    ensures
        r.state == state,
        r.source == source,
        r.clear_current == clear_current,
        r.commands@ == commands@,
{
    UnitStep { state, source, clear_current, commands }
}

pub open spec fn step_matches<P>(r: UnitStep<P>, s: StepSpec<P>) -> bool {
    r.state == s.state && r.source == s.source && r.clear_current == s.clear_current && r.commands@ == s.commands
}

/// Follows the unit's current state: arrival, loss of target, entering or
/// leaving buildings, and hostiles met on the way.
#[verifier::rlimit(80)]
pub fn execute_unit_state<P: Copy>(state: UnitState<P>, source: TaskSource, f: UnitFacts<P>) -> (r: UnitStep<P>)
    ensures
        step_matches(r, execute_spec(state, source, f)),
        state is AttackMoving && f.has_move_target ==> (f.nearest_hostile matches Some(t) ==> {
            &&& r.state == UnitState::<P>::Attacking(t)
            &&& r.source == source
            &&& !r.clear_current
            &&& r.commands@ == seq![UnitCommand::<P>::RemoveMoveTarget, UnitCommand::<P>::InsertAttackTarget(t)]
        }),
        state is AttackMoving && f.has_move_target && f.nearest_hostile is None ==> r.state == state && r.commands@.len()
            == 0,
{
    match state {
        UnitState::Idle | UnitState::HoldPosition => step(state, source, false, two(UnitCommand::RemoveMoveTarget, UnitCommand::RemoveAttackTarget)),
        UnitState::Moving(pos) => if !f.has_move_target {
            step(UnitState::Idle, TaskSource::Auto, true, Vec::new())
        } else {
            step(state, source, false, one(UnitCommand::InsertMoveTarget(pos)))
        },
        UnitState::Attacking(t) => if !f.attack_target_exists {
            step(UnitState::Idle, TaskSource::Auto, true, two(UnitCommand::RemoveAttackTarget, UnitCommand::RemoveLeashOrigin))
        } else {
            step(state, source, false, one(UnitCommand::InsertAttackTarget(t)))
        },
        UnitState::Gathering(_) => match f.target_pos {
            Some(p) => step(state, source, false, if f.gather_far { one(UnitCommand::InsertMoveTarget(p)) } else { Vec::new() }),
            None => step(UnitState::Idle, TaskSource::Auto, true, Vec::new()),
        },
        UnitState::ReturningToDeposit { .. } => match f.target_pos {
            Some(_) => step(state, source, false, Vec::new()),
            None => step(UnitState::Idle, TaskSource::Auto, true, Vec::new()),
        },
        UnitState::Depositing { .. } | UnitState::WaitingForStorage { .. } => step(state, source, false, Vec::new()),
        UnitState::MovingToPlot(pos) => step(
            state,
            source,
            false,
            if !f.has_move_target { one(UnitCommand::InsertMoveTarget(pos)) } else { Vec::new() },
        ),
        UnitState::MovingToBuild(b) => match f.site_under_construction {
            Some(true) => match f.target_pos {
                Some(p) => if f.build_near {
                    step(UnitState::Building(b), source, false, one(UnitCommand::RemoveMoveTarget))
                } else {
                    step(state, source, false, one(UnitCommand::InsertMoveTarget(p)))
                },
                None => step(state, source, false, Vec::new()),
            },
            _ => step(UnitState::Idle, TaskSource::Auto, true, one(UnitCommand::RemoveMoveTarget)),
        },
        UnitState::Building(b) => match f.site_under_construction {
            Some(true) => match f.target_pos {
                Some(_) => if f.build_far {
                    step(UnitState::MovingToBuild(b), source, false, Vec::new())
                } else {
                    step(state, source, false, one(UnitCommand::RemoveMoveTarget))
                },
                None => step(state, source, false, Vec::new()),
            },
            _ => step(UnitState::Idle, TaskSource::Auto, true, one(UnitCommand::RemoveMoveTarget)),
        },
        UnitState::MovingToProcessor(b) => match f.target_pos {
            Some(p) => if f.processor_near {
                if has_room_exec(f.processor) {
                    step(UnitState::InsideProcessor(b), source, false, two(UnitCommand::RemoveMoveTarget, UnitCommand::EnterProcessor(b)))
                } else {
                    step(UnitState::Idle, TaskSource::Auto, true, one(UnitCommand::RemoveMoveTarget))
                }
            } else {
                step(state, source, false, one(UnitCommand::InsertMoveTarget(p)))
            },
            None => step(UnitState::Idle, TaskSource::Auto, true, one(UnitCommand::RemoveMoveTarget)),
        },
        UnitState::InsideProcessor(_) => if f.processor.is_none() {
            step(UnitState::Idle, TaskSource::Auto, true, one(UnitCommand::LeaveProcessor))
        } else {
            step(state, source, false, Vec::new())
        },
        UnitState::AttackMoving(_) => if !f.has_move_target {
            step(UnitState::Idle, TaskSource::Auto, true, Vec::new())
        } else {
            match f.nearest_hostile {
                Some(t) => step(UnitState::Attacking(t), source, false, two(UnitCommand::RemoveMoveTarget, UnitCommand::InsertAttackTarget(t))),
                None => step(state, source, false, Vec::new()),
            }
        },
        UnitState::Patrolling { target, origin } => if !f.has_move_target {
            match f.first_hostile {
                Some(t) => step(
                    UnitState::Attacking(t),
                    source,
                    false,
                    three(UnitCommand::InsertMoveTarget(origin), UnitCommand::RemoveMoveTarget, UnitCommand::InsertAttackTarget(t)),
                ),
                None => step(UnitState::Patrolling { target: origin, origin: target }, source, false, one(UnitCommand::InsertMoveTarget(origin))),
            }
        } else {
            step(state, source, false, Vec::new())
        },
    }
}

// ── Automatic decisions ──

/// Facts for the automatic decisions of a unit without manual orders.
#[derive(Clone, Copy)]
pub struct DecisionFacts<P> {
    /// Position of the unit.
    pub unit_pos: P,
    /// Health is positive and below a quarter of the maximum.
    pub low_health: bool,
    /// Position of the nearest allied deposit point, if any.
    pub retreat_to: Option<P>,
    /// Closest hostile within the stance's scan range (hostile buildings
    /// count for aggressive units); none without an attack range or when
    /// the scan range is not positive.
    pub threat: Option<u64>,
}

/// States a unit is not pulled out of by automatic decisions.
pub open spec fn busy<P>(s: UnitState<P>) -> bool {
    match s {
        UnitState::Building(_) | UnitState::MovingToBuild(_) | UnitState::MovingToPlot(_)
        | UnitState::InsideProcessor(_) | UnitState::MovingToProcessor(_) | UnitState::Depositing { .. }
        | UnitState::ReturningToDeposit { .. } | UnitState::WaitingForStorage { .. } | UnitState::HoldPosition
        | UnitState::Patrolling { .. } | UnitState::AttackMoving(_) => true,
        _ => false,
    }
}

/// Automatic decision for a unit: retreat when badly hurt in a fight
/// (unless aggressive), else engage the closest threat (unless passive) when
/// idle or gathering. `None` = no change.
pub open spec fn decide_spec<P>(
    state: UnitState<P>,
    source: TaskSource,
    has_task: bool,
    stance: UnitStance,
    f: DecisionFacts<P>,
) -> Option<StepSpec<P>> {
    if source == TaskSource::Manual || has_task || busy(state) {
        None
    } else if stance != UnitStance::Aggressive && f.low_health && state is Attacking && f.retreat_to is Some {
        let p = f.retreat_to.unwrap();
        Some(keep(UnitState::Moving(p), TaskSource::Auto, seq![UnitCommand::RemoveAttackTarget, UnitCommand::InsertMoveTarget(p)]))
    } else if stance == UnitStance::Passive {
        None
    } else if !(state is Idle || state is Gathering) {
        None
    } else {
        match f.threat {
            Some(t) => Some(keep(UnitState::Attacking(t), TaskSource::Auto, seq![UnitCommand::InsertLeashOrigin(f.unit_pos), UnitCommand::InsertAttackTarget(t)])),
            None => None,
        }
    }
}

pub fn decide<P: Copy>(state: UnitState<P>, source: TaskSource, queue: &TaskQueue<P>, stance: UnitStance, f: DecisionFacts<P>) -> (r: Option<UnitStep<P>>)
    ensures
        match decide_spec(state, source, queue.current is Some || queue.queue@.len() > 0, stance, f) {
            None => r is None,
            Some(s) => r matches Some(step) && step_matches(step, s),
        },
        source == TaskSource::Auto && queue.current is None && queue.queue@.len() == 0 && stance != UnitStance::Passive
            && (state is Idle || state is Gathering) ==> (f.threat matches Some(t) ==> r matches Some(step) && {
            &&& step.state == UnitState::<P>::Attacking(t)
            &&& step.source == TaskSource::Auto
            &&& !step.clear_current
            &&& step.commands@ == seq![UnitCommand::<P>::InsertLeashOrigin(f.unit_pos), UnitCommand::<P>::InsertAttackTarget(t)]
        }),
{
    let has_task = queue.current.is_some() || queue.queue.len() > 0;
    let is_manual = match source {
        TaskSource::Manual => true,
        TaskSource::Auto => false,
    };
    if is_manual || has_task {
        return None;
    }
    let is_busy = match state {
        UnitState::Building(_) | UnitState::MovingToBuild(_) | UnitState::MovingToPlot(_)
        | UnitState::InsideProcessor(_) | UnitState::MovingToProcessor(_) | UnitState::Depositing { .. }
        | UnitState::ReturningToDeposit { .. } | UnitState::WaitingForStorage { .. } | UnitState::HoldPosition
        | UnitState::Patrolling { .. } | UnitState::AttackMoving(_) => true,
        _ => false,
    };
    if is_busy {
        return None;
    }
    let aggressive = match stance {
        UnitStance::Aggressive => true,
        _ => false,
    };
    let attacking = match state {
        UnitState::Attacking(_) => true,
        _ => false,
    };
    if !aggressive && f.low_health && attacking {
        if let Some(p) = f.retreat_to {
            return Some(step(UnitState::Moving(p), TaskSource::Auto, false, two(UnitCommand::RemoveAttackTarget, UnitCommand::InsertMoveTarget(p))));
        }
    }
    let passive = match stance {
        UnitStance::Passive => true,
        _ => false,
    };
    if passive {
        return None;
    }
    let idle_or_gathering = match state {
        UnitState::Idle | UnitState::Gathering(_) => true,
        _ => false,
    };
    if !idle_or_gathering {
        return None;
    }
    match f.threat {
        Some(t) => Some(step(UnitState::Attacking(t), TaskSource::Auto, false, two(UnitCommand::InsertLeashOrigin(f.unit_pos), UnitCommand::InsertAttackTarget(t)))),
        None => None,
    }
}

/// Facts for the leash check of a unit engaged automatically.
#[derive(Clone, Copy)]
pub struct LeashFacts<P> {
    pub origin: P,
    /// The stance has a positive leash distance.
    pub leash_active: bool,
    /// The unit is farther from the origin than the leash distance.
    pub beyond_leash: bool,
}

/// Leash: a unit that chased an automatic target too far returns to where
/// it started; units no longer attacking drop their leash.
pub open spec fn leash_spec<P>(state: UnitState<P>, source: TaskSource, f: LeashFacts<P>) -> Option<StepSpec<P>> {
    if source != TaskSource::Auto {
        None
    } else if !(state is Attacking) || !f.leash_active {
        Some(keep(state, source, seq![UnitCommand::RemoveLeashOrigin]))
    } else if f.beyond_leash {
        Some(keep(
            UnitState::Moving(f.origin),
            TaskSource::Auto,
            seq![UnitCommand::RemoveAttackTarget, UnitCommand::RemoveLeashOrigin, UnitCommand::InsertMoveTarget(f.origin)],
        ))
    } else {
        None
    }
}

pub fn leash_return<P: Copy>(state: UnitState<P>, source: TaskSource, f: LeashFacts<P>) -> (r: Option<UnitStep<P>>)
    ensures
        match leash_spec(state, source, f) {
            None => r is None,
            Some(s) => r matches Some(step) && step_matches(step, s),
        },
{
    let auto = match source {
        TaskSource::Auto => true,
        TaskSource::Manual => false,
    };
    if !auto {
        return None;
    }
    let attacking = match state {
        UnitState::Attacking(_) => true,
        _ => false,
    };
    if !attacking || !f.leash_active {
        return Some(step(state, source, false, one(UnitCommand::RemoveLeashOrigin)));
    }
    if f.beyond_leash {
        return Some(step(
            UnitState::Moving(f.origin),
            TaskSource::Auto,
            false,
            three(UnitCommand::RemoveAttackTarget, UnitCommand::RemoveLeashOrigin, UnitCommand::InsertMoveTarget(f.origin)),
        ));
    }
    None
}

/// The building a unit is heading for or working at, which its steering
/// does not push it away from: the building it builds, the depot it
/// delivers to, the processor it works at, or the entity it attacks;
/// otherwise its attack target, if any.
pub fn target_building<P>(state: &UnitState<P>, attack_target: Option<u64>) -> (r: Option<u64>)
    ensures
        r == match *state {
            UnitState::MovingToBuild(e) | UnitState::Building(e) => Some(e),
            UnitState::ReturningToDeposit { depot, .. } | UnitState::Depositing { depot } | UnitState::WaitingForStorage {
                depot,
            } => Some(depot),
            UnitState::MovingToProcessor(b) | UnitState::InsideProcessor(b) => Some(b),
            UnitState::Attacking(e) => Some(e),
            _ => attack_target,
        },
{
    match state {
        UnitState::MovingToBuild(e) | UnitState::Building(e) => Some(*e),
        UnitState::ReturningToDeposit { depot, .. } | UnitState::Depositing { depot } | UnitState::WaitingForStorage {
            depot,
        } => Some(*depot),
        UnitState::MovingToProcessor(b) | UnitState::InsideProcessor(b) => Some(*b),
        UnitState::Attacking(e) => Some(*e),
        _ => attack_target,
    }
}

/// A worker stays assigned to a building only while it exists and is
/// inside the building or walking to it.
pub open spec fn stays_assigned<P>(state: Option<UnitState<P>>) -> bool {
    match state {
        Some(UnitState::InsideProcessor(_)) | Some(UnitState::MovingToProcessor(_)) => true,
        _ => false,
    }
}

/// A worker assigned to (inside, or walking to) a building that is not
/// among `buildings`.
pub open spec fn orphaned<P>(state: UnitState<P>, buildings: Seq<u64>) -> bool {
    match state {
        UnitState::InsideProcessor(b) | UnitState::MovingToProcessor(b) => !buildings.contains(b),
        _ => false,
    }
}

/// Positions among the first `n` states that are orphaned, ascending.
pub open spec fn orphan_positions<P>(states: Seq<UnitState<P>>, buildings: Seq<u64>, n: int) -> Seq<usize>
    decreases n,
{
    if n <= 0 {
        Seq::empty()
    } else if orphaned(states[n - 1], buildings) {
        orphan_positions(states, buildings, n - 1).push((n - 1) as usize)
    } else {
        orphan_positions(states, buildings, n - 1)
    }
}

fn contains_building(buildings: &Vec<u64>, b: u64) -> (r: bool)
    ensures
        r == buildings@.contains(b),
{
    let mut i: usize = 0;
    while i < buildings.len()
        invariant
            i <= buildings@.len(),
            forall|j: int| 0 <= j < i ==> buildings@[j] != b,
        decreases buildings@.len() - i,
    {
        if buildings[i] == b {
            assert(buildings@[i as int] == b);
            return true;
        }
        i += 1;
    }
    false
}

/// Ejects the workers whose building no longer exists (`buildings` lists
/// the buildings that do): each such worker goes idle, and its position is
/// returned so the caller can show it again and drop its processor work
/// state (`UnitCommand::LeaveProcessor`). Other workers are left as they
/// are.
pub fn eject_orphaned_workers<P: Copy>(states: &mut Vec<UnitState<P>>, buildings: &Vec<u64>) -> (r: Vec<usize>)
    ensures
        final(states)@.len() == old(states)@.len(),
        forall|i: int|
            0 <= i < old(states)@.len() ==> #[trigger] final(states)@[i] == if orphaned(old(states)@[i], buildings@) {
                UnitState::<P>::Idle
            } else {
                old(states)@[i]
            },
        r@ == orphan_positions(old(states)@, buildings@, old(states)@.len() as int),
{
    let mut out: Vec<usize> = Vec::new();
    let mut i: usize = 0;
    while i < states.len()
        invariant
            states@.len() == old(states)@.len(),
            i <= states@.len(),
            forall|j: int|
                0 <= j < i ==> #[trigger] states@[j] == if orphaned(old(states)@[j], buildings@) {
                    UnitState::<P>::Idle
                } else {
                    old(states)@[j]
                },
            forall|j: int| i <= j < states@.len() ==> #[trigger] states@[j] == old(states)@[j],
            out@ == orphan_positions(old(states)@, buildings@, i as int),
        decreases states@.len() - i,
    {
        let orphan = match states[i] {
            UnitState::InsideProcessor(b) | UnitState::MovingToProcessor(b) => !contains_building(buildings, b),
            _ => false,
        };
        if orphan {
            states.set(i, UnitState::Idle);
            out.push(i);
        }
        i += 1;
    }
    out
}

/// Drops assigned workers that no longer stay assigned (`states[i]` is the
/// state of `workers[i]`, `None` when it no longer exists), keeping order.
/// Workers of a building that no longer exists are ejected by
/// `eject_orphaned_workers` (and by the state machine, see
/// `lemma_vanished_processor_ejects`); ejected workers are idle, so the
/// next clean-up drops them.
pub fn cleanup_assigned_workers<P: Copy>(workers: &mut Vec<u64>, states: &Vec<Option<UnitState<P>>>)
    requires
        old(workers)@.len() == states@.len(),
    ensures
        final(workers)@ == Seq::new(old(workers)@.len(), |i: int| i).filter(|i: int| stays_assigned(states@[i])).map_values(|i: int| old(workers)@[i]),
{
    let ghost idx = Seq::new(old(workers)@.len(), |i: int| i);
    let ghost keep_pred = |i: int| stays_assigned(states@[i]);
    let mut out: Vec<u64> = Vec::new();
    let mut i: usize = 0;
    while i < workers.len()
        invariant
            workers@ == old(workers)@,
            workers@.len() == states@.len(),
            i <= workers@.len(),
            idx == Seq::new(old(workers)@.len(), |i: int| i),
            keep_pred == (|i: int| stays_assigned(states@[i])),
            out@ == idx.take(i as int).filter(keep_pred).map_values(|i: int| old(workers)@[i]),
        decreases workers@.len() - i,
    {
        let keep_it = match states[i] {
            Some(UnitState::InsideProcessor(_)) | Some(UnitState::MovingToProcessor(_)) => true,
            _ => false,
        };
        proof {
            idx.take(i as int).lemma_filter_push(i as int, keep_pred);
            assert(idx.take(i + 1) =~= idx.take(i as int).push(i as int));
        }
        if keep_it {
            out.push(workers[i]);
        }
        assert(out@ =~= idx.take(i + 1).filter(keep_pred).map_values(|i: int| old(workers)@[i]));
        i += 1;
    }
    assert(idx.take(workers@.len() as int) =~= idx);
    *workers = out;
}


// ── Laws ──

/// Law: idle and holding units keep their state and control, and only
/// clear their move and attack targets.
pub proof fn lemma_idle_and_hold_are_stable<P>(state: UnitState<P>, source: TaskSource, f: UnitFacts<P>)
    requires
        state is Idle || state is HoldPosition,
    ensures
        execute_spec(state, source, f).state == state,
        execute_spec(state, source, f).source == source,
        !execute_spec(state, source, f).clear_current,
{
}

/// Law: an ejected worker no longer stays assigned to any building.
pub proof fn lemma_ejected_not_assigned<P>(state: UnitState<P>, buildings: Seq<u64>)
    ensures
        orphaned(state, buildings) ==> stays_assigned(Some(state)) && !stays_assigned(Some(UnitState::<P>::Idle)),
{
}

/// Law: a worker inside a processor that no longer exists is ejected (it
/// leaves the building and goes idle under automatic control), and a worker
/// walking to a building that no longer exists gives up; either way it
/// stops being assigned.
pub proof fn lemma_vanished_processor_ejects<P>(b: u64, source: TaskSource, f: UnitFacts<P>)
    ensures
        f.processor is None ==> {
            let s = execute_spec(UnitState::<P>::InsideProcessor(b), source, f);
            &&& s.state == UnitState::<P>::Idle
            &&& s.source == TaskSource::Auto
            &&& s.commands == seq![UnitCommand::<P>::LeaveProcessor]
            &&& !stays_assigned(Some(s.state))
        },
        f.target_pos is None ==> {
            let s = execute_spec(UnitState::<P>::MovingToProcessor(b), source, f);
            &&& s.state == UnitState::<P>::Idle
            &&& !stays_assigned(Some(s.state))
        },
{
}

/// Law: whenever following a state drops the current task, the unit ends
/// idle under automatic control.
pub proof fn lemma_dropped_task_means_idle<P>(state: UnitState<P>, source: TaskSource, f: UnitFacts<P>)
    ensures
        execute_spec(state, source, f).clear_current ==> execute_spec(state, source, f).state
            == UnitState::<P>::Idle && execute_spec(state, source, f).source == TaskSource::Auto,
{
}

/// Law: a patrolling unit that arrives twice without meeting a hostile is
/// back on the leg it started on.
pub proof fn lemma_patrol_round_trip<P>(target: P, origin: P, f1: UnitFacts<P>, f2: UnitFacts<P>)
    requires
        !f1.has_move_target,
        f1.first_hostile is None,
        !f2.has_move_target,
        f2.first_hostile is None,
    ensures
        ({
            let s1 = execute_spec(UnitState::Patrolling { target, origin }, TaskSource::Manual, f1);
            execute_spec(s1.state, s1.source, f2).state == UnitState::Patrolling { target, origin }
        }),
{
}

/// Law: automatic decisions never override manual orders or queued tasks,
/// and the leash never acts on manually ordered units.
pub proof fn lemma_manual_orders_respected<P>(
    state: UnitState<P>,
    has_task: bool,
    stance: UnitStance,
    f: DecisionFacts<P>,
    l: LeashFacts<P>,
)
    ensures
        decide_spec(state, TaskSource::Manual, has_task, stance, f) is None,
        decide_spec(state, TaskSource::Auto, true, stance, f) is None,
        leash_spec(state, TaskSource::Manual, l) is None,
{
}

/// Law: a passive unit never engages on its own.
pub proof fn lemma_passive_never_engages<P>(state: UnitState<P>, source: TaskSource, has_task: bool, f: DecisionFacts<P>)
    ensures
        decide_spec(state, source, has_task, UnitStance::Passive, f) matches Some(s) ==> s.state is Moving,
{
}

/// Law: an attack-moving unit that is still under way stops to fight
/// exactly when a hostile is near: it then attacks the nearest hostile,
/// drops its move target and targets that hostile, under the same control
/// and without dropping its task; with no hostile near it keeps going.
pub proof fn lemma_attack_move_engages_en_route<P>(dest: P, source: TaskSource, f: UnitFacts<P>)
    requires
        f.has_move_target,
    ensures
        (execute_spec(UnitState::AttackMoving(dest), source, f).state is AttackMoving) <==> (f.nearest_hostile is None),
        f.nearest_hostile matches Some(t) ==> {
            let s = execute_spec(UnitState::AttackMoving(dest), source, f);
            &&& s.state == UnitState::<P>::Attacking(t)
            &&& s.source == source
            &&& !s.clear_current
            &&& s.commands == seq![UnitCommand::<P>::RemoveMoveTarget, UnitCommand::<P>::InsertAttackTarget(t)]
        },
{
}

/// Law: for automatic decisions a gathering unit reacts exactly as an idle
/// one: whatever its control, tasks, stance and surroundings, deciding for
/// it gives the same result as for an idle unit in its place.
pub proof fn lemma_gathering_reacts_like_idle<P>(
    node: u64,
    source: TaskSource,
    has_task: bool,
    stance: UnitStance,
    f: DecisionFacts<P>,
)
    ensures
        decide_spec(UnitState::<P>::Gathering(node), source, has_task, stance, f) == decide_spec(
            UnitState::<P>::Idle,
            source,
            has_task,
            stance,
            f,
        ),
{
}

/// Law: an automatically controlled unit without tasks that is idle or
/// gathering, and not passive, engages any threat it sees: it attacks it,
/// remembering where it stood as its leash origin.
pub proof fn lemma_free_unit_engages_threat<P>(state: UnitState<P>, stance: UnitStance, f: DecisionFacts<P>, t: u64)
    requires
        state is Idle || state is Gathering,
        stance != UnitStance::Passive,
        f.threat == Some(t),
    ensures
        decide_spec(state, TaskSource::Auto, false, stance, f) matches Some(s) && {
            &&& s.state == UnitState::<P>::Attacking(t)
            &&& s.source == TaskSource::Auto
            &&& !s.clear_current
            &&& s.commands == seq![UnitCommand::<P>::InsertLeashOrigin(f.unit_pos), UnitCommand::<P>::InsertAttackTarget(t)]
        },
{
}

/// Law: following a state changes who controls the unit only when it gives
/// up its task; every other step keeps the control it had.
pub proof fn lemma_control_kept_unless_giving_up<P>(state: UnitState<P>, source: TaskSource, f: UnitFacts<P>)
    ensures
        !execute_spec(state, source, f).clear_current ==> execute_spec(state, source, f).source == source,
{
}

/// Law: when following a state turns a unit that was not fighting into an
/// attacker of `t`, it drops its move target and its last command targets
/// `t`.
pub proof fn lemma_engaging_targets_the_enemy<P>(state: UnitState<P>, source: TaskSource, f: UnitFacts<P>, t: u64)
    requires
        !(state is Attacking),
        execute_spec(state, source, f).state == UnitState::<P>::Attacking(t),
    ensures
        execute_spec(state, source, f).commands.len() > 0,
        execute_spec(state, source, f).commands.last() == UnitCommand::<P>::InsertAttackTarget(t),
        execute_spec(state, source, f).commands.contains(UnitCommand::<P>::RemoveMoveTarget),
        !execute_spec(state, source, f).clear_current,
{
    let s = execute_spec(state, source, f);
    assert(s.commands[s.commands.len() - 2] == UnitCommand::<P>::RemoveMoveTarget);
}

/// Law: a moving unit that has arrived (its move target is gone) goes idle
/// under automatic control and drops its task; until then it keeps moving
/// to the same place.
pub proof fn lemma_move_ends_on_arrival<P>(dest: P, source: TaskSource, f: UnitFacts<P>)
    ensures
        !f.has_move_target ==> {
            let s = execute_spec(UnitState::Moving(dest), source, f);
            &&& s.state == UnitState::<P>::Idle
            &&& s.source == TaskSource::Auto
            &&& s.clear_current
        },
        f.has_move_target ==> {
            let s = execute_spec(UnitState::Moving(dest), source, f);
            &&& s.state == UnitState::Moving(dest)
            &&& s.commands == seq![UnitCommand::InsertMoveTarget(dest)]
        },
{
}

/// Law: an attacker whose target is gone goes idle, drops its task and its
/// attack target and leash; while the target exists it keeps attacking it.
pub proof fn lemma_attack_ends_with_target<P>(t: u64, source: TaskSource, f: UnitFacts<P>)
    ensures
        !f.attack_target_exists ==> {
            let s = execute_spec(UnitState::<P>::Attacking(t), source, f);
            &&& s.state == UnitState::<P>::Idle
            &&& s.source == TaskSource::Auto
            &&& s.clear_current
            &&& s.commands == seq![UnitCommand::<P>::RemoveAttackTarget, UnitCommand::<P>::RemoveLeashOrigin]
        },
        f.attack_target_exists ==> {
            let s = execute_spec(UnitState::<P>::Attacking(t), source, f);
            &&& s.state == UnitState::<P>::Attacking(t)
            &&& s.source == source
            &&& s.commands == seq![UnitCommand::<P>::InsertAttackTarget(t)]
        },
{
}

/// Law: a patrolling unit fights the first hostile it meets on arriving at
/// either end, after turning back towards the other end; with no hostile
/// it turns back; while under way nothing changes.
pub proof fn lemma_patrol_engages_on_arrival<P>(target: P, origin: P, source: TaskSource, f: UnitFacts<P>)
    ensures
        !f.has_move_target ==> (f.first_hostile matches Some(t) ==> {
            let s = execute_spec(UnitState::Patrolling { target, origin }, source, f);
            &&& s.state == UnitState::<P>::Attacking(t)
            &&& s.source == source
            &&& s.commands == seq![
                UnitCommand::InsertMoveTarget(origin),
                UnitCommand::<P>::RemoveMoveTarget,
                UnitCommand::<P>::InsertAttackTarget(t),
            ]
        }),
        !f.has_move_target && f.first_hostile is None ==> {
            let s = execute_spec(UnitState::Patrolling { target, origin }, source, f);
            &&& s.state == UnitState::Patrolling { target: origin, origin: target }
            &&& s.commands == seq![UnitCommand::InsertMoveTarget(origin)]
        },
        f.has_move_target ==> {
            let s = execute_spec(UnitState::Patrolling { target, origin }, source, f);
            &&& s.state == UnitState::Patrolling { target, origin }
            &&& s.commands.len() == 0
        },
{
}

/// Law: an attack-moving unit that has arrived goes idle and drops its task.
pub proof fn lemma_attack_move_ends_on_arrival<P>(dest: P, source: TaskSource, f: UnitFacts<P>)
    requires
        !f.has_move_target,
    ensures
        execute_spec(UnitState::AttackMoving(dest), source, f).state == UnitState::<P>::Idle,
        execute_spec(UnitState::AttackMoving(dest), source, f).clear_current,
{
}

/// Law: a worker walking to a processor goes in once near if there is room
/// (entering it), gives up if it is full or gone, and otherwise keeps
/// walking to it.
pub proof fn lemma_processor_entry<P>(b: u64, source: TaskSource, f: UnitFacts<P>)
    ensures
        f.target_pos is Some && f.processor_near && has_room(f.processor) ==> {
            let s = execute_spec(UnitState::<P>::MovingToProcessor(b), source, f);
            &&& s.state == UnitState::<P>::InsideProcessor(b)
            &&& s.commands.contains(UnitCommand::<P>::EnterProcessor(b))
            &&& !s.clear_current
        },
        (f.target_pos is None || (f.processor_near && !has_room(f.processor))) ==> {
            let s = execute_spec(UnitState::<P>::MovingToProcessor(b), source, f);
            &&& s.state == UnitState::<P>::Idle
            &&& s.clear_current
            &&& !s.commands.contains(UnitCommand::<P>::EnterProcessor(b))
        },
        f.target_pos matches Some(p) ==> (!f.processor_near ==> {
            let s = execute_spec(UnitState::<P>::MovingToProcessor(b), source, f);
            &&& s.state == UnitState::<P>::MovingToProcessor(b)
            &&& s.commands == seq![UnitCommand::InsertMoveTarget(p)]
        }),
{
    if f.target_pos is None || (f.processor_near && !has_room(f.processor)) {
        let s = execute_spec(UnitState::<P>::MovingToProcessor(b), source, f);
        assert(s.commands =~= seq![UnitCommand::<P>::RemoveMoveTarget]);
        assert(s.commands[0] != UnitCommand::<P>::EnterProcessor(b));
    }
}

/// Law: a builder works on a site only while it is under construction:
/// near the site it builds, too far it walks back to it, and once the site
/// is finished or gone it gives up.
pub proof fn lemma_builder_follows_site<P>(b: u64, source: TaskSource, f: UnitFacts<P>)
    ensures
        f.site_under_construction == Some(true) && f.target_pos is Some && f.build_near ==> execute_spec(
            UnitState::<P>::MovingToBuild(b),
            source,
            f,
        ).state == UnitState::<P>::Building(b),
        f.site_under_construction == Some(true) && f.target_pos is Some && f.build_far ==> execute_spec(
            UnitState::<P>::Building(b),
            source,
            f,
        ).state == UnitState::<P>::MovingToBuild(b),
        f.site_under_construction != Some(true) ==> execute_spec(UnitState::<P>::MovingToBuild(b), source, f).state
            == UnitState::<P>::Idle && execute_spec(UnitState::<P>::MovingToBuild(b), source, f).clear_current,
        f.site_under_construction != Some(true) ==> execute_spec(UnitState::<P>::Building(b), source, f).state
            == UnitState::<P>::Idle && execute_spec(UnitState::<P>::Building(b), source, f).clear_current,
{
}

/// Law: a gatherer whose resource node is gone gives up; otherwise it keeps
/// gathering, walking to the node when it is out of reach.
pub proof fn lemma_gatherer_follows_node<P>(node: u64, source: TaskSource, f: UnitFacts<P>)
    ensures
        f.target_pos is None ==> execute_spec(UnitState::<P>::Gathering(node), source, f).state == UnitState::<P>::Idle
            && execute_spec(UnitState::<P>::Gathering(node), source, f).clear_current,
        f.target_pos matches Some(p) ==> {
            let s = execute_spec(UnitState::<P>::Gathering(node), source, f);
            &&& s.state == UnitState::<P>::Gathering(node)
            &&& s.commands == (if f.gather_far { seq![UnitCommand::InsertMoveTarget(p)] } else { Seq::empty() })
        },
{
}

/// Law: a badly hurt automatic fighter that is not aggressive and has an
/// allied depot to run to retreats there, dropping its attack.
pub proof fn lemma_hurt_fighter_retreats<P>(t: u64, stance: UnitStance, f: DecisionFacts<P>, p: P)
    requires
        stance != UnitStance::Aggressive,
        f.low_health,
        f.retreat_to == Some(p),
    ensures
        decide_spec(UnitState::<P>::Attacking(t), TaskSource::Auto, false, stance, f) matches Some(s) && {
            &&& s.state == UnitState::Moving(p)
            &&& s.source == TaskSource::Auto
            &&& s.commands == seq![UnitCommand::<P>::RemoveAttackTarget, UnitCommand::InsertMoveTarget(p)]
        },
{
}

/// Law: an aggressive unit never retreats, and a unit that sees no threat
/// never starts a fight on its own.
pub proof fn lemma_engage_and_retreat_conditions<P>(
    state: UnitState<P>,
    source: TaskSource,
    has_task: bool,
    stance: UnitStance,
    f: DecisionFacts<P>,
)
    ensures
        stance == UnitStance::Aggressive ==> (decide_spec(state, source, has_task, stance, f) matches Some(s) ==> s.state
            is Attacking),
        f.threat is None ==> (decide_spec(state, source, has_task, stance, f) matches Some(s) ==> s.state is Moving),
        decide_spec(state, source, has_task, stance, f) matches Some(s) ==> s.source == TaskSource::Auto,
{
}

/// Law: units on their way somewhere or at work (moving to or in a
/// building, delivering, holding position, patrolling or attack-moving)
/// are never redirected by automatic decisions.
pub proof fn lemma_working_units_left_alone<P>(
    state: UnitState<P>,
    source: TaskSource,
    has_task: bool,
    stance: UnitStance,
    f: DecisionFacts<P>,
)
    requires
        state is Building || state is MovingToBuild || state is MovingToPlot || state is InsideProcessor
            || state is MovingToProcessor || state is Depositing || state is ReturningToDeposit
            || state is WaitingForStorage || state is HoldPosition || state is Patrolling || state is AttackMoving,
    ensures
        decide_spec(state, source, has_task, stance, f) is None,
{
}

/// Law: an automatic attacker that chased too far from where it engaged
/// returns there, dropping the attack and the leash; within the leash it
/// keeps fighting; a unit no longer attacking just drops its leash.
pub proof fn lemma_leash_pulls_back<P>(state: UnitState<P>, f: LeashFacts<P>)
    ensures
        state is Attacking && f.leash_active && f.beyond_leash ==> (leash_spec(state, TaskSource::Auto, f) matches Some(
            s,
        ) && {
            &&& s.state == UnitState::Moving(f.origin)
            &&& s.source == TaskSource::Auto
            &&& s.commands == seq![
                UnitCommand::<P>::RemoveAttackTarget,
                UnitCommand::<P>::RemoveLeashOrigin,
                UnitCommand::InsertMoveTarget(f.origin),
            ]
        }),
        state is Attacking && f.leash_active && !f.beyond_leash ==> leash_spec(state, TaskSource::Auto, f) is None,
        !(state is Attacking) ==> (leash_spec(state, TaskSource::Auto, f) matches Some(s) && s.state == state
            && s.commands == seq![UnitCommand::<P>::RemoveLeashOrigin]),
{
}

/// Law: starting a task sets the unit on it: a move, attack-move or patrol
/// heads for the given place, an attack targets the given entity, gathering
/// and building head for their target when it is known, and a processor
/// assignment is refused (nothing changes) when the building has no room.
pub proof fn lemma_started_task_heads_for_target<P>(task: QueuedTask<P>, f: TaskStartFacts<P>)
    ensures
        task matches QueuedTask::Move(pos) ==> start_task_spec(task, f) == (
            Some(UnitState::Moving(pos)),
            seq![UnitCommand::InsertMoveTarget(pos)],
        ),
        task matches QueuedTask::AttackMove(pos) ==> start_task_spec(task, f) == (
            Some(UnitState::AttackMoving(pos)),
            seq![UnitCommand::InsertMoveTarget(pos)],
        ),
        task matches QueuedTask::Attack(t) ==> start_task_spec(task, f) == (
            Some(UnitState::<P>::Attacking(t)),
            seq![UnitCommand::<P>::InsertAttackTarget(t)],
        ),
        task matches QueuedTask::Patrol(pos) ==> (f.unit_pos matches Some(o) ==> start_task_spec(task, f) == (
            Some(UnitState::Patrolling { target: pos, origin: o }),
            seq![UnitCommand::InsertMoveTarget(pos)],
        )),
        task matches QueuedTask::Gather(node) ==> (f.target_pos matches Some(p) ==> start_task_spec(task, f) == (
            Some(UnitState::<P>::Gathering(node)),
            seq![UnitCommand::InsertMoveTarget(p)],
        )),
        task matches QueuedTask::Build(b) ==> (f.target_pos matches Some(p) ==> start_task_spec(task, f) == (
            Some(UnitState::<P>::MovingToBuild(b)),
            seq![UnitCommand::InsertMoveTarget(p)],
        )),
        task is AssignToProcessor && !has_room(f.processor) ==> start_task_spec(task, f).0 is None
            && start_task_spec(task, f).1.len() == 0,
{
}

} // verus!
