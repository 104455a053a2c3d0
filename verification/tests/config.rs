use frame_scheduler::schedule::{
    in_game_schedule, ConfigError, InGameSet, Scheduler, SystemDef, SystemOutcome,
};

fn sys(id: u64, phase: InGameSet) -> SystemDef {
    SystemDef { id, phase, actions: Vec::new(), outcome: SystemOutcome::Completes }
}

#[test]
fn game_schedule_shape() {
    let s = in_game_schedule();
    assert_eq!(
        s.order,
        vec![
            InGameSet::DespawnEntities,
            InGameSet::UserInput,
            InGameSet::EntityUpdates,
            InGameSet::CollisionDetection,
        ]
    );
    assert_eq!(s.barriers.len(), 1);
    assert_eq!(s.barriers[0].after, InGameSet::DespawnEntities);
    assert_eq!(s.barriers[0].before, InGameSet::UserInput);
    assert_eq!(s.systems.len(), 0);
}

#[test]
fn duplicate_phase_rejected() {
    let mut s = Scheduler::new();
    let r = s.register_phase_order(vec![
        InGameSet::UserInput,
        InGameSet::EntityUpdates,
        InGameSet::UserInput,
    ]);
    assert_eq!(r, Err(ConfigError::DuplicatePhase));
    // the failed declaration left nothing behind
    assert_eq!(s.order.len(), 0);
}

#[test]
fn order_declared_only_once() {
    let mut s = Scheduler::new();
    assert_eq!(s.register_phase_order(vec![InGameSet::UserInput]), Ok(()));
    let r = s.register_phase_order(vec![InGameSet::EntityUpdates]);
    assert_eq!(r, Err(ConfigError::OrderAlreadyDeclared));
    assert_eq!(s.order, vec![InGameSet::UserInput]);
}

#[test]
fn unknown_phase_rejected_before_any_tick() {
    let mut s = Scheduler::new();
    assert_eq!(
        s.register_phase_order(vec![InGameSet::UserInput, InGameSet::EntityUpdates]),
        Ok(())
    );
    let r = s.register_system(sys(7, InGameSet::DespawnEntities));
    assert_eq!(r, Err(ConfigError::UnknownPhase));
    assert_eq!(s.systems.len(), 0);
}

#[test]
fn system_before_order_rejected() {
    let mut s = Scheduler::new();
    // nothing declared yet: every phase is unknown
    let r = s.register_system(sys(1, InGameSet::UserInput));
    assert_eq!(r, Err(ConfigError::UnknownPhase));
}

#[test]
fn non_adjacent_barrier_rejected() {
    let mut s = in_game_schedule();
    let r = s.register_barrier(InGameSet::DespawnEntities, InGameSet::EntityUpdates);
    assert_eq!(r, Err(ConfigError::NonAdjacentBarrier));
    assert_eq!(s.barriers.len(), 1);
}

#[test]
fn reversed_barrier_rejected() {
    let mut s = in_game_schedule();
    let r = s.register_barrier(InGameSet::UserInput, InGameSet::DespawnEntities);
    assert_eq!(r, Err(ConfigError::NonAdjacentBarrier));
}

#[test]
fn any_adjacent_barrier_accepted() {
    let mut s = in_game_schedule();
    let r = s.register_barrier(InGameSet::EntityUpdates, InGameSet::CollisionDetection);
    assert_eq!(r, Ok(()));
    assert_eq!(s.barriers.len(), 2);
}
