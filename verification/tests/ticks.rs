use frame_scheduler::schedule::{in_game_schedule, InGameSet, SystemDef, SystemOutcome};
use frame_scheduler::tick::{Fault, TickEvent};
use frame_scheduler::world::{Mutation, World};

fn sys(id: u64, phase: InGameSet, actions: Vec<Mutation>) -> SystemDef {
    SystemDef { id, phase, actions, outcome: SystemOutcome::Completes }
}

fn ran(id: u64, phase: InGameSet) -> TickEvent {
    TickEvent::SystemRan { id, phase }
}

#[test]
fn phases_run_in_declared_order() {
    let mut s = in_game_schedule();
    // register out of phase order on purpose: execution follows the order,
    // not registration
    s.register_system(sys(3, InGameSet::CollisionDetection, Vec::new())).unwrap();
    s.register_system(sys(1, InGameSet::UserInput, Vec::new())).unwrap();
    s.register_system(sys(2, InGameSet::EntityUpdates, Vec::new())).unwrap();
    s.register_system(sys(0, InGameSet::DespawnEntities, Vec::new())).unwrap();
    let mut w = World::new();
    let r = s.run_tick(true, &mut w);
    assert!(r.ran);
    assert_eq!(
        r.events,
        vec![
            ran(0, InGameSet::DespawnEntities),
            TickEvent::BarrierFired { after: InGameSet::DespawnEntities },
            ran(1, InGameSet::UserInput),
            ran(2, InGameSet::EntityUpdates),
            ran(3, InGameSet::CollisionDetection),
        ]
    );
    assert_eq!(r.failed, None);
    assert_eq!(r.faults, Vec::new());
}

#[test]
fn false_gate_is_a_no_op() {
    let mut s = in_game_schedule();
    s.register_system(sys(1, InGameSet::UserInput, vec![Mutation::Spawn(9)])).unwrap();
    let mut w = World { entities: vec![4, 5], queue: vec![Mutation::Despawn(4)] };
    let r = s.run_tick(false, &mut w);
    assert!(!r.ran);
    assert_eq!(r.events, Vec::new());
    assert_eq!(w.entities, vec![4, 5]);
    assert_eq!(w.queue, vec![Mutation::Despawn(4)]);
}

#[test]
fn ten_skipped_ticks_change_nothing() {
    let mut s = in_game_schedule();
    s.register_system(sys(1, InGameSet::DespawnEntities, vec![Mutation::Despawn(4)])).unwrap();
    let mut w = World { entities: vec![4, 5, 6], queue: vec![Mutation::Spawn(7)] };
    let entities0 = w.entities.clone();
    let queue0 = w.queue.clone();
    for _ in 0..10 {
        let r = s.run_tick(false, &mut w);
        assert!(!r.ran);
    }
    assert_eq!(w.entities, entities0);
    assert_eq!(w.queue, queue0);
}

fn barrier_applies_n_despawns(n: u64) {
    let mut s = in_game_schedule();
    let mut marked: Vec<Mutation> = Vec::new();
    let mut alive: Vec<u64> = Vec::new();
    for e in 0..n {
        marked.push(Mutation::Despawn(e));
        alive.push(e);
    }
    s.register_system(sys(100, InGameSet::DespawnEntities, marked)).unwrap();
    s.register_system(sys(200, InGameSet::UserInput, Vec::new())).unwrap();
    let mut w = World { entities: alive, queue: Vec::new() };
    let r = s.run_tick(true, &mut w);
    // the barrier fired after the despawn system and before the input system
    assert_eq!(
        r.events,
        vec![
            ran(100, InGameSet::DespawnEntities),
            TickEvent::BarrierFired { after: InGameSet::DespawnEntities },
            ran(200, InGameSet::UserInput),
        ]
    );
    // all n mutations were applied at the barrier, none skipped, none left over
    assert_eq!(w.entities, Vec::new());
    assert_eq!(w.queue, Vec::new());
    assert_eq!(r.skipped, Vec::new());
}

#[test]
fn barrier_applies_zero_despawns() {
    barrier_applies_n_despawns(0);
}

#[test]
fn barrier_applies_one_despawn() {
    barrier_applies_n_despawns(1);
}

#[test]
fn barrier_applies_hundred_despawns() {
    barrier_applies_n_despawns(100);
}

fn phase_keeps_m_enqueues(m: u64) {
    let mut s = in_game_schedule();
    let mut expected: Vec<Mutation> = Vec::new();
    for k in 0..m {
        // one mutation per system, all in the same phase
        s.register_system(sys(k, InGameSet::UserInput, vec![Mutation::Spawn(1000 + k)])).unwrap();
        expected.push(Mutation::Spawn(1000 + k));
    }
    let mut w = World::new();
    let r = s.run_tick(true, &mut w);
    assert!(r.ran);
    // no barrier follows UserInput, so exactly the m mutations sit in the
    // queue for the next drain: none lost, none duplicated
    assert_eq!(w.queue, expected);
    assert_eq!(w.entities, Vec::new());
}

#[test]
fn two_enqueues_all_kept() {
    phase_keeps_m_enqueues(2);
}

#[test]
fn ten_enqueues_all_kept() {
    phase_keeps_m_enqueues(10);
}

#[test]
fn fifty_enqueues_all_kept() {
    phase_keeps_m_enqueues(50);
}

#[test]
fn queued_spawns_apply_at_next_tick_barrier() {
    // mutations left queued by a late phase are applied by the first barrier
    // of the next tick
    let mut s = in_game_schedule();
    s.register_system(sys(1, InGameSet::CollisionDetection, vec![Mutation::Spawn(8)])).unwrap();
    let mut w = World::new();
    s.run_tick(true, &mut w);
    assert_eq!(w.queue, vec![Mutation::Spawn(8)]);
    assert_eq!(w.entities, Vec::new());
    s.run_tick(true, &mut w);
    assert_eq!(w.entities, vec![8]);
    assert_eq!(w.queue, vec![Mutation::Spawn(8)]);
}

#[test]
fn drain_is_fifo_spawn_then_despawn() {
    let mut s = in_game_schedule();
    s.register_system(sys(
        1,
        InGameSet::DespawnEntities,
        vec![Mutation::Spawn(5), Mutation::Despawn(5)],
    ))
    .unwrap();
    let mut w = World::new();
    let r = s.run_tick(true, &mut w);
    assert_eq!(w.entities, Vec::new());
    assert_eq!(r.skipped, Vec::new());
}

#[test]
fn drain_is_fifo_despawn_then_spawn() {
    let mut s = in_game_schedule();
    s.register_system(sys(
        1,
        InGameSet::DespawnEntities,
        vec![Mutation::Despawn(5), Mutation::Spawn(5)],
    ))
    .unwrap();
    let mut w = World { entities: vec![5], queue: Vec::new() };
    let r = s.run_tick(true, &mut w);
    assert_eq!(w.entities, vec![5]);
    assert_eq!(r.skipped, Vec::new());
}

#[test]
fn inapplicable_mutations_reported_not_dropped() {
    let mut s = in_game_schedule();
    s.register_system(sys(
        1,
        InGameSet::DespawnEntities,
        vec![Mutation::Despawn(42), Mutation::Spawn(7)],
    ))
    .unwrap();
    // 42 is already gone and 7 is already alive: both are skipped, reported
    let mut w = World { entities: vec![7], queue: Vec::new() };
    let r = s.run_tick(true, &mut w);
    assert_eq!(r.skipped, vec![Mutation::Despawn(42), Mutation::Spawn(7)]);
    assert_eq!(w.entities, vec![7]);
    assert_eq!(w.queue, Vec::new());
}

#[test]
fn recoverable_fault_reported_tick_goes_on() {
    let mut s = in_game_schedule();
    s.register_system(SystemDef {
        id: 1,
        phase: InGameSet::UserInput,
        actions: vec![Mutation::Spawn(9)],
        outcome: SystemOutcome::RecoverableFault,
    })
    .unwrap();
    s.register_system(sys(2, InGameSet::EntityUpdates, Vec::new())).unwrap();
    let mut w = World::new();
    let r = s.run_tick(true, &mut w);
    assert_eq!(r.faults, vec![Fault { id: 1, phase: InGameSet::UserInput }]);
    assert_eq!(r.failed, None);
    // the faulting system contributed nothing, the later phase still ran
    assert_eq!(w.queue, Vec::new());
    assert_eq!(
        r.events,
        vec![
            TickEvent::BarrierFired { after: InGameSet::DespawnEntities },
            ran(1, InGameSet::UserInput),
            ran(2, InGameSet::EntityUpdates),
        ]
    );
}

#[test]
fn unrecoverable_fault_stops_the_tick() {
    let mut s = in_game_schedule();
    s.register_system(sys(1, InGameSet::DespawnEntities, vec![Mutation::Despawn(4)])).unwrap();
    s.register_system(SystemDef {
        id: 2,
        phase: InGameSet::UserInput,
        actions: Vec::new(),
        outcome: SystemOutcome::UnrecoverableFault,
    })
    .unwrap();
    s.register_system(sys(3, InGameSet::EntityUpdates, Vec::new())).unwrap();
    let mut w = World { entities: vec![4], queue: Vec::new() };
    let r = s.run_tick(true, &mut w);
    // the failing system and its phase are exposed
    assert_eq!(r.failed, Some(Fault { id: 2, phase: InGameSet::UserInput }));
    // the earlier barrier had already applied the despawn; nothing later ran
    assert_eq!(w.entities, Vec::new());
    assert_eq!(
        r.events,
        vec![
            ran(1, InGameSet::DespawnEntities),
            TickEvent::BarrierFired { after: InGameSet::DespawnEntities },
            ran(2, InGameSet::UserInput),
        ]
    );
}

#[test]
fn systems_of_one_phase_run_in_registration_order() {
    let mut s = in_game_schedule();
    s.register_system(sys(5, InGameSet::EntityUpdates, Vec::new())).unwrap();
    s.register_system(sys(4, InGameSet::EntityUpdates, Vec::new())).unwrap();
    let mut w = World::new();
    let r = s.run_tick(true, &mut w);
    assert_eq!(
        r.events,
        vec![
            TickEvent::BarrierFired { after: InGameSet::DespawnEntities },
            ran(5, InGameSet::EntityUpdates),
            ran(4, InGameSet::EntityUpdates),
        ]
    );
}

#[test]
fn batch_of_ten_skipped_ticks_is_identity() {
    let mut s = in_game_schedule();
    s.register_system(sys(1, InGameSet::DespawnEntities, vec![Mutation::Despawn(4)])).unwrap();
    let mut w = World { entities: vec![4, 5], queue: vec![Mutation::Spawn(6)] };
    let reports = s.run_ticks(&vec![false; 10], &mut w);
    assert_eq!(reports.len(), 10);
    for r in &reports {
        assert!(!r.ran);
        assert_eq!(r.events, Vec::new());
    }
    assert_eq!(w.entities, vec![4, 5]);
    assert_eq!(w.queue, vec![Mutation::Spawn(6)]);
}

#[test]
fn batch_mixes_skipped_and_run_ticks() {
    let mut s = in_game_schedule();
    s.register_system(sys(1, InGameSet::DespawnEntities, vec![Mutation::Despawn(4)])).unwrap();
    let mut w = World { entities: vec![4], queue: Vec::new() };
    let reports = s.run_ticks(&vec![false, true, false], &mut w);
    assert!(!reports[0].ran);
    assert!(reports[1].ran);
    assert!(!reports[2].ran);
    // only the one gated-in tick acted: the despawn reached the barrier
    assert_eq!(w.entities, Vec::new());
    assert_eq!(w.queue, Vec::new());
}
