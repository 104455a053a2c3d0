//! Phases, systems, barriers, and the scheduler configuration.

use vstd::prelude::*;

use crate::world::Mutation;

verus! {

/// The named stages of one gameplay tick. The set is closed and carries
/// no payload: a phase is pure identity, used for ordering and for
/// tagging systems.
#[derive(Clone, Copy, PartialEq, Eq, Structural, Hash, Debug)]
pub enum InGameSet {
    UserInput,
    EntityUpdates,
    CollisionDetection,
    DespawnEntities,
}

/// How a system ends when it runs. A recoverable fault is reported and
/// the tick goes on; an unrecoverable fault fails the whole tick.
#[derive(Clone, Copy, PartialEq, Eq, Structural, Debug)]
pub enum SystemOutcome {
    Completes,
    RecoverableFault,
    UnrecoverableFault,
}

/// A registered unit of work. The scheduler never looks inside a system:
/// its whole observable interaction with the schedule is the phase it is
/// tagged with, the structural mutations it defers to the queue when it
/// completes, and how it ends.
#[derive(Debug)]
pub struct SystemDef {
    /// Identity reported in the tick trace and in fault diagnostics.
    pub id: u64,
    /// The one phase this system belongs to; immutable once registered.
    pub phase: InGameSet,
    /// Mutations the system enqueues, in order, when it completes.
    pub actions: Vec<Mutation>,
    /// How a run of this system ends.
    pub outcome: SystemOutcome,
}

/// A declared synchronization point: the queue is drained after every
/// system of `after` has completed and before any system of `before`
/// starts. Only adjacent phases may be bridged.
#[derive(Clone, Copy, PartialEq, Eq, Structural, Debug)]
pub struct Barrier {
    pub after: InGameSet,
    pub before: InGameSet,
}

/// A configuration fault. All of these are surfaced at registration
/// time, before any tick runs.
#[derive(Clone, Copy, PartialEq, Eq, Structural, Debug)]
pub enum ConfigError {
    /// The phase order was already declared; it is declared exactly once.
    OrderAlreadyDeclared,
    /// The declared order mentions some phase twice.
    DuplicatePhase,
    /// A system was tagged with a phase outside the declared order.
    UnknownPhase,
    /// A barrier was placed between phases that are not adjacent in the
    /// declared order.
    NonAdjacentBarrier,
}

/// No phase occurs twice in `order`.
pub open spec fn distinct_phases(order: Seq<InGameSet>) -> bool {
    forall|i: int, j: int| 0 <= i < j < order.len() ==> order[i] != order[j]
}

/// Phases `a` and `b` sit at positions `k` and `k + 1` of `order`.
pub open spec fn pair_at(order: Seq<InGameSet>, a: InGameSet, b: InGameSet, k: int) -> bool {
    0 <= k && k + 1 < order.len() && order[k] == a && order[k + 1] == b
}

/// Phase `a` immediately precedes phase `b` in `order`.
pub open spec fn adjacent_in(order: Seq<InGameSet>, a: InGameSet, b: InGameSet) -> bool {
    exists|k: int| pair_at(order, a, b, k)
}

/// The frame scheduler: the declared phase order, the registered
/// systems, and the declared barriers. Configuration is mutated only by
/// the registration methods, each of which rejects an inconsistent
/// schedule; ticks never change it.
#[derive(Debug)]
pub struct Scheduler {
    /// Whether the phase order has been declared yet.
    pub declared: bool,
    /// The total order of phases, earliest first.
    pub order: Vec<InGameSet>,
    /// Registered systems, in registration order.
    pub systems: Vec<SystemDef>,
    /// Declared barriers, each between two adjacent phases.
    pub barriers: Vec<Barrier>,
}

impl Scheduler {
    /// A consistent configuration: the order has no duplicate phase,
    /// every system is tagged with a declared phase, and every barrier
    /// bridges two adjacent phases of the order.
    pub open spec fn wf(self) -> bool {
        &&& distinct_phases(self.order@)
        &&& !self.declared ==> self.order@.len() == 0
        &&& forall|k: int|
            0 <= k < self.systems@.len() ==> self.order@.contains(#[trigger] self.systems@[k].phase)
        &&& forall|k: int|
            0 <= k < self.barriers@.len() ==> adjacent_in(
                self.order@,
                (#[trigger] self.barriers@[k]).after,
                self.barriers@[k].before,
            )
    }

    /// A barrier is declared right after the phase at position `i` of
    /// the order.
    pub open spec fn barrier_after_at(self, i: int) -> bool {
        exists|k: int|
            0 <= k < self.barriers@.len() && (#[trigger] self.barriers@[k]).after == self.order@[i]
    }

    /// A scheduler with nothing declared yet.
    pub fn new() -> (s: Scheduler)
        ensures
            s.wf(),
            !s.declared,
            s.order@.len() == 0,
            s.systems@.len() == 0,
            s.barriers@.len() == 0,
    {
        Scheduler { declared: false, order: Vec::new(), systems: Vec::new(), barriers: Vec::new() }
    }

    /// Whether `p` is one of the declared phases.
    #[verifier::loop_isolation(false)]
    fn order_contains(&self, p: InGameSet) -> (b: bool)
        ensures
            b == self.order@.contains(p),
    {
        let mut i: usize = 0;
        while i < self.order.len()
            invariant
                i <= self.order@.len(),
                forall|k: int| 0 <= k < i ==> self.order@[k] != p,
            decreases self.order@.len() - i,
        {
            if self.order[i] == p {
                assert(self.order@[i as int] == p);
                return true;
            }
            i += 1;
        }
        false
    }

    /// Whether `phases` mentions some phase twice.
    #[verifier::loop_isolation(false)]
    fn has_duplicate(phases: &Vec<InGameSet>) -> (b: bool)
        ensures
            b == !distinct_phases(phases@),
    {
        let mut i: usize = 0;
        while i < phases.len()
            invariant
                i <= phases@.len(),
                forall|x: int, y: int| 0 <= x < y < phases@.len() && x < i ==> phases@[x] != phases@[y],
            decreases phases@.len() - i,
        {
            let mut j: usize = i + 1;
            while j < phases.len()
                invariant
                    i < j <= phases@.len(),
                    i < phases@.len(),
                    forall|x: int, y: int| 0 <= x < y < phases@.len() && x < i ==> phases@[x] != phases@[y],
                    forall|y: int| i < y < j ==> phases@[i as int] != phases@[y],
                decreases phases@.len() - j,
            {
                if phases[i] == phases[j] {
                    assert(phases@[i as int] == phases@[j as int]);
                    return true;
                }
                j += 1;
            }
            i += 1;
        }
        false
    }

    /// Declare the total order of phases. Succeeds exactly once, and only
    /// for an order without duplicates; on failure nothing changes.
    pub fn register_phase_order(&mut self, phases: Vec<InGameSet>) -> (r: Result<(), ConfigError>)
        requires
            old(self).wf(),
        ensures
            final(self).wf(),
            old(self).declared ==> r == Err::<(), ConfigError>(ConfigError::OrderAlreadyDeclared)
                && *final(self) == *old(self),
            !old(self).declared && !distinct_phases(phases@) ==> r == Err::<(), ConfigError>(
                ConfigError::DuplicatePhase,
            ) && *final(self) == *old(self),
            !old(self).declared && distinct_phases(phases@) ==> r == Ok::<(), ConfigError>(())
                && final(self).declared && final(self).order@ == phases@ && final(self).systems@ == old(self).systems@
                && final(self).barriers@ == old(self).barriers@,
    {
        if self.declared {
            return Err(ConfigError::OrderAlreadyDeclared);
        }
        if Self::has_duplicate(&phases) {
            return Err(ConfigError::DuplicatePhase);
        }
        self.declared = true;
        self.order = phases;
        Ok(())
    }

    /// Register a unit of work under its phase. Succeeds exactly when the
    /// phase is part of the declared order; on failure nothing changes.
    pub fn register_system(&mut self, system: SystemDef) -> (r: Result<(), ConfigError>)
        requires
            old(self).wf(),
        ensures
            final(self).wf(),
            !old(self).order@.contains(system.phase) ==> r == Err::<(), ConfigError>(
                ConfigError::UnknownPhase,
            ) && *final(self) == *old(self),
            old(self).order@.contains(system.phase) ==> r == Ok::<(), ConfigError>(())
                && final(self).systems@ == old(self).systems@.push(system) && final(self).order@ == old(
                self,
            ).order@ && final(self).declared == old(self).declared && final(self).barriers@ == old(
                self,
            ).barriers@,
    {
        if !self.order_contains(system.phase) {
            return Err(ConfigError::UnknownPhase);
        }
        self.systems.push(system);
        Ok(())
    }

    /// Declare a barrier between two phases. Succeeds exactly when
    /// `after` immediately precedes `before` in the declared order; on
    /// failure nothing changes.
    #[verifier::loop_isolation(false)]
    #[verifier::rlimit(50)]
    pub fn register_barrier(&mut self, after: InGameSet, before: InGameSet) -> (r: Result<
        (),
        ConfigError,
    >)
        requires
            old(self).wf(),
        ensures
            final(self).wf(),
            !adjacent_in(old(self).order@, after, before) ==> r == Err::<(), ConfigError>(
                ConfigError::NonAdjacentBarrier,
            ) && *final(self) == *old(self),
            adjacent_in(old(self).order@, after, before) ==> r == Ok::<(), ConfigError>(())
                && final(self).barriers@ == old(self).barriers@.push(Barrier { after, before })
                && final(self).order@ == old(self).order@ && final(self).declared == old(self).declared
                && final(self).systems@ == old(self).systems@,
    {
        let mut i: usize = 0;
        let mut found: bool = false;
        while i < self.order.len() && i + 1 < self.order.len() && !found
            invariant
                i <= self.order@.len(),
                found ==> pair_at(self.order@, after, before, i as int),
                !found ==> forall|k: int| 0 <= k < i ==> !pair_at(self.order@, after, before, k),
            decreases self.order@.len() - i + (if found { 0int } else { 1int }),
        {
            if self.order[i] == after && self.order[i + 1] == before {
                assert(pair_at(self.order@, after, before, i as int));
                found = true;
            } else {
                assert(!pair_at(self.order@, after, before, i as int));
                i += 1;
            }
        }
        if found {
            assert(adjacent_in(self.order@, after, before));
            self.barriers.push(Barrier { after, before });
            return Ok(());
        }
        assert(!adjacent_in(self.order@, after, before)) by {
            assert forall|k: int| !pair_at(self.order@, after, before, k) by {
                assert(k < i ==> !pair_at(self.order@, after, before, k));
            }
        }
        Err(ConfigError::NonAdjacentBarrier)
    }
}

/// The gameplay schedule of the game itself: despawn first, then user
/// input, entity updates, and collision detection, with the one barrier
/// that flushes deferred despawns before input is interpreted.
pub fn in_game_schedule() -> (s: Scheduler)
    ensures
        s.wf(),
        s.declared,
        s.order@.len() == 4,
        s.order@[0] == InGameSet::DespawnEntities,
        s.order@[1] == InGameSet::UserInput,
        s.order@[2] == InGameSet::EntityUpdates,
        s.order@[3] == InGameSet::CollisionDetection,
        s.systems@.len() == 0,
        s.barriers@.len() == 1,
        s.barriers@[0] == (Barrier { after: InGameSet::DespawnEntities, before: InGameSet::UserInput }),
{
    let mut s = Scheduler::new();
    let mut phases: Vec<InGameSet> = Vec::new();
    phases.push(InGameSet::DespawnEntities);
    phases.push(InGameSet::UserInput);
    phases.push(InGameSet::EntityUpdates);
    phases.push(InGameSet::CollisionDetection);
    assert(distinct_phases(phases@));
    let r = s.register_phase_order(phases);
    assert(r is Ok);
    proof {
        assert(s.order@[0] == InGameSet::DespawnEntities && s.order@[1] == InGameSet::UserInput);
        assert(pair_at(s.order@, InGameSet::DespawnEntities, InGameSet::UserInput, 0));
        assert(adjacent_in(s.order@, InGameSet::DespawnEntities, InGameSet::UserInput));
    }
    let rb = s.register_barrier(InGameSet::DespawnEntities, InGameSet::UserInput);
    assert(rb is Ok);
    s
}

} // verus!
