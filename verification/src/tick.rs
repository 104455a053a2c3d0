//! Running one tick of the schedule.
//!
//! The meaning of a tick is given by two spec functions: [`run_phase`]
//! says what running the systems of one phase does to the mutation
//! queue and to the trace, and [`tick_from`] folds that over the
//! declared phase order, draining the queue at every declared barrier.
//! [`Scheduler::run_tick`] is proved to produce exactly that.

use vstd::prelude::*;

use crate::schedule::{InGameSet, Scheduler, SystemDef, SystemOutcome};
use crate::world::{apply_from, skipped_from, Mutation, World};

verus! {

/// One observable step of a tick, in the order it happened.
#[derive(Clone, Copy, PartialEq, Eq, Structural, Debug)]
pub enum TickEvent {
    /// A system started (and, unless the tick failed on it, finished).
    SystemRan { id: u64, phase: InGameSet },
    /// The queue was drained right after this phase completed.
    BarrierFired { after: InGameSet },
}

/// The identity of a faulting system, for diagnosis by the host.
#[derive(Clone, Copy, PartialEq, Eq, Structural, Debug)]
pub struct Fault {
    pub id: u64,
    pub phase: InGameSet,
}

/// Everything one tick reports back to the host.
#[derive(Debug)]
pub struct TickReport {
    /// Whether `gate` was true, i.e. whether the pipeline ran at all.
    pub ran: bool,
    /// The full trace of the tick, in execution order.
    pub events: Vec<TickEvent>,
    /// Systems that faulted recoverably; the tick went on past them.
    pub faults: Vec<Fault>,
    /// Mutations that a barrier drain had to skip, reported, not dropped.
    pub skipped: Vec<Mutation>,
    /// The system that failed the whole tick, if one did.
    pub failed: Option<Fault>,
}

/// What running the systems of one phase yields: the trace of the
/// phase, the queue afterwards, the recoverable faults, and the fault
/// that stopped the tick, if one did.
pub struct PhaseRun {
    pub events: Seq<TickEvent>,
    pub queue: Seq<Mutation>,
    pub faults: Seq<Fault>,
    pub failed: Option<Fault>,
}

/// What a whole tick from some phase onward yields.
pub struct TickRun {
    pub events: Seq<TickEvent>,
    pub live: Set<u64>,
    pub queue: Seq<Mutation>,
    pub faults: Seq<Fault>,
    pub skipped: Seq<Mutation>,
    pub failed: Option<Fault>,
}

/// Running the systems of `all` that are tagged with phase `p`, in
/// registration order, starting from queue `queue`. A completing system
/// appends its actions to the queue; a recoverably faulting system is
/// reported and contributes nothing; an unrecoverably faulting system
/// ends the phase (and the tick) on the spot.
pub open spec fn run_phase(all: Seq<SystemDef>, p: InGameSet, queue: Seq<Mutation>) -> PhaseRun
    decreases all.len(),
{
    if all.len() == 0 {
        PhaseRun { events: Seq::empty(), queue, faults: Seq::empty(), failed: None }
    } else if all[0].phase != p {
        run_phase(all.drop_first(), p, queue)
    } else {
        let ev = TickEvent::SystemRan { id: all[0].id, phase: all[0].phase };
        match all[0].outcome {
            SystemOutcome::Completes => {
                let rest = run_phase(all.drop_first(), p, queue + all[0].actions@);
                PhaseRun {
                    events: seq![ev] + rest.events,
                    queue: rest.queue,
                    faults: rest.faults,
                    failed: rest.failed,
                }
            },
            SystemOutcome::RecoverableFault => {
                let rest = run_phase(all.drop_first(), p, queue);
                PhaseRun {
                    events: seq![ev] + rest.events,
                    queue: rest.queue,
                    faults: seq![Fault { id: all[0].id, phase: all[0].phase }] + rest.faults,
                    failed: rest.failed,
                }
            },
            SystemOutcome::UnrecoverableFault => PhaseRun {
                events: seq![ev],
                queue,
                faults: Seq::empty(),
                failed: Some(Fault { id: all[0].id, phase: all[0].phase }),
            },
        }
    }
}

/// The rest of a tick, from the phase at position `i` of the declared
/// order onward: run each phase in order, and after a phase followed by
/// a declared barrier, apply the whole queue to the live set before the
/// next phase starts. An unrecoverable fault stops everything at once:
/// no later system runs and no later barrier fires.
pub open spec fn tick_from(s: Scheduler, i: int, live: Set<u64>, queue: Seq<Mutation>) -> TickRun
    decreases s.order@.len() - i,
{
    if i < 0 || s.order@.len() <= i {
        TickRun {
            events: Seq::empty(),
            live,
            queue,
            faults: Seq::empty(),
            skipped: Seq::empty(),
            failed: None,
        }
    } else {
        let p = s.order@[i];
        let ph = run_phase(s.systems@, p, queue);
        if ph.failed is Some {
            TickRun {
                events: ph.events,
                live,
                queue: ph.queue,
                faults: ph.faults,
                skipped: Seq::empty(),
                failed: ph.failed,
            }
        } else if s.barrier_after_at(i) {
            let rest = tick_from(s, i + 1, apply_from(live, ph.queue), Seq::empty());
            TickRun {
                events: ph.events + seq![TickEvent::BarrierFired { after: p }] + rest.events,
                live: rest.live,
                queue: rest.queue,
                faults: ph.faults + rest.faults,
                skipped: skipped_from(live, ph.queue) + rest.skipped,
                failed: rest.failed,
            }
        } else {
            let rest = tick_from(s, i + 1, live, ph.queue);
            TickRun {
                events: ph.events + rest.events,
                live: rest.live,
                queue: rest.queue,
                faults: ph.faults + rest.faults,
                skipped: rest.skipped,
                failed: rest.failed,
            }
        }
    }
}

/// The tick ran and its report and the new world are exactly what
/// [`tick_from`] says for the whole declared order.
pub open spec fn tick_matches(s: Scheduler, w0: World, w1: World, r: TickReport) -> bool {
    let t = tick_from(s, 0, w0.live(), w0.queue@);
    &&& r.events@ == t.events
    &&& r.faults@ == t.faults
    &&& r.skipped@ == t.skipped
    &&& r.failed == t.failed
    &&& w1.live() == t.live
    &&& w1.queue@ == t.queue
}

/// The world as tick-level spec data: the live set and the queue.
pub struct WorldRun {
    pub live: Set<u64>,
    pub queue: Seq<Mutation>,
}

/// The spec view of a world between ticks.
pub open spec fn world_run(w: World) -> WorldRun {
    WorldRun { live: w.live(), queue: w.queue@ }
}

/// What one tick with gate `g` does to the world. A skipped tick is the
/// identity: nothing runs and nothing is drained.
pub open spec fn tick_step(s: Scheduler, w: WorldRun, g: bool) -> WorldRun {
    if g {
        let t = tick_from(s, 0, w.live, w.queue);
        WorldRun { live: t.live, queue: t.queue }
    } else {
        w
    }
}

/// The world after one tick per entry of `gates`, in order.
pub open spec fn ticks_from(s: Scheduler, w: WorldRun, gates: Seq<bool>) -> WorldRun
    decreases gates.len(),
{
    if gates.len() == 0 {
        w
    } else {
        ticks_from(s, tick_step(s, w, gates[0]), gates.drop_first())
    }
}

/// The report of a tick with gate `g` from world `w` is exactly what
/// the tick semantics prescribe; for a skipped tick it is empty.
pub open spec fn report_matches(s: Scheduler, w: WorldRun, g: bool, r: TickReport) -> bool {
    if g {
        let t = tick_from(s, 0, w.live, w.queue);
        &&& r.ran == true
        &&& r.events@ == t.events
        &&& r.faults@ == t.faults
        &&& r.skipped@ == t.skipped
        &&& r.failed == t.failed
    } else {
        &&& r.ran == false
        &&& r.events@.len() == 0
        &&& r.faults@.len() == 0
        &&& r.skipped@.len() == 0
        &&& r.failed is None
    }
}

/// Folding one more gate onto a batch of ticks is one more tick step.
proof fn lemma_ticks_snoc(s: Scheduler, w: WorldRun, gs: Seq<bool>, g: bool)
    ensures
        ticks_from(s, w, gs.push(g)) == tick_step(s, ticks_from(s, w, gs), g),
    decreases gs.len(),
{
    let ext = gs.push(g);
    if gs.len() == 0 {
        assert(ext[0] == g);
        assert(ext.drop_first() =~= Seq::<bool>::empty());
        assert(ticks_from(s, w, ext) == ticks_from(s, tick_step(s, w, g), ext.drop_first()));
        assert(ticks_from(s, tick_step(s, w, g), Seq::<bool>::empty()) == tick_step(s, w, g));
        assert(ticks_from(s, w, gs) == w);
    } else {
        assert(ext[0] == gs[0]);
        assert(ext.drop_first() =~= gs.drop_first().push(g));
        lemma_ticks_snoc(s, tick_step(s, w, gs[0]), gs.drop_first(), g);
        assert(ticks_from(s, w, ext) == ticks_from(s, tick_step(s, w, gs[0]), ext.drop_first()));
        assert(ticks_from(s, w, gs) == ticks_from(s, tick_step(s, w, gs[0]), gs.drop_first()));
    }
}

/// Loop bookkeeping: the whole-phase result `ph` is what has been
/// accumulated so far plus running the systems from position `j` on.
spec fn phase_partial(
    ph: PhaseRun,
    all: Seq<SystemDef>,
    j: int,
    p: InGameSet,
    queue_now: Seq<Mutation>,
    ev_done: Seq<TickEvent>,
    fl_done: Seq<Fault>,
) -> bool {
    let rem = run_phase(all.skip(j), p, queue_now);
    &&& ph.events == ev_done + rem.events
    &&& ph.queue == rem.queue
    &&& ph.faults == fl_done + rem.faults
    &&& ph.failed == rem.failed
}

/// Loop bookkeeping: the phase ended on an unrecoverable fault and the
/// accumulated pieces are already the whole-phase result.
spec fn phase_halted(
    ph: PhaseRun,
    queue_now: Seq<Mutation>,
    ev_done: Seq<TickEvent>,
    fl_done: Seq<Fault>,
    f: Fault,
) -> bool {
    &&& ph.events == ev_done
    &&& ph.queue == queue_now
    &&& ph.faults == fl_done
    &&& ph.failed == Some(f)
}

/// Loop bookkeeping: the whole-tick result `t` is what has been
/// accumulated so far plus ticking from phase `i` on.
spec fn tick_partial(
    t: TickRun,
    s: Scheduler,
    i: int,
    w: World,
    ev_done: Seq<TickEvent>,
    fl_done: Seq<Fault>,
    sk_done: Seq<Mutation>,
) -> bool {
    let rest = tick_from(s, i, w.live(), w.queue@);
    &&& t.events == ev_done + rest.events
    &&& t.faults == fl_done + rest.faults
    &&& t.skipped == sk_done + rest.skipped
    &&& t.live == rest.live
    &&& t.queue == rest.queue
    &&& t.failed == rest.failed
}

/// Loop bookkeeping: the tick stopped on an unrecoverable fault and the
/// accumulated pieces are already the whole-tick result.
spec fn tick_halted(
    t: TickRun,
    w: World,
    ev_done: Seq<TickEvent>,
    fl_done: Seq<Fault>,
    sk_done: Seq<Mutation>,
    f: Fault,
) -> bool {
    &&& t.events == ev_done
    &&& t.faults == fl_done
    &&& t.skipped == sk_done
    &&& t.live == w.live()
    &&& t.queue == w.queue@
    &&& t.failed == Some(f)
}

impl Scheduler {
    /// Whether a barrier is declared right after the phase at position
    /// `i` of the order.
    #[verifier::loop_isolation(false)]
    fn has_barrier_after(&self, i: usize) -> (b: bool)
        requires
            i < self.order@.len(),
        ensures
            b == self.barrier_after_at(i as int),
    {
        let p = self.order[i];
        let mut k: usize = 0;
        while k < self.barriers.len()
            invariant
                k <= self.barriers@.len(),
                forall|t: int| 0 <= t < k ==> (#[trigger] self.barriers@[t]).after != p,
            decreases self.barriers@.len() - k,
        {
            if self.barriers[k].after == p {
                assert(self.barriers@[k as int].after == self.order@[i as int]);
                return true;
            }
            k += 1;
        }
        false
    }

    /// Run one tick. With a false gate the tick is a no-op: no system
    /// runs, no barrier fires, the world (entities and queue alike) is
    /// untouched. With a true gate, the phases run strictly in the
    /// declared order and the report and the new world are exactly what
    /// [`tick_from`] prescribes: within each phase, systems run in
    /// registration order; at each declared barrier the whole queue is
    /// applied atomically before the next phase starts; an unrecoverable
    /// fault stops the tick and is exposed with its phase and system.
    #[verifier::loop_isolation(false)]
    #[verifier::rlimit(100)]
    pub fn run_tick(&self, gate: bool, world: &mut World) -> (r: TickReport)
        requires
            self.wf(),
            old(world).wf(),
        ensures
            final(world).wf(),
            !gate ==> r.ran == false && *final(world) == *old(world) && r.events@.len() == 0
                && r.faults@.len() == 0 && r.skipped@.len() == 0 && r.failed is None,
            gate ==> r.ran == true && tick_matches(*self, *old(world), *final(world), r),
    {
        if !gate {
            return TickReport {
                ran: false,
                events: Vec::new(),
                faults: Vec::new(),
                skipped: Vec::new(),
                failed: None,
            };
        }
        let mut events: Vec<TickEvent> = Vec::new();
        let mut faults: Vec<Fault> = Vec::new();
        let mut skipped: Vec<Mutation> = Vec::new();
        let mut failed: Option<Fault> = None;
        let ghost t0 = tick_from(*self, 0, old(world).live(), old(world).queue@);
        proof {
            assert(Seq::<TickEvent>::empty() + t0.events =~= t0.events);
            assert(Seq::<Fault>::empty() + t0.faults =~= t0.faults);
            assert(Seq::<Mutation>::empty() + t0.skipped =~= t0.skipped);
        }
        let mut i: usize = 0;
        while i < self.order.len() && failed.is_none()
            invariant
                i <= self.order@.len(),
                world.wf(),
                failed is None ==> tick_partial(
                    t0,
                    *self,
                    i as int,
                    *world,
                    events@,
                    faults@,
                    skipped@,
                ),
                failed matches Some(f) ==> tick_halted(t0, *world, events@, faults@, skipped@, f),
            decreases self.order@.len() - i,
        {
            let p = self.order[i];
            let ghost live_i = world.live();
            let ghost q_i = world.queue@;
            let ghost ph = run_phase(self.systems@, p, q_i);
            let mut ph_events: Vec<TickEvent> = Vec::new();
            let mut ph_faults: Vec<Fault> = Vec::new();
            proof {
                assert(self.systems@.skip(0) =~= self.systems@);
                assert(Seq::<TickEvent>::empty() + ph.events =~= ph.events);
                assert(Seq::<Fault>::empty() + ph.faults =~= ph.faults);
            }
            let mut j: usize = 0;
            while j < self.systems.len() && failed.is_none()
                invariant
                    j <= self.systems@.len(),
                    world.wf(),
                    world.live() == live_i,
                    failed is None ==> phase_partial(
                        ph,
                        self.systems@,
                        j as int,
                        p,
                        world.queue@,
                        ph_events@,
                        ph_faults@,
                    ),
                    failed matches Some(f) ==> phase_halted(
                        ph,
                        world.queue@,
                        ph_events@,
                        ph_faults@,
                        f,
                    ),
                decreases self.systems@.len() - j,
            {
                let ghost all = self.systems@;
                let ghost qnow = world.queue@;
                let ghost ev_done = ph_events@;
                let ghost fl_done = ph_faults@;
                let ghost rem_j = run_phase(all.skip(j as int), p, qnow);
                proof {
                    assert(all.skip(j as int)[0] == all[j as int]);
                    assert(all.skip(j as int).drop_first() =~= all.skip(j as int + 1));
                }
                let sdef = &self.systems[j];
                if sdef.phase == p {
                    let ev = TickEvent::SystemRan { id: sdef.id, phase: sdef.phase };
                    ph_events.push(ev);
                    match sdef.outcome {
                        SystemOutcome::Completes => {
                            world.enqueue_all(&sdef.actions);
                        },
                        SystemOutcome::RecoverableFault => {
                            ph_faults.push(Fault { id: sdef.id, phase: sdef.phase });
                        },
                        SystemOutcome::UnrecoverableFault => {
                            failed = Some(Fault { id: sdef.id, phase: sdef.phase });
                        },
                    }
                }
                proof {
                    let ev = TickEvent::SystemRan { id: all[j as int].id, phase: all[j as int].phase };
                    let fv = Fault { id: all[j as int].id, phase: all[j as int].phase };
                    if all[j as int].phase != p {
                        assert(rem_j == run_phase(all.skip(j as int + 1), p, qnow));
                        assert(phase_partial(ph, all, j as int + 1, p, world.queue@, ph_events@, ph_faults@));
                    } else {
                        match all[j as int].outcome {
                            SystemOutcome::Completes => {
                                let rem_n = run_phase(
                                    all.skip(j as int + 1),
                                    p,
                                    qnow + all[j as int].actions@,
                                );
                                assert(rem_j.events == seq![ev] + rem_n.events);
                                assert(ph_events@ == ev_done.push(ev));
                                assert(ev_done + (seq![ev] + rem_n.events) =~= ev_done.push(ev)
                                    + rem_n.events);
                                assert(world.queue@ == qnow + all[j as int].actions@);
                                assert(phase_partial(ph, all, j as int + 1, p, world.queue@, ph_events@, ph_faults@));
                            },
                            SystemOutcome::RecoverableFault => {
                                let rem_n = run_phase(all.skip(j as int + 1), p, qnow);
                                assert(rem_j.events == seq![ev] + rem_n.events);
                                assert(rem_j.faults == seq![fv] + rem_n.faults);
                                assert(ev_done + (seq![ev] + rem_n.events) =~= ev_done.push(ev)
                                    + rem_n.events);
                                assert(fl_done + (seq![fv] + rem_n.faults) =~= fl_done.push(fv)
                                    + rem_n.faults);
                                assert(phase_partial(ph, all, j as int + 1, p, world.queue@, ph_events@, ph_faults@));
                            },
                            SystemOutcome::UnrecoverableFault => {
                                assert(rem_j.events == seq![ev]);
                                assert(rem_j.queue == qnow);
                                assert(rem_j.failed == Some(fv));
                                assert(ev_done + seq![ev] =~= ev_done.push(ev));
                                assert(fl_done + Seq::<Fault>::empty() =~= fl_done);
                                assert(phase_halted(ph, world.queue@, ph_events@, ph_faults@, fv));
                            },
                        }
                    }
                }
                j += 1;
            }
            proof {
                if failed is None {
                    assert(self.systems@.skip(self.systems@.len() as int).len() == 0);
                    assert(ph_events@ + Seq::<TickEvent>::empty() =~= ph_events@);
                    assert(ph_faults@ + Seq::<Fault>::empty() =~= ph_faults@);
                    assert(ph.events == ph_events@);
                    assert(ph.queue == world.queue@);
                    assert(ph.faults == ph_faults@);
                    assert(ph.failed is None);
                }
            }
            let ghost ev_glob = events@;
            let ghost fl_glob = faults@;
            let ghost sk_glob = skipped@;
            events.append(&mut ph_events);
            faults.append(&mut ph_faults);
            let ghost rest_i = tick_from(*self, i as int, live_i, q_i);
            if failed.is_none() {
                if self.has_barrier_after(i) {
                    events.push(TickEvent::BarrierFired { after: p });
                    let mut sk = world.drain_and_apply();
                    skipped.append(&mut sk);
                    proof {
                        let rest_n = tick_from(
                            *self,
                            i as int + 1,
                            apply_from(live_i, ph.queue),
                            Seq::empty(),
                        );
                        assert(rest_i.events == ph.events + seq![
                            TickEvent::BarrierFired { after: p },
                        ] + rest_n.events);
                        assert(
                            ev_glob + (ph.events + seq![TickEvent::BarrierFired { after: p }]
                                + rest_n.events) =~= events@ + rest_n.events
                        );
                        assert(
                            fl_glob + (ph.faults + rest_n.faults) =~= faults@ + rest_n.faults
                        );
                        assert(
                            sk_glob + (skipped_from(live_i, ph.queue) + rest_n.skipped)
                                =~= skipped@ + rest_n.skipped
                        );
                        assert(world.queue@ =~= Seq::<Mutation>::empty());
                    }
                } else {
                    proof {
                        let rest_n = tick_from(*self, i as int + 1, live_i, ph.queue);
                        assert(rest_i.events == ph.events + rest_n.events);
                        assert(ev_glob + (ph.events + rest_n.events) =~= events@ + rest_n.events);
                        assert(fl_glob + (ph.faults + rest_n.faults) =~= faults@ + rest_n.faults);
                        assert(sk_glob + rest_n.skipped =~= skipped@ + rest_n.skipped);
                    }
                }
            } else {
                proof {
                    assert(rest_i.events == ph.events);
                    assert(ev_glob + ph.events =~= events@);
                    assert(fl_glob + ph.faults =~= faults@);
                    assert(sk_glob + Seq::<Mutation>::empty() =~= sk_glob);
                }
            }
            i += 1;
        }
        proof {
            if failed is None {
                assert(tick_from(*self, self.order@.len() as int, world.live(), world.queue@).events
                    =~= Seq::<TickEvent>::empty());
                assert(events@ + Seq::<TickEvent>::empty() =~= events@);
                assert(faults@ + Seq::<Fault>::empty() =~= faults@);
                assert(skipped@ + Seq::<Mutation>::empty() =~= skipped@);
            }
        }
        TickReport { ran: true, events, faults, skipped, failed }
    }

    /// Run one tick per entry of `gates`, in order, returning the
    /// reports. The world afterwards is the fold of the tick semantics
    /// over the gates, and each report is exactly what its tick's
    /// starting world prescribes.
    ///
    /// Law: skip is idempotent. A skipped tick is the identity on the
    /// world, so when every gate in the batch is false the world
    /// afterwards is exactly the world before: running ten gated-out
    /// ticks leaves the same state as running none.
    #[verifier::loop_isolation(false)]
    pub fn run_ticks(&self, gates: &Vec<bool>, world: &mut World) -> (reports: Vec<TickReport>)
        requires
            self.wf(),
            old(world).wf(),
        ensures
            final(world).wf(),
            reports@.len() == gates@.len(),
            world_run(*final(world)) == ticks_from(*self, world_run(*old(world)), gates@),
            forall|k: int|
                0 <= k < gates@.len() ==> report_matches(
                    *self,
                    ticks_from(*self, world_run(*old(world)), gates@.take(k)),
                    gates@[k],
                    #[trigger] reports@[k],
                ),
            (forall|k: int| 0 <= k < gates@.len() ==> !gates@[k]) ==> *final(world) == *old(
                world,
            ),
    {
        let mut reports: Vec<TickReport> = Vec::new();
        let ghost w0 = world_run(*old(world));
        proof {
            assert(gates@.take(0) =~= Seq::<bool>::empty());
        }
        let mut i: usize = 0;
        while i < gates.len()
            invariant
                i <= gates@.len(),
                world.wf(),
                reports@.len() == i,
                world_run(*world) == ticks_from(*self, w0, gates@.take(i as int)),
                forall|k: int|
                    0 <= k < i ==> report_matches(
                        *self,
                        ticks_from(*self, w0, gates@.take(k)),
                        gates@[k],
                        #[trigger] reports@[k],
                    ),
                (forall|k: int| 0 <= k < i ==> !gates@[k]) ==> *world == *old(world),
            decreases gates@.len() - i,
        {
            let ghost w_i = world_run(*world);
            let g = gates[i];
            let r = self.run_tick(g, world);
            reports.push(r);
            proof {
                assert(gates@.take(i as int + 1) =~= gates@.take(i as int).push(gates@[i as int]));
                lemma_ticks_snoc(*self, w0, gates@.take(i as int), gates@[i as int]);
                assert(world_run(*world) == tick_step(*self, w_i, gates@[i as int]));
            }
            i += 1;
        }
        proof {
            assert(gates@.take(gates@.len() as int) =~= gates@);
        }
        reports
    }
}

} // verus!
