//! Schedule-wide laws, proved once and for all over the tick semantics.

use vstd::prelude::*;

use crate::schedule::{distinct_phases, InGameSet, Scheduler, SystemDef};
use crate::schedule::SystemOutcome;
use crate::tick::{run_phase, tick_from, TickEvent};
use crate::world::{apply_from, apply_one, Mutation};

verus! {

/// The phase a trace event belongs to.
pub open spec fn event_phase(ev: TickEvent) -> InGameSet {
    match ev {
        TickEvent::SystemRan { id, phase } => phase,
        TickEvent::BarrierFired { after } => after,
    }
}

/// The position of phase `p` in `order`; meaningful when `order` lists
/// `p` exactly once.
pub open spec fn phase_pos(order: Seq<InGameSet>, p: InGameSet) -> int {
    choose|i: int| 0 <= i < order.len() && order[i] == p
}

/// The position, in the declared order of `s`, of the phase that `ev`
/// belongs to.
pub open spec fn pos_of(s: Scheduler, ev: TickEvent) -> int {
    phase_pos(s.order@, event_phase(ev))
}

/// Every event of `evs` belongs to a declared phase at position at
/// least `i`, and the positions never decrease along the trace: the
/// whole of an earlier phase comes before anything of a later phase.
pub open spec fn events_ordered_from(s: Scheduler, evs: Seq<TickEvent>, i: int) -> bool {
    &&& forall|a: int|
        0 <= a < evs.len() ==> i <= #[trigger] pos_of(s, evs[a]) && pos_of(s, evs[a])
            < s.order@.len() && s.order@[pos_of(s, evs[a])] == event_phase(evs[a])
    &&& forall|a: int, b: int|
        0 <= a <= b < evs.len() ==> #[trigger] pos_of(s, evs[a]) <= #[trigger] pos_of(s, evs[b])
}

/// In an order without duplicates, the position of the phase at index
/// `i` is `i` itself.
proof fn lemma_phase_pos(order: Seq<InGameSet>, p: InGameSet, i: int)
    requires
        distinct_phases(order),
        0 <= i < order.len(),
        order[i] == p,
    ensures
        phase_pos(order, p) == i,
{
    assert(exists|t: int| 0 <= t < order.len() && order[t] == p);
    let k = phase_pos(order, p);
    assert(0 <= k < order.len() && order[k] == p);
    if k < i {
        assert(order[k] != order[i]);
    }
    if k > i {
        assert(order[i] != order[k]);
    }
}

/// Every event that running one phase produces belongs to that phase.
proof fn lemma_run_phase_events(all: Seq<SystemDef>, p: InGameSet, queue: Seq<Mutation>)
    ensures
        forall|a: int|
            0 <= a < run_phase(all, p, queue).events.len() ==> event_phase(
                #[trigger] run_phase(all, p, queue).events[a],
            ) == p,
    decreases all.len(),
{
    let r = run_phase(all, p, queue);
    if all.len() == 0 {
    } else if all[0].phase != p {
        lemma_run_phase_events(all.drop_first(), p, queue);
    } else {
        let ev = TickEvent::SystemRan { id: all[0].id, phase: all[0].phase };
        match all[0].outcome {
            SystemOutcome::Completes => {
                lemma_run_phase_events(all.drop_first(), p, queue + all[0].actions@);
                let rest = run_phase(all.drop_first(), p, queue + all[0].actions@);
                assert forall|a: int| 0 <= a < r.events.len() implies event_phase(r.events[a])
                    == p by {
                    if a == 0 {
                        assert((seq![ev] + rest.events)[a] == ev);
                    } else {
                        assert((seq![ev] + rest.events)[a] == rest.events[a - 1]);
                    }
                }
            },
            SystemOutcome::RecoverableFault => {
                lemma_run_phase_events(all.drop_first(), p, queue);
                let rest = run_phase(all.drop_first(), p, queue);
                assert forall|a: int| 0 <= a < r.events.len() implies event_phase(r.events[a])
                    == p by {
                    if a == 0 {
                        assert((seq![ev] + rest.events)[a] == ev);
                    } else {
                        assert((seq![ev] + rest.events)[a] == rest.events[a - 1]);
                    }
                }
            },
            SystemOutcome::UnrecoverableFault => {
                assert(r.events[0] == ev);
            },
        }
    }
}

/// Gluing step: a block of events that all sit at position `i`,
/// followed by an ordered trace from position `i + 1`, is an ordered
/// trace from position `i`.
proof fn lemma_ordered_concat(s: Scheduler, xs: Seq<TickEvent>, ys: Seq<TickEvent>, i: int)
    requires
        0 <= i < s.order@.len(),
        forall|a: int| 0 <= a < xs.len() ==> #[trigger] pos_of(s, xs[a]) == i,
        forall|a: int| 0 <= a < xs.len() ==> s.order@[i] == event_phase(#[trigger] xs[a]),
        events_ordered_from(s, ys, i + 1),
    ensures
        events_ordered_from(s, xs + ys, i),
{
    let zs = xs + ys;
    assert forall|a: int|
        0 <= a < zs.len() implies i <= #[trigger] pos_of(s, zs[a]) && pos_of(s, zs[a])
            < s.order@.len() && s.order@[pos_of(s, zs[a])] == event_phase(zs[a]) by {
        if a < xs.len() {
            assert(zs[a] == xs[a]);
        } else {
            assert(zs[a] == ys[a - xs.len()]);
        }
    }
    assert forall|a: int, b: int| 0 <= a <= b < zs.len() implies #[trigger] pos_of(s, zs[a])
        <= #[trigger] pos_of(s, zs[b]) by {
        if a < xs.len() {
            assert(zs[a] == xs[a]);
        } else {
            assert(zs[a] == ys[a - xs.len()]);
        }
        if b < xs.len() {
            assert(zs[b] == xs[b]);
        } else {
            assert(zs[b] == ys[b - xs.len()]);
        }
    }
}

/// The trace of a tick from phase `i` onward is ordered: each event
/// belongs to a declared phase no earlier than `i`, and phase positions
/// never decrease along it.
proof fn lemma_tick_events_in_order(s: Scheduler, i: int, live: Set<u64>, queue: Seq<Mutation>)
    requires
        s.wf(),
        0 <= i,
    ensures
        events_ordered_from(s, tick_from(s, i, live, queue).events, i),
    decreases s.order@.len() - i,
{
    let t = tick_from(s, i, live, queue);
    if s.order@.len() <= i {
    } else {
        let p = s.order@[i];
        let ph = run_phase(s.systems@, p, queue);
        lemma_run_phase_events(s.systems@, p, queue);
        lemma_phase_pos(s.order@, p, i);
        if ph.failed is Some {
            lemma_ordered_concat(s, ph.events, Seq::empty(), i);
            assert(ph.events + Seq::<TickEvent>::empty() =~= ph.events);
        } else if s.barrier_after_at(i) {
            let bev = TickEvent::BarrierFired { after: p };
            let rest = tick_from(s, i + 1, apply_from(live, ph.queue), Seq::empty());
            lemma_tick_events_in_order(s, i + 1, apply_from(live, ph.queue), Seq::empty());
            let xs = ph.events + seq![bev];
            assert forall|a: int| 0 <= a < xs.len() implies #[trigger] pos_of(s, xs[a]) == i
                && s.order@[i] == event_phase(xs[a]) by {
                if a < ph.events.len() {
                    assert(xs[a] == ph.events[a]);
                } else {
                    assert(xs[a] == bev);
                }
            }
            lemma_ordered_concat(s, xs, rest.events, i);
            assert(t.events == xs + rest.events);
        } else {
            let rest = tick_from(s, i + 1, live, ph.queue);
            lemma_tick_events_in_order(s, i + 1, live, ph.queue);
            lemma_ordered_concat(s, ph.events, rest.events, i);
        }
    }
}

/// Law: with a true gate, phases run strictly sequentially. In the
/// trace of a tick over a well-formed schedule, every event belongs to
/// a declared phase, the phase positions never decrease along the
/// trace, and an event of an earlier phase always comes strictly before
/// any event of a later phase; in particular every system of an earlier
/// phase completes before any system of a later phase starts.
pub proof fn lemma_phase_order_respected(s: Scheduler, live: Set<u64>, queue: Seq<Mutation>)
    requires
        s.wf(),
    ensures
        events_ordered_from(s, tick_from(s, 0, live, queue).events, 0),
        forall|a: int, b: int|
            0 <= a < tick_from(s, 0, live, queue).events.len() && 0 <= b < tick_from(
                s,
                0,
                live,
                queue,
            ).events.len() && #[trigger] pos_of(s, tick_from(s, 0, live, queue).events[a])
                < #[trigger] pos_of(s, tick_from(s, 0, live, queue).events[b]) ==> a < b,
{
    lemma_tick_events_in_order(s, 0, live, queue);
    let evs = tick_from(s, 0, live, queue).events;
    assert forall|a: int, b: int|
        0 <= a < evs.len() && 0 <= b < evs.len() && #[trigger] pos_of(s, evs[a]) < #[trigger] pos_of(
            s,
            evs[b],
        ) implies a < b by {
        if b <= a {
            assert(pos_of(s, evs[b]) <= pos_of(s, evs[a]));
        }
    }
}

/// A nonempty sequence contains `x` exactly when its head is `x` or its
/// tail contains `x`.
proof fn lemma_head_tail_contains(q: Seq<Mutation>, x: Mutation)
    requires
        q.len() > 0,
    ensures
        q.contains(x) <==> (q[0] == x || q.drop_first().contains(x)),
{
    if q.contains(x) {
        let t = choose|t: int| 0 <= t < q.len() && q[t] == x;
        if t > 0 {
            assert(q.drop_first()[t - 1] == x);
        }
    }
    if q.drop_first().contains(x) {
        let t = choose|t: int| 0 <= t < q.drop_first().len() && q.drop_first()[t] == x;
        assert(q[t + 1] == x);
    }
}

/// Law: barrier atomicity for despawns. Applying a queue that holds
/// only despawn mutations removes exactly the despawned entities: after
/// the drain an entity is alive if and only if it was alive before and
/// no queued mutation despawned it. Nothing survives that was marked
/// for removal, and nothing else is touched.
pub proof fn lemma_despawns_all_applied(live: Set<u64>, q: Seq<Mutation>)
    requires
        forall|k: int| 0 <= k < q.len() ==> (#[trigger] q[k]) is Despawn,
    ensures
        forall|e: u64|
            #[trigger] apply_from(live, q).contains(e) <==> (live.contains(e) && !q.contains(
                Mutation::Despawn(e),
            )),
    decreases q.len(),
{
    if q.len() == 0 {
    } else {
        let live1 = apply_one(live, q[0]);
        let tail = q.drop_first();
        assert forall|k: int| 0 <= k < tail.len() implies (#[trigger] tail[k]) is Despawn by {
            assert(tail[k] == q[k + 1]);
        }
        lemma_despawns_all_applied(live1, tail);
        assert(q[0] is Despawn);
        assert forall|e: u64|
            #[trigger] apply_from(live, q).contains(e) <==> (live.contains(e) && !q.contains(
                Mutation::Despawn(e),
            )) by {
            lemma_head_tail_contains(q, Mutation::Despawn(e));
            assert(apply_from(live, q) == apply_from(live1, tail));
            assert(apply_from(live1, tail).contains(e) <==> (live1.contains(e) && !tail.contains(
                Mutation::Despawn(e),
            )));
            match q[0] {
                Mutation::Despawn(e0) => {
                    assert(live1 == live.remove(e0));
                    assert(live1.contains(e) <==> (live.contains(e) && e != e0));
                    assert((q[0] == Mutation::Despawn(e)) <==> e == e0);
                },
                Mutation::Spawn(_) => {
                    assert(false);
                },
            }
        }
    }
}

/// The mutations that the completing systems of phase `p` enqueue, in
/// registration order.
pub open spec fn enqueued_by(all: Seq<SystemDef>, p: InGameSet) -> Seq<Mutation>
    decreases all.len(),
{
    if all.len() == 0 {
        Seq::empty()
    } else if all[0].phase == p && all[0].outcome is Completes {
        all[0].actions@ + enqueued_by(all.drop_first(), p)
    } else {
        enqueued_by(all.drop_first(), p)
    }
}

/// Law: no enqueue is lost. When no system of phase `p` fails the tick,
/// running the phase leaves the queue holding exactly what it held
/// before followed by every mutation the phase's completing systems
/// enqueued, in order: if each of M systems enqueues one mutation, all
/// M are present at the next drain.
pub proof fn lemma_no_lost_enqueues(all: Seq<SystemDef>, p: InGameSet, queue: Seq<Mutation>)
    requires
        forall|k: int|
            0 <= k < all.len() && (#[trigger] all[k]).phase == p ==> !(all[k].outcome
                is UnrecoverableFault),
    ensures
        run_phase(all, p, queue).queue == queue + enqueued_by(all, p),
    decreases all.len(),
{
    if all.len() == 0 {
        assert(queue + Seq::<Mutation>::empty() =~= queue);
    } else {
        let tail = all.drop_first();
        assert forall|k: int|
            0 <= k < tail.len() && (#[trigger] tail[k]).phase == p implies !(tail[k].outcome
                is UnrecoverableFault) by {
            assert(tail[k] == all[k + 1]);
        }
        if all[0].phase == p && all[0].outcome is Completes {
            lemma_no_lost_enqueues(tail, p, queue + all[0].actions@);
            assert((queue + all[0].actions@) + enqueued_by(tail, p) =~= queue + (all[0].actions@
                + enqueued_by(tail, p)));
        } else {
            assert(all[0].phase == p ==> all[0].outcome is RecoverableFault);
            lemma_no_lost_enqueues(tail, p, queue);
        }
    }
}

} // verus!
