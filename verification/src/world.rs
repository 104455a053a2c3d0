//! The world as the scheduler sees it: live entity identifiers and the
//! queue of deferred structural mutations.

use vstd::prelude::*;

verus! {

/// A deferred structural change to the world. Entities are created or
/// removed only when the queue is drained at a barrier, never while a
/// phase is still running.
#[derive(Clone, Copy, PartialEq, Eq, Structural, Debug)]
pub enum Mutation {
    /// Create the entity with this identifier.
    Spawn(u64),
    /// Remove the entity with this identifier.
    Despawn(u64),
}

/// Whether applying `m` to the live set `live` would change anything.
/// A spawn of an entity that already exists, or a despawn of one that is
/// already gone, is inapplicable: a drain skips it and reports it.
pub open spec fn applicable(live: Set<u64>, m: Mutation) -> bool {
    match m {
        Mutation::Spawn(e) => !live.contains(e),
        Mutation::Despawn(e) => live.contains(e),
    }
}

/// The live set after one mutation. An inapplicable mutation leaves the
/// set unchanged.
pub open spec fn apply_one(live: Set<u64>, m: Mutation) -> Set<u64> {
    match m {
        Mutation::Spawn(e) => live.insert(e),
        Mutation::Despawn(e) => live.remove(e),
    }
}

/// The live set after applying a whole queue of mutations, oldest first.
pub open spec fn apply_from(live: Set<u64>, q: Seq<Mutation>) -> Set<u64>
    decreases q.len(),
{
    if q.len() == 0 {
        live
    } else {
        apply_from(apply_one(live, q[0]), q.drop_first())
    }
}

/// The subsequence of `q` that a drain starting from `live` skips (and
/// reports) because each mutation was inapplicable when its turn came.
pub open spec fn skipped_from(live: Set<u64>, q: Seq<Mutation>) -> Seq<Mutation>
    decreases q.len(),
{
    if q.len() == 0 {
        Seq::empty()
    } else if applicable(live, q[0]) {
        skipped_from(apply_one(live, q[0]), q.drop_first())
    } else {
        seq![q[0]] + skipped_from(apply_one(live, q[0]), q.drop_first())
    }
}

/// The explicit context handed to each tick: the identifiers of the live
/// entities, and the mutations that systems have deferred since the last
/// barrier.
#[derive(Debug)]
pub struct World {
    /// Identifiers of the entities currently alive; no identifier twice.
    pub entities: Vec<u64>,
    /// Structural mutations waiting for the next barrier, oldest first.
    pub queue: Vec<Mutation>,
}

impl World {
    /// No entity identifier is stored twice.
    pub open spec fn wf(self) -> bool {
        forall|i: int, j: int|
            0 <= i < j < self.entities@.len() ==> self.entities@[i] != self.entities@[j]
    }

    /// The set of live entity identifiers.
    pub open spec fn live(self) -> Set<u64> {
        Set::new(|e: u64| self.entities@.contains(e))
    }

    /// An empty world: no entities, nothing queued.
    pub fn new() -> (w: World)
        ensures
            w.wf(),
            w.entities@.len() == 0,
            w.queue@.len() == 0,
    {
        World { entities: Vec::new(), queue: Vec::new() }
    }

    /// Whether entity `e` is currently alive.
    #[verifier::loop_isolation(false)]
    pub fn contains_entity(&self, e: u64) -> (b: bool)
        ensures
            b == self.live().contains(e),
    {
        let mut i: usize = 0;
        while i < self.entities.len()
            invariant
                i <= self.entities@.len(),
                forall|k: int| 0 <= k < i ==> self.entities@[k] != e,
            decreases self.entities@.len() - i,
        {
            if self.entities[i] == e {
                assert(self.entities@[i as int] == e);
                return true;
            }
            i += 1;
        }
        false
    }

    /// Defer one structural mutation. Systems call this during a phase;
    /// the change is applied only at the next barrier.
    pub fn enqueue(&mut self, m: Mutation)
        ensures
            final(self).entities@ == old(self).entities@,
            final(self).queue@ == old(self).queue@.push(m),
    {
        self.queue.push(m);
    }

    /// Defer a batch of mutations, in order.
    #[verifier::loop_isolation(false)]
    pub fn enqueue_all(&mut self, ms: &Vec<Mutation>)
        ensures
            final(self).entities@ == old(self).entities@,
            final(self).queue@ == old(self).queue@ + ms@,
    {
        let ghost ent0 = self.entities@;
        let ghost q0 = self.queue@;
        proof {
            assert(q0 + ms@.take(0) =~= q0);
        }
        let mut i: usize = 0;
        while i < ms.len()
            invariant
                i <= ms@.len(),
                self.entities@ == ent0,
                self.queue@ == q0 + ms@.take(i as int),
            decreases ms@.len() - i,
        {
            self.queue.push(ms[i]);
            proof {
                assert(ms@.take(i as int + 1) =~= ms@.take(i as int).push(ms@[i as int]));
                assert((q0 + ms@.take(i as int)).push(ms@[i as int]) =~= q0 + ms@.take(
                    i as int,
                ).push(ms@[i as int]));
            }
            i += 1;
        }
        proof {
            assert(ms@.take(ms@.len() as int) =~= ms@);
        }
    }

    /// Add a fresh entity to the live set.
    #[verifier::loop_isolation(false)]
    fn insert_entity(&mut self, e: u64)
        requires
            old(self).wf(),
            !old(self).entities@.contains(e),
        ensures
            final(self).wf(),
            final(self).queue@ == old(self).queue@,
            final(self).live() == old(self).live().insert(e),
    {
        self.entities.push(e);
        proof {
            let s0 = old(self).entities@;
            let s1 = self.entities@;
            assert forall|x: u64| s1.contains(x) <==> (s0.contains(x) || x == e) by {
                if s1.contains(x) {
                    let j = choose|j: int| 0 <= j < s1.len() && s1[j] == x;
                    if j < s0.len() {
                        assert(s0[j] == x);
                    } else {
                        assert(x == e);
                    }
                }
                if s0.contains(x) {
                    let j = choose|j: int| 0 <= j < s0.len() && s0[j] == x;
                    assert(s1[j] == x);
                }
                if x == e {
                    assert(s1[s0.len() as int] == x);
                }
            }
            assert(self.live() =~= old(self).live().insert(e));
            assert forall|i: int, j: int| 0 <= i < j < s1.len() implies s1[i] != s1[j] by {
                if j == s0.len() {
                    assert(s1[j] == e);
                    if s0[i] == e {
                        assert(s0.contains(e));
                    }
                }
            }
        }
    }

    /// Remove a live entity from the live set.
    #[verifier::loop_isolation(false)]
    fn remove_entity(&mut self, e: u64)
        requires
            old(self).wf(),
            old(self).entities@.contains(e),
        ensures
            final(self).wf(),
            final(self).queue@ == old(self).queue@,
            final(self).live() == old(self).live().remove(e),
    {
        let mut i: usize = 0;
        while i < self.entities.len()
            invariant
                i <= self.entities@.len(),
                forall|k: int| 0 <= k < i ==> self.entities@[k] != e,
                self.entities@ == old(self).entities@,
                self.queue@ == old(self).queue@,
            decreases self.entities@.len() - i,
        {
            if self.entities[i] == e {
                let ghost idx = i as int;
                let ghost s0 = self.entities@;
                self.entities.remove(i);
                proof {
                    let s1 = self.entities@;
                    s0.remove_ensures(idx);
                    assert(s1 == s0.remove(idx));
                    assert(s1.len() == s0.len() - 1);
                    assert forall|t: int| 0 <= t < idx implies #[trigger] s1[t] == s0[t] by {
                        assert(s0.remove(idx)[t] == s0[t]);
                    }
                    assert forall|t: int| idx <= t < s1.len() implies #[trigger] s1[t] == s0[t + 1] by {
                        assert(s0.remove(idx)[t] == s0[t + 1]);
                    }
                    assert forall|x: u64| s1.contains(x) <==> (s0.contains(x) && x != e) by {
                        if s1.contains(x) {
                            let j = choose|j: int| 0 <= j < s1.len() && s1[j] == x;
                            if j < idx {
                                assert(s0[j] == x);
                                if x == e {
                                    assert(s0[j] != s0[idx]);
                                }
                            } else {
                                assert(s0[j + 1] == x);
                                if x == e {
                                    assert(s0[idx] != s0[j + 1]);
                                }
                            }
                        }
                        if s0.contains(x) && x != e {
                            let j = choose|j: int| 0 <= j < s0.len() && s0[j] == x;
                            assert(j != idx);
                            if j < idx {
                                assert(s1[j] == x);
                            } else {
                                assert(s1[j - 1] == x);
                            }
                        }
                    }
                    assert(self.live() =~= old(self).live().remove(e));
                    assert forall|a: int, b: int| 0 <= a < b < s1.len() implies s1[a] != s1[b] by {
                        if a < idx {
                            assert(s1[a] == s0[a]);
                        } else {
                            assert(s1[a] == s0[a + 1]);
                        }
                        if b < idx {
                            assert(s1[b] == s0[b]);
                        } else {
                            assert(s1[b] == s0[b + 1]);
                        }
                    }
                }
                return;
            }
            i += 1;
        }
        proof {
            assert(false);
        }
    }

    /// Drain the whole queue, applying each mutation in order, and return
    /// the mutations that could not be applied. The drain is total: on
    /// return the queue is empty and every applicable mutation has taken
    /// effect; nothing is dropped silently.
    #[verifier::loop_isolation(false)]
    pub fn drain_and_apply(&mut self) -> (skipped: Vec<Mutation>)
        requires
            old(self).wf(),
        ensures
            final(self).wf(),
            final(self).queue@.len() == 0,
            final(self).live() == apply_from(old(self).live(), old(self).queue@),
            skipped@ == skipped_from(old(self).live(), old(self).queue@),
    {
        let mut skipped: Vec<Mutation> = Vec::new();
        let ghost live0 = old(self).live();
        let ghost q0 = old(self).queue@;
        proof {
            assert(q0.skip(0) =~= q0);
            assert(skipped@ + skipped_from(live0, q0) =~= skipped_from(live0, q0));
        }
        let mut k: usize = 0;
        while k < self.queue.len()
            invariant
                k <= self.queue@.len(),
                self.queue@ == q0,
                self.wf(),
                apply_from(live0, q0) == apply_from(self.live(), q0.skip(k as int)),
                skipped_from(live0, q0) == skipped@ + skipped_from(self.live(), q0.skip(k as int)),
            decreases self.queue@.len() - k,
        {
            let m = self.queue[k];
            let ghost live_k = self.live();
            let ghost sk_k = skipped@;
            proof {
                assert(q0.skip(k as int)[0] == q0[k as int]);
                assert(q0.skip(k as int).drop_first() =~= q0.skip(k as int + 1));
            }
            match m {
                Mutation::Spawn(e) => {
                    if self.contains_entity(e) {
                        skipped.push(m);
                        proof {
                            assert(live_k.insert(e) =~= live_k);
                        }
                    } else {
                        self.insert_entity(e);
                    }
                },
                Mutation::Despawn(e) => {
                    if self.contains_entity(e) {
                        self.remove_entity(e);
                    } else {
                        skipped.push(m);
                        proof {
                            assert(live_k.remove(e) =~= live_k);
                        }
                    }
                },
            }
            proof {
                assert(self.live() == apply_one(live_k, q0[k as int]));
                if !applicable(live_k, q0[k as int]) {
                    assert(sk_k + (seq![q0[k as int]] + skipped_from(
                        self.live(),
                        q0.skip(k as int + 1),
                    )) =~= skipped@ + skipped_from(self.live(), q0.skip(k as int + 1)));
                }
            }
            k += 1;
        }
        self.queue.clear();
        proof {
            assert(q0.skip(q0.len() as int) =~= Seq::<Mutation>::empty());
            assert(skipped@ + Seq::<Mutation>::empty() =~= skipped@);
        }
        skipped
    }
}

} // verus!
