//! Bounded-parallelism proving dispatcher, as a state machine.
//!
//! The running dispatcher sits between a bounded input queue of tasks
//! and an output queue of results. It registers accepted tasks with a
//! worker pool of fixed size, forwards each completion in completion
//! order, and drains in-flight work when the input closes (forwarding
//! results) or when the output consumer goes away (discarding them).
//! The surrounding application owns the actual queues, pool and
//! channels; every decision the loop takes is a method here, verified
//! against the dispatcher's accounting invariant.

use vstd::prelude::*;
use vstd::multiset::Multiset;
use crate::types::ProofOutcome;

verus! {

/// Phase of the dispatcher's life.
///
/// Running moves to Draining when the input queue closes, and to
/// Discarding when the output consumer goes away; either ends in
/// Closed once nothing is in flight.
#[derive(Clone, Copy, Debug, PartialEq, Eq, Structural)]
pub enum DispatchMode {
    /// Accepting tasks and forwarding completions.
    Running,
    /// Input closed: no new tasks; completions still forwarded.
    Draining,
    /// Output gone: no new tasks; completions discarded.
    Discarding,
    /// Nothing in flight and no way to get more work.
    Closed,
}

/// The dispatcher's state: its pool bound, the identities (sequence
/// numbers) of tasks handed to workers and not yet completed, and the
/// accounting of everything that entered and left.
pub struct ProvingTaskDispatcher {
    pub pool_size: usize,
    pub inflight: Vec<u64>,
    pub mode: DispatchMode,
    pub accepted: u64,
    pub emitted: u64,
    pub discarded: u64,
    pub lost: u64,
    pub outputs: Vec<(u64, ProofOutcome)>,
}

impl ProvingTaskDispatcher {
    /// Dispatcher invariant: the pool bound is positive and respected,
    /// every accepted task is accounted for exactly once (forwarded,
    /// discarded, lost, or still in flight), the forwarded outputs are
    /// recorded one each, and a closed dispatcher has nothing in
    /// flight.
    pub open spec fn wf(&self) -> bool {
        &&& self.pool_size >= 1
        &&& self.inflight@.len() <= self.pool_size
        &&& self.accepted as int == self.emitted as int + self.discarded as int
            + self.lost as int + self.inflight@.len()
        &&& self.emitted as int == self.outputs@.len()
        &&& self.mode is Closed ==> self.inflight@.len() == 0
    }

    /// A fresh dispatcher over a pool of `pool_size` workers.
    pub fn new(pool_size: usize) -> (r: ProvingTaskDispatcher)
        requires
            pool_size >= 1,
        ensures
            r.wf(),
            r.pool_size == pool_size,
            r.mode is Running,
            r.inflight@ =~= Seq::<u64>::empty(),
            r.accepted == 0 && r.emitted == 0 && r.discarded == 0 && r.lost == 0,
            r.outputs@ =~= Seq::<(u64, ProofOutcome)>::empty(),
    {
        ProvingTaskDispatcher {
            pool_size,
            inflight: Vec::new(),
            mode: DispatchMode::Running,
            accepted: 0,
            emitted: 0,
            discarded: 0,
            lost: 0,
            outputs: Vec::new(),
        }
    }

    /// The admission gate: whether a worker slot is free. The loop
    /// must not take a task from the input queue unless this holds;
    /// that refusal is the sole backpressure on the queue.
    pub fn can_accept(&self) -> (r: bool)
        ensures
            r == (self.inflight@.len() < self.pool_size && self.mode is Running),
    {
        self.inflight.len() < self.pool_size && matches!(self.mode, DispatchMode::Running)
    }

    /// Registers a task with the pool under its sequence number.
    pub fn accept(&mut self, seq: u64)
        requires
            old(self).wf(),
            old(self).mode is Running,
            old(self).inflight@.len() < old(self).pool_size,
            old(self).accepted < u64::MAX,
        ensures
            final(self).wf(),
            final(self).inflight@ == old(self).inflight@.push(seq),
            final(self).accepted == old(self).accepted + 1,
            final(self).mode == old(self).mode,
            final(self).emitted == old(self).emitted,
            final(self).discarded == old(self).discarded,
            final(self).lost == old(self).lost,
            final(self).outputs@ == old(self).outputs@,
            final(self).pool_size == old(self).pool_size,
    {
        self.inflight.push(seq);
        self.accepted = self.accepted + 1;
    }

    /// Removes the first in-flight occurrence of `seq`, if any.
    fn remove_inflight(&mut self, seq: u64) -> (r: bool)
        ensures
            final(self).pool_size == old(self).pool_size,
            final(self).mode == old(self).mode,
            final(self).accepted == old(self).accepted,
            final(self).emitted == old(self).emitted,
            final(self).discarded == old(self).discarded,
            final(self).lost == old(self).lost,
            final(self).outputs@ == old(self).outputs@,
            r == old(self).inflight@.contains(seq),
            r ==> exists|i: int|
                0 <= i < old(self).inflight@.len() && old(self).inflight@[i] == seq
                    && final(self).inflight@ == old(self).inflight@.remove(i),
            !r ==> final(self).inflight@ == old(self).inflight@,
    {
        let mut i: usize = 0;
        while i < self.inflight.len()
            invariant
                0 <= i <= self.inflight@.len(),
                *self == *old(self),
                forall|j: int| 0 <= j < i ==> self.inflight@[j] != seq,
            decreases self.inflight@.len() - i,
        {
            if self.inflight[i] == seq {
                self.inflight.remove(i);
                return true;
            }
            i = i + 1;
        }
        proof {
            assert(!old(self).inflight@.contains(seq));
        }
        false
    }

    /// Moves to Closed when nothing is in flight and no more work can
    /// come.
    fn settle(&mut self)
        ensures
            final(self).pool_size == old(self).pool_size,
            final(self).inflight@ == old(self).inflight@,
            final(self).accepted == old(self).accepted,
            final(self).emitted == old(self).emitted,
            final(self).discarded == old(self).discarded,
            final(self).lost == old(self).lost,
            final(self).outputs@ == old(self).outputs@,
            final(self).mode == (if (old(self).mode is Draining || old(self).mode is Discarding)
                && old(self).inflight@.len() == 0 {
                DispatchMode::Closed
            } else {
                old(self).mode
            }),
    {
        if self.inflight.len() == 0 && (matches!(self.mode, DispatchMode::Draining) || matches!(
            self.mode,
            DispatchMode::Discarding,
        )) {
            self.mode = DispatchMode::Closed;
        }
    }

    /// Takes one worker completion. A completion of an in-flight task
    /// frees its slot and is forwarded to the output record in
    /// completion order — or discarded once the output consumer is
    /// gone. A completion for an unknown sequence number changes
    /// nothing and returns false. When the last in-flight task of a
    /// draining or discarding dispatcher completes, it closes.
    pub fn complete(&mut self, seq: u64, outcome: ProofOutcome) -> (r: bool)
        requires
            old(self).wf(),
        ensures
            final(self).wf(),
            final(self).pool_size == old(self).pool_size,
            final(self).accepted == old(self).accepted,
            final(self).lost == old(self).lost,
            r == old(self).inflight@.contains(seq),
            !r ==> final(self).inflight@ == old(self).inflight@ && final(self).emitted == old(
                self,
            ).emitted && final(self).discarded == old(self).discarded && final(self).outputs@
                == old(self).outputs@,
            r ==> exists|i: int|
                0 <= i < old(self).inflight@.len() && old(self).inflight@[i] == seq
                    && final(self).inflight@ == old(self).inflight@.remove(i),
            r && !(old(self).mode is Discarding) ==> final(self).outputs@ == old(
                self,
            ).outputs@.push((seq, outcome)) && final(self).emitted == old(self).emitted + 1
                && final(self).discarded == old(self).discarded,
            r && old(self).mode is Discarding ==> final(self).outputs@ == old(self).outputs@
                && final(self).emitted == old(self).emitted && final(self).discarded == old(
                self,
            ).discarded + 1,
            final(self).mode == (if ((old(self).mode is Draining || old(
                self,
            ).mode is Discarding)) && r && old(self).inflight@.len() == 1 {
                DispatchMode::Closed
            } else {
                old(self).mode
            }),
    {
        let found = self.remove_inflight(seq);
        if !found {
            return false;
        }
        proof {
            assert(old(self).inflight@.len() >= 1);
        }
        if matches!(self.mode, DispatchMode::Discarding) {
            self.discarded = self.discarded + 1;
        } else {
            self.outputs.push((seq, outcome));
            self.emitted = self.emitted + 1;
        }
        self.settle();
        true
    }

    /// Records a worker that will never deliver its result (it
    /// panicked, or its completion channel was dropped): the slot is
    /// freed, nothing is forwarded, and the dispatcher carries on.
    pub fn worker_lost(&mut self, seq: u64) -> (r: bool)
        requires
            old(self).wf(),
        ensures
            final(self).wf(),
            final(self).pool_size == old(self).pool_size,
            final(self).accepted == old(self).accepted,
            final(self).emitted == old(self).emitted,
            final(self).discarded == old(self).discarded,
            final(self).outputs@ == old(self).outputs@,
            r == old(self).inflight@.contains(seq),
            !r ==> final(self).inflight@ == old(self).inflight@ && final(self).lost == old(
                self,
            ).lost,
            r ==> final(self).lost == old(self).lost + 1 && exists|i: int|
                0 <= i < old(self).inflight@.len() && old(self).inflight@[i] == seq
                    && final(self).inflight@ == old(self).inflight@.remove(i),
            final(self).mode == (if ((old(self).mode is Draining || old(
                self,
            ).mode is Discarding)) && r && old(self).inflight@.len() == 1 {
                DispatchMode::Closed
            } else {
                old(self).mode
            }),
    {
        let found = self.remove_inflight(seq);
        if !found {
            return false;
        }
        self.lost = self.lost + 1;
        self.settle();
        true
    }

    /// The input queue closed: stop accepting. With nothing in flight
    /// the dispatcher closes at once, otherwise it drains.
    pub fn close_input(&mut self)
        requires
            old(self).wf(),
            old(self).mode is Running,
        ensures
            final(self).wf(),
            final(self).pool_size == old(self).pool_size,
            final(self).inflight@ == old(self).inflight@,
            final(self).accepted == old(self).accepted,
            final(self).emitted == old(self).emitted,
            final(self).discarded == old(self).discarded,
            final(self).lost == old(self).lost,
            final(self).outputs@ == old(self).outputs@,
            final(self).mode == (if old(self).inflight@.len() == 0 {
                DispatchMode::Closed
            } else {
                DispatchMode::Draining
            }),
    {
        self.mode = DispatchMode::Draining;
        self.settle();
    }

    /// The output consumer went away: any send would fail, so stop
    /// accepting and discard what remains. With nothing in flight the
    /// dispatcher closes at once.
    pub fn output_closed(&mut self)
        requires
            old(self).wf(),
            old(self).mode is Running || old(self).mode is Draining,
        ensures
            final(self).wf(),
            final(self).pool_size == old(self).pool_size,
            final(self).inflight@ == old(self).inflight@,
            final(self).accepted == old(self).accepted,
            final(self).emitted == old(self).emitted,
            final(self).discarded == old(self).discarded,
            final(self).lost == old(self).lost,
            final(self).outputs@ == old(self).outputs@,
            final(self).mode == (if old(self).inflight@.len() == 0 {
                DispatchMode::Closed
            } else {
                DispatchMode::Discarding
            }),
    {
        self.mode = DispatchMode::Discarding;
        self.settle();
    }

    /// Drain on input close: when a closed dispatcher discarded and
    /// lost nothing, it forwarded exactly one output per accepted
    /// task.
    pub proof fn lemma_drain_outputs(&self)
        requires
            self.wf(),
            self.mode is Closed,
            self.discarded == 0,
            self.lost == 0,
        ensures
            self.emitted == self.accepted,
            self.outputs@.len() == self.accepted,
    {
    }

    /// Drains the dispatcher to Closed: feeds it the completions of
    /// everything in flight, in any order, and forwards each. The
    /// outputs grow by exactly the given completions, in the given
    /// order.
    pub fn drain(&mut self, completions: Vec<(u64, ProofOutcome)>)
        requires
            old(self).wf(),
            old(self).mode is Draining || old(self).mode is Discarding,
            completions@.map_values(|p: (u64, ProofOutcome)| p.0).to_multiset() == old(
                self,
            ).inflight@.to_multiset(),
        ensures
            final(self).wf(),
            final(self).mode is Closed,
            final(self).accepted == old(self).accepted,
            final(self).lost == old(self).lost,
            old(self).mode is Draining ==> final(self).emitted == old(self).emitted + old(
                self,
            ).inflight@.len() && final(self).outputs@ == old(self).outputs@ + completions@,
            old(self).mode is Discarding ==> final(self).outputs@ == old(self).outputs@
                && final(self).emitted == old(self).emitted,
    {
        let ghost mode0 = self.mode;
        let ghost orig = completions@;
        let ghost keys = orig.map_values(|p: (u64, ProofOutcome)| p.0);
        let mut remaining = completions;
        let mut done: usize = 0;
        let total = remaining.len();
        proof {
            assert(orig.len() == total);
            assert(remaining@.map_values(|p: (u64, ProofOutcome)| p.0) =~= keys.skip(0));
        }
        while remaining.len() > 0
            invariant
                done + remaining@.len() == orig.len(),
                orig.len() <= usize::MAX,
                remaining@ =~= orig.skip(done as int),
                keys == orig.map_values(|p: (u64, ProofOutcome)| p.0),
                self.wf(),
                self.pool_size == old(self).pool_size,
                self.accepted == old(self).accepted,
                self.lost == old(self).lost,
                keys.skip(done as int).to_multiset() == self.inflight@.to_multiset(),
                self.inflight@.len() > 0 ==> self.mode == mode0,
                self.mode == mode0 || (self.mode is Closed && self.inflight@.len() == 0),
                mode0 is Draining ==> self.emitted == old(self).emitted + done && self.outputs@
                    =~= old(self).outputs@ + orig.subrange(0, done as int),
                mode0 is Discarding ==> self.outputs@ == old(self).outputs@ && self.emitted
                    == old(self).emitted,
            decreases remaining@.len(),
        {
            let (seq, outcome) = remaining.remove(0);
            let ghost before = *self;
            proof {
                let rem = keys.skip(done as int);
                assert(rem[0] == keys[done as int]);
                assert(keys[done as int] == orig[done as int].0);
                assert(rem[0] == seq) by {
                    assert(orig.skip(done as int)[0] == orig[done as int]);
                }
                assert(rem.to_multiset().contains(seq)) by {
                    rem.to_multiset_ensures();
                    assert(rem.contains(seq));
                }
                assert(self.inflight@.to_multiset().contains(seq));
                assert(self.inflight@.contains(seq)) by {
                    self.inflight@.to_multiset_ensures();
                }
                assert(self.inflight@.len() > 0);
                assert(self.mode == mode0);
            }
            let ok = self.complete(seq, outcome);
            proof {
                assert(ok);
                let j = choose|j: int|
                    #![auto]
                    0 <= j < before.inflight@.len() && before.inflight@[j] == seq
                        && self.inflight@ == before.inflight@.remove(j);
                let rem = keys.skip(done as int);
                assert(rem.skip(1) =~= keys.skip(done + 1));
                assert(rem.to_multiset() =~= keys.skip(done + 1).to_multiset().insert(seq)) by {
                    lemma_multiset_head(rem);
                }
                hole_inflight_multiset(before.inflight@, j, seq);
                assert(self.inflight@.to_multiset() =~= keys.skip(done + 1).to_multiset());
                assert(remaining@ =~= orig.skip(done + 1));
                if mode0 is Draining {
                    assert(orig.subrange(0, done + 1) =~= orig.subrange(0, done as int) + seq![
                        orig[done as int],
                    ]);
                    assert((seq, outcome) == orig[done as int]);
                }
            }
            done = done + 1;
        }
        self.settle();
        proof {
            assert(keys.skip(done as int) =~= Seq::<u64>::empty());
            Seq::<u64>::empty().to_multiset_ensures();
            assert(self.inflight@.to_multiset().len() == 0) by {
                assert(Seq::<u64>::empty().to_multiset() =~= Multiset::<u64>::empty());
            }
            assert(self.inflight@.len() == 0) by {
                self.inflight@.to_multiset_ensures();
            }
            if mode0 is Draining {
                assert(orig.subrange(0, orig.len() as int) =~= orig);
                assert(keys.to_multiset().len() == keys.len()) by {
                    keys.to_multiset_ensures();
                }
                assert(old(self).inflight@.to_multiset().len() == old(self).inflight@.len()) by {
                    old(self).inflight@.to_multiset_ensures();
                }
                assert(orig.len() == old(self).inflight@.len());
            }
        }
    }
}

/// The bounded input queue of the dispatcher, by task identity. A send
/// on a full queue does not go through: that refusal, together with
/// the dispatcher's admission gate, is all the backpressure there is.
pub struct TaskQueue {
    pub items: Vec<u64>,
    pub depth: usize,
}

impl TaskQueue {
    /// Queue invariant: never more items than its depth.
    pub open spec fn wf(&self) -> bool {
        self.items@.len() <= self.depth
    }

    /// An empty queue of the given depth.
    pub fn new(depth: usize) -> (r: TaskQueue)
        ensures
            r.wf(),
            r.depth == depth,
            r.items@ =~= Seq::<u64>::empty(),
    {
        TaskQueue { items: Vec::new(), depth }
    }

    /// Offers a task to the queue: accepted only while a slot is free.
    pub fn try_send(&mut self, seq: u64) -> (r: bool)
        requires
            old(self).wf(),
        ensures
            final(self).wf(),
            final(self).depth == old(self).depth,
            r == (old(self).items@.len() < old(self).depth),
            r ==> final(self).items@ == old(self).items@.push(seq),
            !r ==> final(self).items@ == old(self).items@,
    {
        if self.items.len() < self.depth {
            self.items.push(seq);
            true
        } else {
            false
        }
    }

    /// Takes the oldest task off the queue, if any.
    pub fn recv(&mut self) -> (r: Option<u64>)
        requires
            old(self).wf(),
        ensures
            final(self).wf(),
            final(self).depth == old(self).depth,
            old(self).items@.len() > 0 ==> (r matches Some(seq) && seq == old(self).items@[0]
                && final(self).items@ == old(self).items@.skip(1)),
            old(self).items@.len() == 0 ==> r is None && final(self).items@ == old(self).items@,
    {
        if self.items.len() > 0 {
            let seq = self.items.remove(0);
            proof {
                assert(self.items@ =~= old(self).items@.skip(1));
            }
            Some(seq)
        } else {
            None
        }
    }
}

/// The dispatcher with its input queue and the one task the loop may
/// hold between receiving it and registering it with the pool.
pub struct ProvingSystem {
    pub queue: TaskQueue,
    pub dispatcher: ProvingTaskDispatcher,
    pub held: Option<u64>,
}

impl ProvingSystem {
    pub open spec fn wf(&self) -> bool {
        self.queue.wf() && self.dispatcher.wf()
    }

    /// Every task somewhere between submission and completion: queued,
    /// held by the loop, or registered with the pool.
    pub open spec fn tasks_in_flight(&self) -> int {
        self.queue.items@.len() + (if self.held is Some {
            1int
        } else {
            0int
        }) + self.dispatcher.inflight@.len()
    }

    /// The backpressure bound: with pool size P and queue depth Q,
    /// never more than P + Q + 1 tasks are simultaneously in flight.
    pub proof fn lemma_backpressure_bound(&self)
        requires
            self.wf(),
        ensures
            self.tasks_in_flight() <= self.dispatcher.pool_size + self.queue.depth + 1,
    {
    }

    /// The loop takes the next task off the queue, to hold until the
    /// pool admits it. Honouring the admission gate first is what
    /// keeps the in-flight bound: the loop must not hold a task it
    /// cannot place.
    pub fn take_task(&mut self) -> (r: bool)
        requires
            old(self).wf(),
            old(self).held is None,
            old(self).dispatcher.mode is Running,
            old(self).dispatcher.inflight@.len() < old(self).dispatcher.pool_size,
        ensures
            final(self).wf(),
            final(self).dispatcher == old(self).dispatcher,
            final(self).queue.depth == old(self).queue.depth,
            r == (old(self).queue.items@.len() > 0),
            r ==> final(self).held == Some(old(self).queue.items@[0]) && final(self).queue.items@
                == old(self).queue.items@.skip(1),
            !r ==> final(self).held is None && final(self).queue.items@ == old(
                self,
            ).queue.items@,
            final(self).tasks_in_flight() == old(self).tasks_in_flight(),
    {
        match self.queue.recv() {
            Some(seq) => {
                self.held = Some(seq);
                true
            },
            None => false,
        }
    }

    /// The loop registers the held task with the pool.
    pub fn submit_held(&mut self)
        requires
            old(self).wf(),
            old(self).held is Some,
            old(self).dispatcher.mode is Running,
            old(self).dispatcher.inflight@.len() < old(self).dispatcher.pool_size,
            old(self).dispatcher.accepted < u64::MAX,
        ensures
            final(self).wf(),
            final(self).held is None,
            final(self).queue == old(self).queue,
            final(self).dispatcher.inflight@ == old(self).dispatcher.inflight@.push(
                old(self).held->0,
            ),
            final(self).dispatcher.accepted == old(self).dispatcher.accepted + 1,
            final(self).tasks_in_flight() == old(self).tasks_in_flight(),
    {
        let seq = match self.held {
            Some(seq) => seq,
            None => {
                proof {
                    assert(false);
                }
                0
            },
        };
        self.held = None;
        self.dispatcher.accept(seq);
    }
}

/// Removing an element of a sequence removes one copy of it from the
/// sequence's multiset.
proof fn hole_inflight_multiset(s: Seq<u64>, j: int, v: u64)
    requires
        0 <= j < s.len(),
        s[j] == v,
    ensures
        s.remove(j).to_multiset() =~= s.to_multiset().remove(v),
{
    s.to_multiset_ensures();
}

/// The multiset of a nonempty sequence is its tail's multiset plus its
/// head.
proof fn lemma_multiset_head(s: Seq<u64>)
    requires
        s.len() > 0,
    ensures
        s.to_multiset() =~= s.skip(1).to_multiset().insert(s[0]),
{
    s.to_multiset_ensures();
    assert(s.remove(0) =~= s.skip(1));
    assert(s.remove(0).to_multiset() =~= s.to_multiset().remove(s[0]));
    assert(s.to_multiset().contains(s[0])) by {
        assert(s.contains(s[0]));
    }
    assert(s.skip(1).to_multiset().insert(s[0]) =~= s.to_multiset().remove(s[0]).insert(s[0]));
}

} // verus!
