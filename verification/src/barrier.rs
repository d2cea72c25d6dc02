//! Barrier: an event that fires only after all tracked events terminated.
//! A waiter armed on each input cell decrements the shared remaining count;
//! whichever decrement takes it to zero fires every stored gate trigger.

use vstd::prelude::*;

use crate::hub::Hub;
use crate::model::{HubModel, Wake, arm_all, disarm_all, lemma_op_lens, lemma_terminal_outcome};
use crate::{ArmedSignal, Signal, Signals, WaitError, signal_ids};

verus! {

/// The notification target of one barrier, as carried by a waiter.
pub struct Handle {
    pub(crate) idx: usize,
}

/// The all-of-many latch: the armed input handles, plus a slot in the hub
/// holding the remaining count and the stored pending-wake triggers.
pub struct Barrier {
    inner: usize,
    pulses: Vec<ArmedSignal>,
}

impl Barrier {
    /// Index of this barrier's slot in the hub.
    pub closed spec fn spec_inner(&self) -> int {
        self.inner as int
    }

    /// The wake action armed on every input cell: it names this barrier's
    /// slot, so firing any input decrements `remaining` there and the
    /// 1 -> 0 transition fires the stored gate triggers.
    pub open spec fn wake(&self) -> Wake {
        Wake::Barrier(self.spec_inner() as usize)
    }

    /// The armed inputs, each a cell id with its waiter id, in input order.
    pub closed spec fn entries(&self) -> Seq<(int, u64)> {
        self.pulses@.map_values(|a: ArmedSignal| (a.signal.spec_id(), a.node))
    }

    /// The barrier's slot exists and every input cell id is a real cell.
    pub open spec fn valid(&self, m: HubModel) -> bool {
        &&& 0 <= self.spec_inner() < m.barriers.len()
        &&& forall|k: int|
            0 <= k < self.entries().len() ==> 0 <= (#[trigger] self.entries()[k]).0
                < m.cells.len()
    }

    /// How many inputs have not yet terminated, in the given hub state.
    pub open spec fn remaining_of(&self, m: HubModel) -> nat {
        m.barriers[self.spec_inner()].remaining
    }

    /// Build a barrier over the given consumer handles: the remaining count
    /// starts at their number and every input cell is armed to decrement
    /// it.  Inputs that are already terminal decrement it during
    /// construction, so a barrier over zero pending inputs is born ready;
    /// over an empty vector it is trivially so.
    #[verifier::loop_isolation(false)]
    pub fn new(pulses: Vec<Signal>, hub: &mut Hub) -> (b: Barrier)
        requires
            forall|k: int| 0 <= k < pulses@.len() ==> (#[trigger] pulses@[k]).valid(old(hub)@),
            old(hub)@.node_ctr + pulses@.len() <= u64::MAX,
        ensures
            b.spec_inner() == old(hub)@.barriers.len(),
            final(hub)@ == arm_all(
                old(hub)@.alloc_barrier(pulses@.len() as nat),
                signal_ids(pulses@),
                b.wake(),
            ),
            b.entries().len() == pulses@.len(),
            forall|k: int|
                0 <= k < pulses@.len() ==> (#[trigger] b.entries()[k]).0 == pulses@[k].spec_id()
                    && b.entries()[k].1 == old(hub)@.node_ctr + k,
            b.valid(final(hub)@),
    {
        let n = pulses.len();
        let inner = hub.alloc_barrier(n);
        let h = Handle { idx: inner };
        let ghost ids = signal_ids(pulses@);
        let ghost target = arm_all(hub@, ids, Wake::Barrier(inner));
        let ghost ctr0 = old(hub)@.node_ctr;
        let ghost cells0 = old(hub)@.cells.len();
        let mut rem = pulses;
        let mut armed: Vec<ArmedSignal> = Vec::new();
        proof {
            assert(signal_ids(rem@) =~= ids.skip(0));
        }
        while rem.len() > 0
            invariant
                armed@.len() + rem@.len() == n,
                signal_ids(rem@) == ids.skip(armed@.len() as int),
                arm_all(hub@, signal_ids(rem@), Wake::Barrier(inner)) == target,
                hub@.cells.len() == cells0,
                hub@.barriers.len() == old(hub)@.barriers.len() + 1,
                hub@.node_ctr == ctr0 + armed@.len(),
                forall|k: int|
                    0 <= k < rem@.len() ==> (#[trigger] rem@[k]).spec_id() == ids[armed@.len()
                        + k],
                forall|k: int| 0 <= k < rem@.len() ==> 0 <= (#[trigger] rem@[k]).spec_id()
                    < cells0,
                forall|k: int|
                    0 <= k < armed@.len() ==> (#[trigger] armed@[k]).signal.spec_id() == ids[k]
                        && armed@[k].node == ctr0 + k,
            decreases rem@.len(),
        {
            let ghost pre = hub@;
            let ghost rem_ids = signal_ids(rem@);
            let s = rem.remove(0);
            let nid = hub.arm(s.id(), Wake::Barrier(h.idx));
            proof {
                lemma_op_lens(pre, s.spec_id(), Wake::Barrier(inner), 0);
                assert(signal_ids(rem@) =~= rem_ids.drop_first());
                assert(signal_ids(rem@) =~= ids.skip(armed@.len() as int + 1));
            }
            armed.push(ArmedSignal { signal: s, node: nid });
        }
        proof {
            assert(signal_ids(rem@) =~= Seq::<int>::empty());
        }
        let b = Barrier { inner, pulses: armed };
        proof {
            assert(b.entries().len() == n);
            assert(forall|k: int|
                0 <= k < n ==> (#[trigger] b.entries()[k]).0 == ids[k] && b.entries()[k].1 == ctr0
                    + k);
        }
        b
    }

    /// Dismantle the barrier without firing anything: every input waiter is
    /// removed, every stored gate trigger is dropped unfired (closing its
    /// cell), and the input handles go back to the caller in input order.
    #[verifier::loop_isolation(false)]
    pub fn take(self, hub: &mut Hub) -> (v: Vec<Signal>)
        requires
            self.valid(old(hub)@),
        ensures
            final(hub)@ == disarm_all(old(hub)@, self.entries()).barrier_clear_triggers(
                self.spec_inner(),
            ),
            signal_ids(v@) == self.entries().map_values(|e: (int, u64)| e.0),
    {
        let ghost e = self.entries();
        let ghost m0 = old(hub)@;
        let ghost target = disarm_all(m0, e);
        let Barrier { inner, pulses } = self;
        let mut rem = pulses;
        let mut out: Vec<Signal> = Vec::new();
        proof {
            assert(rem@.map_values(|a: ArmedSignal| (a.signal.spec_id(), a.node)) =~= e.skip(0));
        }
        while rem.len() > 0
            invariant
                out@.len() + rem@.len() == e.len(),
                rem@.map_values(|a: ArmedSignal| (a.signal.spec_id(), a.node)) == e.skip(
                    out@.len() as int,
                ),
                disarm_all(hub@, e.skip(out@.len() as int)) == target,
                hub@.cells.len() == m0.cells.len(),
                hub@.barriers.len() == m0.barriers.len(),
                forall|k: int|
                    0 <= k < out@.len() ==> (#[trigger] out@[k]).spec_id() == e[k].0,
                forall|k: int|
                    0 <= k < rem@.len() ==> (#[trigger] rem@[k]).signal.spec_id() == e[out@.len()
                        + k].0,
            decreases rem@.len(),
        {
            let ghost pre = hub@;
            let ghost i = out@.len() as int;
            let ghost pre_entries = rem@.map_values(|a: ArmedSignal| (a.signal.spec_id(), a.node));
            let armed = rem.remove(0);
            proof {
                assert(e.skip(i)[0] == e[i]);
                assert(pre_entries[0] == e[i]);
                assert(armed.signal.spec_id() == e[i].0);
                assert(armed.node == e[i].1);
                assert(0 <= e[i].0 < m0.cells.len());
            }
            armed.signal.disarm(hub, armed.node);
            proof {
                lemma_op_lens(pre, e[i].0, Wake::Barrier(0), armed.node);
                assert(rem@.map_values(|a: ArmedSignal| (a.signal.spec_id(), a.node))
                    =~= pre_entries.drop_first());
                assert(pre_entries.drop_first() =~= e.skip(i + 1));
                assert(hub@ == pre.disarm_cell(e[i].0, e[i].1));
                assert(disarm_all(hub@, e.skip(i + 1)) == target);
            }
            out.push(armed.signal);
        }
        proof {
            assert(e.skip(out@.len() as int) =~= Seq::<(int, u64)>::empty());
        }
        hub.clear_barrier_triggers(inner);
        proof {
            assert(signal_ids(out@) =~= e.map_values(|x: (int, u64)| x.0));
        }
        out
    }
}

impl Signals for Barrier {
    /// Only the barrier's slot must exist; a fresh cell is allocated.
    open spec fn signal_pre(&self, m: HubModel) -> bool {
        0 <= self.spec_inner() < m.barriers.len()
    }

    /// A fresh pair is allocated; with every input already terminal its
    /// producer fires at once, otherwise it joins the stored pending-wake
    /// triggers.  Gates handed out earlier stay stored: each `signal` call
    /// yields an independent listener with the same eventual outcome.
    open spec fn signal_post(
        pre_self: Self,
        pre: HubModel,
        post_self: Self,
        post: HubModel,
        s: Signal,
    ) -> bool {
        let t = pre.cells.len();
        let m1 = pre.alloc_cell();
        post_self == pre_self && s.spec_id() == t && (if pre.barriers[
            pre_self.spec_inner()
        ].remaining == 0 {
            post == m1.fire_cell(t as int)
        } else {
            post == m1.barrier_push_trigger(pre_self.spec_inner(), t as usize)
        })
    }

    /// The sequential core cannot park: every input must already have
    /// terminated, so the fresh signal fires immediately.
    open spec fn wait_pre(&self, m: HubModel) -> bool {
        0 <= self.spec_inner() < m.barriers.len() && m.barriers[self.spec_inner()].remaining == 0
    }

    /// The throwaway pair is allocated, fired and its consumer released;
    /// the outcome is always `Ok`.
    open spec fn wait_post(
        pre_self: Self,
        pre: HubModel,
        post_self: Self,
        post: HubModel,
        r: Result<(), WaitError>,
    ) -> bool {
        let t = pre.cells.len() as int;
        post_self == pre_self && r is Ok && post == pre.alloc_cell().fire_cell(t).release_cell(t)
    }

    fn signal(&mut self, hub: &mut Hub) -> (s: Signal) {
        let (p, t) = Signal::new(hub);
        let rem = hub.barrier_remaining(self.inner);
        if rem == 0 {
            t.pulse(hub);
        } else {
            let ti = t.cast_to_usize();
            hub.push_barrier_trigger(self.inner, ti);
        }
        p
    }

    fn wait(&mut self, hub: &mut Hub) -> (r: Result<(), WaitError>) {
        let ghost t = old(hub)@.cells.len() as int;
        let mut s = self.signal(hub);
        proof {
            lemma_terminal_outcome(old(hub)@.alloc_cell(), t);
            lemma_op_lens(old(hub)@.alloc_cell(), t, self.wake(), 0);
        }
        let r = s.wait(hub);
        s.release(hub);
        r
    }
}

} // verus!
