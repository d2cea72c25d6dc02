//! Select: track many events and yield whichever becomes ready first,
//! repeatedly.  A waiter armed on each tracked cell pushes the cell's id
//! into this select's ready queue when the cell terminates, and fires the
//! select's stored trigger so a blocked consumer resumes.

use vstd::prelude::*;

use crate::barrier::Barrier;
use crate::hub::Hub;
use crate::model::{
    HubModel, SelectModel, Wake, arm_all, disarm_all, lemma_op_lens, lemma_terminal_outcome,
};
use crate::{ArmedSignal, Signal, Signals, WaitError, signal_ids};

verus! {

/// The notification target of one select, as carried by a waiter.
pub struct Handle {
    pub(crate) idx: usize,
}

/// Whether any tracked entry has the given cell id as its key.
pub open spec fn tracks(entries: Seq<(int, u64)>, id: int) -> bool {
    exists|k: int| 0 <= k < entries.len() && (#[trigger] entries[k]).0 == id
}

/// Position of the first ready id that is still tracked; the queue's length
/// when none is.  Ready ids ahead of it are stale - their entries were
/// removed - and are discarded by `try_next`.
pub open spec fn next_hit(ready: Seq<usize>, entries: Seq<(int, u64)>) -> int
    decreases ready.len(),
{
    if ready.len() == 0 {
        0
    } else if tracks(entries, ready[0] as int) {
        0
    } else {
        1 + next_hit(ready.drop_first(), entries)
    }
}

/// A scan that saw no tracked id among the first `i` ready ids pins
/// `next_hit` down: it is `i` when the id there is tracked, and the queue's
/// length when the scan exhausted it.
proof fn lemma_next_hit_prefix(ready: Seq<usize>, entries: Seq<(int, u64)>, i: int)
    requires
        0 <= i <= ready.len(),
        forall|j: int| 0 <= j < i ==> !tracks(entries, (#[trigger] ready[j]) as int),
    ensures
        i < ready.len() && tracks(entries, ready[i] as int) ==> next_hit(ready, entries) == i,
        i == ready.len() ==> next_hit(ready, entries) == ready.len(),
    decreases ready.len(),
{
    if ready.len() > 0 && i > 0 {
        assert(!tracks(entries, ready[0] as int));
        lemma_next_hit_prefix(ready.drop_first(), entries, i - 1);
        assert(forall|j: int|
            0 <= j < i - 1 ==> ready.drop_first()[j] == ready[j + 1]);
    }
}

/// The first-of-many multiplexer: a set of armed consumer handles keyed by
/// cell id, plus a slot in the hub holding the ready queue and the
/// pending-wake trigger.
pub struct Select {
    inner: usize,
    pulses: Vec<ArmedSignal>,
}

impl Select {
    /// Index of this select's slot in the hub.
    pub closed spec fn spec_inner(&self) -> int {
        self.inner as int
    }

    /// The wake action armed on every tracked cell: it names this select's
    /// slot, so firing a tracked cell pushes that cell's id into the ready
    /// queue there and fires the stored trigger, if one is pending.
    pub open spec fn wake(&self) -> Wake {
        Wake::Select(self.spec_inner() as usize)
    }

    /// The tracked entries, each a cell id with its waiter id, in insertion
    /// order.
    pub closed spec fn entries(&self) -> Seq<(int, u64)> {
        self.pulses@.map_values(|a: ArmedSignal| (a.signal.spec_id(), a.node))
    }

    /// Tracked cell ids are pairwise distinct: registering one handle twice
    /// without disarming is the misuse `add` rejects.
    pub open spec fn wf(&self) -> bool {
        forall|j: int, k: int|
            0 <= j < k < self.entries().len() ==> (#[trigger] self.entries()[j]).0 != (
            #[trigger] self.entries()[k]).0
    }

    /// The select's slot exists and every tracked cell id is a real cell.
    pub open spec fn valid(&self, m: HubModel) -> bool {
        &&& 0 <= self.spec_inner() < m.selects.len()
        &&& forall|k: int|
            0 <= k < self.entries().len() ==> 0 <= (#[trigger] self.entries()[k]).0
                < m.cells.len()
    }

    /// This select's ready queue in the given hub state.
    pub open spec fn ready_of(&self, m: HubModel) -> Seq<usize> {
        m.selects[self.spec_inner()].ready
    }

    /// This select's stored trigger in the given hub state.
    pub open spec fn trigger_of(&self, m: HubModel) -> Option<usize> {
        m.selects[self.spec_inner()].trigger
    }

    /// A fresh select tracking nothing.
    pub fn new(hub: &mut Hub) -> (s: Select)
        ensures
            final(hub)@ == old(hub)@.alloc_select(),
            s.spec_inner() == old(hub)@.selects.len(),
            s.entries() == Seq::<(int, u64)>::empty(),
            s.wf(),
    {
        let inner = hub.alloc_select();
        let s = Select { inner, pulses: Vec::new() };
        proof {
            assert(s.entries() =~= Seq::<(int, u64)>::empty());
        }
        s
    }

    /// Track one more event: arm its cell to notify this select and store
    /// the handle under the cell's id, which is returned.  A cell that is
    /// already terminal is reported ready at once.  Adding a second clone
    /// of an already-tracked signal is rejected by precondition.
    pub fn add(&mut self, pulse: Signal, hub: &mut Hub) -> (id: usize)
        requires
            old(self).wf(),
            old(self).valid(old(hub)@),
            pulse.valid(old(hub)@),
            old(hub)@.node_ctr < u64::MAX,
            !tracks(old(self).entries(), pulse.spec_id()),
        ensures
            id == pulse.spec_id(),
            final(hub)@ == old(hub)@.arm_cell(pulse.spec_id(), old(self).wake()),
            final(self).entries() == old(self).entries().push(
                (pulse.spec_id(), old(hub)@.node_ctr),
            ),
            final(self).spec_inner() == old(self).spec_inner(),
            final(self).wf(),
            final(self).valid(final(hub)@),
    {
        let id = pulse.id();
        let h = Handle { idx: self.inner };
        let nid = hub.arm(id, Wake::Select(h.idx));
        proof {
            lemma_op_lens(old(hub)@, pulse.spec_id(), old(self).wake(), 0);
        }
        self.pulses.push(ArmedSignal { signal: pulse, node: nid });
        proof {
            assert(self.entries() =~= old(self).entries().push(
                (pulse.spec_id(), old(hub)@.node_ctr),
            ));
        }
        id
    }

    /// Stop tracking the event stored under `id` and hand its handle back,
    /// removing the armed waiter; `None` when no such id is tracked.
    pub fn remove(&mut self, id: usize, hub: &mut Hub) -> (r: Option<Signal>)
        requires
            old(self).wf(),
            old(self).valid(old(hub)@),
        ensures
            r is Some <==> tracks(old(self).entries(), id as int),
            r matches Some(s) ==> s.spec_id() == id && exists|k: int|
                0 <= k < old(self).entries().len() && (#[trigger] old(self).entries()[k]).0
                    == id && final(self).entries() == old(self).entries().remove(k)
                    && final(hub)@ == old(hub)@.disarm_cell(id as int, old(self).entries()[k].1),
            r is None ==> *final(self) == *old(self) && final(hub)@ == old(hub)@,
            final(self).spec_inner() == old(self).spec_inner(),
            final(self).wf(),
            final(self).valid(final(hub)@),
    {
        match self.find_key(id) {
            Some(k) => {
                let armed = self.pulses.remove(k);
                armed.signal.disarm(hub, armed.node);
                proof {
                    lemma_op_lens(old(hub)@, id as int, old(self).wake(), armed.node);
                    assert(self.entries() =~= old(self).entries().remove(k as int));
                    assert(tracks(old(self).entries(), id as int));
                }
                Some(armed.signal)
            },
            None => {
                proof {
                    assert(!tracks(old(self).entries(), id as int));
                }
                None
            },
        }
    }

    /// Number of events still tracked.
    pub fn len(&self) -> (n: usize)
        ensures
            n == self.entries().len(),
    {
        self.pulses.len()
    }

    /// Position of the entry tracking the given cell id, if any.
    fn find_key(&self, id: usize) -> (r: Option<usize>)
        ensures
            r matches Some(k) ==> k < self.entries().len() && self.entries()[k as int].0 == id,
            r is None ==> forall|j: int|
                0 <= j < self.entries().len() ==> (#[trigger] self.entries()[j]).0 != id,
    {
        let n = self.pulses.len();
        let mut k: usize = 0;
        while k < n
            invariant
                k <= n,
                n == self.entries().len(),
                forall|j: int| 0 <= j < k ==> (#[trigger] self.entries()[j]).0 != id,
            decreases n - k,
        {
            if self.pulses[k].signal.id() == id {
                return Some(k);
            }
            k = k + 1;
        }
        None
    }

    /// Collect the next ready event without blocking: pop ready ids oldest
    /// first, discard stale ones, and return the handle of the first that
    /// is still tracked; `None` - leaving the tracked set unchanged - when
    /// no tracked event is ready yet.
    #[verifier::loop_isolation(false)]
    pub fn try_next(&mut self, hub: &mut Hub) -> (r: Option<Signal>)
        requires
            old(self).wf(),
            old(self).valid(old(hub)@),
        ensures
            ({
                let rd = old(self).ready_of(old(hub)@);
                let trig = old(self).trigger_of(old(hub)@);
                let hit = next_hit(rd, old(self).entries());
                &&& (r is Some <==> hit < rd.len())
                &&& (r matches Some(s) ==> s.spec_id() == rd[hit] && exists|k: int|
                    0 <= k < old(self).entries().len() && (#[trigger] old(self).entries()[k]).0
                        == rd[hit] as int && final(self).entries() == old(self).entries().remove(k)
                        && final(hub)@ == old(hub)@.with_select(
                        old(self).spec_inner(),
                        SelectModel { ready: rd.skip(hit + 1), trigger: trig },
                    ).disarm_cell(rd[hit] as int, old(self).entries()[k].1))
                &&& (r is None ==> *final(self) == *old(self)
                    && final(hub)@ == old(hub)@.with_select(
                    old(self).spec_inner(),
                    SelectModel { ready: Seq::empty(), trigger: trig },
                ))
            }),
            final(self).spec_inner() == old(self).spec_inner(),
            final(self).wf(),
            final(self).valid(final(hub)@),
    {
        let ghost m0 = old(hub)@;
        let ghost rd = old(self).ready_of(m0);
        let ghost trig = old(self).trigger_of(m0);
        let ghost e = old(self).entries();
        let ghost mut i: int = 0;
        proof {
            assert(hub@ =~~= m0.with_select(
                old(self).spec_inner(),
                SelectModel { ready: rd.skip(0), trigger: trig },
            ));
        }
        loop
            invariant
                *self == *old(self),
                0 <= i <= rd.len(),
                hub@ == m0.with_select(
                    old(self).spec_inner(),
                    SelectModel { ready: rd.skip(i), trigger: trig },
                ),
                forall|j: int| 0 <= j < i ==> !tracks(e, (#[trigger] rd[j]) as int),
            decreases rd.len() - i,
        {
            let popped = hub.pop_ready(self.inner);
            match popped {
                None => {
                    proof {
                        assert(rd.skip(i).len() == rd.len() - i);
                        assert(i == rd.len());
                        lemma_next_hit_prefix(rd, e, i);
                        assert(hub@ =~~= m0.with_select(
                            old(self).spec_inner(),
                            SelectModel { ready: Seq::empty(), trigger: trig },
                        ));
                    }
                    return None;
                },
                Some(id) => {
                    proof {
                        assert(rd.skip(i).len() == rd.len() - i);
                        assert(i < rd.len());
                        assert(rd.skip(i)[0] == rd[i]);
                        assert(id == rd[i]);
                        assert(hub@ =~~= m0.with_select(
                            old(self).spec_inner(),
                            SelectModel { ready: rd.skip(i + 1), trigger: trig },
                        ));
                    }
                    match self.find_key(id) {
                        Some(found) => {
                            let armed = self.pulses.remove(found);
                            proof {
                                assert(tracks(e, id as int));
                                lemma_next_hit_prefix(rd, e, i);
                                assert(next_hit(rd, e) == i);
                            }
                            armed.signal.disarm(hub, armed.node);
                            proof {
                                lemma_op_lens(hub@, id as int, old(self).wake(), armed.node);
                                assert(self.entries() =~= e.remove(found as int));
                            }
                            return Some(armed.signal);
                        },
                        None => {
                            proof {
                                assert(!tracks(e, id as int));
                                i = i + 1;
                            }
                        },
                    }
                },
            }
        }
    }

    /// The next ready event among those tracked; `None` once nothing is
    /// tracked any more.  The sequential core cannot park, so a tracked
    /// event must already be ready when any are tracked.
    pub fn next(&mut self, hub: &mut Hub) -> (r: Option<Signal>)
        requires
            old(self).wf(),
            old(self).valid(old(hub)@),
            old(self).entries().len() == 0 || next_hit(
                old(self).ready_of(old(hub)@),
                old(self).entries(),
            ) < old(self).ready_of(old(hub)@).len(),
        ensures
            old(self).entries().len() == 0 ==> r is None && *final(self) == *old(self)
                && final(hub)@ == old(hub)@,
            old(self).entries().len() > 0 ==> r is Some && ({
                let rd = old(self).ready_of(old(hub)@);
                let trig = old(self).trigger_of(old(hub)@);
                let hit = next_hit(rd, old(self).entries());
                r matches Some(s) ==> s.spec_id() == rd[hit] && exists|k: int|
                    0 <= k < old(self).entries().len() && (#[trigger] old(self).entries()[k]).0
                        == rd[hit] as int && final(self).entries() == old(self).entries().remove(k)
                        && final(hub)@ == old(hub)@.with_select(
                        old(self).spec_inner(),
                        SelectModel { ready: rd.skip(hit + 1), trigger: trig },
                    ).disarm_cell(rd[hit] as int, old(self).entries()[k].1)
            }),
            final(self).spec_inner() == old(self).spec_inner(),
            final(self).wf(),
            final(self).valid(final(hub)@),
    {
        if self.pulses.len() == 0 {
            return None;
        }
        self.try_next(hub)
    }
}

impl Select {
    /// Convert first-of-many tracking into all-of-many tracking: every
    /// tracked waiter is removed, a stored trigger is dropped unfired, and
    /// a fresh barrier is built over the same handles without losing any.
    #[verifier::loop_isolation(false)]
    pub fn into_barrier(self, hub: &mut Hub) -> (b: Barrier)
        requires
            self.valid(old(hub)@),
            old(hub)@.node_ctr + self.entries().len() <= u64::MAX,
        ensures
            b.spec_inner() == old(hub)@.barriers.len(),
            final(hub)@ == ({
                let m1 = disarm_all(old(hub)@, self.entries()).select_clear_trigger(
                    self.spec_inner(),
                );
                arm_all(
                    m1.alloc_barrier(self.entries().len() as nat),
                    self.entries().map_values(|x: (int, u64)| x.0),
                    b.wake(),
                )
            }),
            b.entries().len() == self.entries().len(),
            forall|k: int|
                0 <= k < self.entries().len() ==> (#[trigger] b.entries()[k]).0
                    == self.entries()[k].0,
            b.valid(final(hub)@),
    {
        let ghost e = self.entries();
        let ghost m0 = old(hub)@;
        let ghost target = disarm_all(m0, e);
        let Select { inner, pulses } = self;
        let mut rem = pulses;
        let mut sigs: Vec<Signal> = Vec::new();
        proof {
            assert(rem@.map_values(|a: ArmedSignal| (a.signal.spec_id(), a.node)) =~= e.skip(0));
        }
        while rem.len() > 0
            invariant
                sigs@.len() + rem@.len() == e.len(),
                rem@.map_values(|a: ArmedSignal| (a.signal.spec_id(), a.node)) == e.skip(
                    sigs@.len() as int,
                ),
                disarm_all(hub@, e.skip(sigs@.len() as int)) == target,
                hub@.cells.len() == m0.cells.len(),
                hub@.selects.len() == m0.selects.len(),
                hub@.barriers.len() == m0.barriers.len(),
                hub@.node_ctr == m0.node_ctr,
                forall|k: int|
                    0 <= k < sigs@.len() ==> (#[trigger] sigs@[k]).spec_id() == e[k].0,
                forall|k: int|
                    0 <= k < rem@.len() ==> (#[trigger] rem@[k]).signal.spec_id() == e[sigs@.len()
                        + k].0,
            decreases rem@.len(),
        {
            let ghost pre = hub@;
            let ghost i = sigs@.len() as int;
            let ghost pre_entries = rem@.map_values(
                |a: ArmedSignal| (a.signal.spec_id(), a.node),
            );
            let armed = rem.remove(0);
            proof {
                assert(e.skip(i)[0] == e[i]);
                assert(pre_entries[0] == e[i]);
                assert(armed.signal.spec_id() == e[i].0);
                assert(armed.node == e[i].1);
                assert(0 <= e[i].0 < m0.cells.len());
            }
            armed.signal.disarm(hub, armed.node);
            proof {
                lemma_op_lens(pre, e[i].0, Wake::Select(0), armed.node);
                assert(rem@.map_values(|a: ArmedSignal| (a.signal.spec_id(), a.node))
                    =~= pre_entries.drop_first());
                assert(pre_entries.drop_first() =~= e.skip(i + 1));
                assert(hub@ == pre.disarm_cell(e[i].0, e[i].1));
                assert(disarm_all(hub@, e.skip(i + 1)) == target);
            }
            sigs.push(armed.signal);
        }
        proof {
            assert(e.skip(sigs@.len() as int) =~= Seq::<(int, u64)>::empty());
        }
        let ghost m_disarmed = hub@;
        hub.clear_select_trigger(inner);
        proof {
            crate::model::lemma_trigger_ops_lens(m_disarmed, inner as int, 0);
            assert(signal_ids(sigs@) =~= e.map_values(|x: (int, u64)| x.0));
        }
        Barrier::new(sigs, hub)
    }
}

/// A select whose tracked events each carry a caller-supplied value, handed
/// back when the event is collected.
pub struct SelectMap<T> {
    select: Select,
    items: Vec<(usize, T)>,
}

impl<T> SelectMap<T> {
    /// Index of the underlying select's slot in the hub.
    pub closed spec fn spec_inner(&self) -> int {
        self.select.spec_inner()
    }

    /// The tracked entries of the underlying select.
    pub closed spec fn entries(&self) -> Seq<(int, u64)> {
        self.select.entries()
    }

    /// The stored values, keyed by cell id, in insertion order.
    pub closed spec fn items(&self) -> Seq<(usize, T)> {
        self.items@
    }

    /// The stored values run in step with the tracked entries: same length,
    /// same keys at each position, and keys pairwise distinct.
    pub open spec fn wf(&self) -> bool {
        &&& forall|j: int, k: int|
            0 <= j < k < self.entries().len() ==> (#[trigger] self.entries()[j]).0 != (
            #[trigger] self.entries()[k]).0
        &&& self.items().len() == self.entries().len()
        &&& forall|k: int|
            0 <= k < self.items().len() ==> (#[trigger] self.items()[k]).0 == self.entries()[k].0
    }

    /// The select's slot exists and every tracked cell id is a real cell.
    pub open spec fn valid(&self, m: HubModel) -> bool {
        &&& 0 <= self.spec_inner() < m.selects.len()
        &&& forall|k: int|
            0 <= k < self.entries().len() ==> 0 <= (#[trigger] self.entries()[k]).0
                < m.cells.len()
    }

    /// The underlying select's ready queue in the given hub state.
    pub open spec fn ready_of(&self, m: HubModel) -> Seq<usize> {
        m.selects[self.spec_inner()].ready
    }

    /// The underlying select's stored trigger in the given hub state.
    pub open spec fn trigger_of(&self, m: HubModel) -> Option<usize> {
        m.selects[self.spec_inner()].trigger
    }

    /// A fresh map tracking nothing.
    pub fn new(hub: &mut Hub) -> (s: SelectMap<T>)
        ensures
            final(hub)@ == old(hub)@.alloc_select(),
            s.spec_inner() == old(hub)@.selects.len(),
            s.entries() == Seq::<(int, u64)>::empty(),
            s.items() == Seq::<(usize, T)>::empty(),
            s.wf(),
    {
        SelectMap { select: Select::new(hub), items: Vec::new() }
    }

    /// Track one more event together with a value to hand back when it is
    /// collected.
    pub fn add(&mut self, pulse: Signal, value: T, hub: &mut Hub)
        requires
            old(self).wf(),
            old(self).valid(old(hub)@),
            pulse.valid(old(hub)@),
            old(hub)@.node_ctr < u64::MAX,
            !tracks(old(self).entries(), pulse.spec_id()),
        ensures
            final(hub)@ == old(hub)@.arm_cell(pulse.spec_id(), old(self).wake()),
            final(self).entries() == old(self).entries().push(
                (pulse.spec_id(), old(hub)@.node_ctr),
            ),
            final(self).items().len() == old(self).items().len() + 1,
            final(self).items() == old(self).items().push(
                (final(self).items().last().0, value),
            ),
            final(self).items().last().0 == pulse.spec_id(),
            final(self).spec_inner() == old(self).spec_inner(),
            final(self).wf(),
            final(self).valid(final(hub)@),
    {
        let id = self.select.add(pulse, hub);
        self.items.push((id, value));
        proof {
            assert(self.items@ =~= old(self).items@.push((id, value)));
        }
    }

    /// Number of events still tracked.
    pub fn len(&self) -> (n: usize)
        ensures
            n == self.items().len(),
    {
        self.items.len()
    }

    /// Position of the stored value under the given cell id, if any.
    fn find_item(&self, id: usize) -> (r: Option<usize>)
        ensures
            r matches Some(k) ==> k < self.items().len() && self.items()[k as int].0 == id,
            r is None ==> forall|j: int|
                0 <= j < self.items().len() ==> (#[trigger] self.items()[j]).0 != id,
    {
        let n = self.items.len();
        let mut k: usize = 0;
        while k < n
            invariant
                k <= n,
                n == self.items().len(),
                forall|j: int| 0 <= j < k ==> (#[trigger] self.items()[j]).0 != id,
            decreases n - k,
        {
            if self.items[k].0 == id {
                return Some(k);
            }
            k = k + 1;
        }
        None
    }

    /// Collect the next ready event without blocking, handing back its
    /// handle together with the value stored when it was added.
    pub fn try_next(&mut self, hub: &mut Hub) -> (r: Option<(Signal, T)>)
        requires
            old(self).wf(),
            old(self).valid(old(hub)@),
        ensures
            ({
                let rd = old(self).ready_of(old(hub)@);
                let trig = old(self).trigger_of(old(hub)@);
                let hit = next_hit(rd, old(self).entries());
                &&& (r is Some <==> hit < rd.len())
                &&& (r matches Some(p) ==> p.0.spec_id() == rd[hit] && exists|k: int|
                    0 <= k < old(self).entries().len() && (#[trigger] old(self).entries()[k]).0
                        == rd[hit] as int && final(self).entries() == old(self).entries().remove(k)
                        && final(self).items() == old(self).items().remove(k)
                        && p.1 == old(self).items()[k].1
                        && final(hub)@ == old(hub)@.with_select(
                        old(self).spec_inner(),
                        SelectModel { ready: rd.skip(hit + 1), trigger: trig },
                    ).disarm_cell(rd[hit] as int, old(self).entries()[k].1))
                &&& (r is None ==> final(self).entries() == old(self).entries()
                    && final(self).items() == old(self).items()
                    && final(hub)@ == old(hub)@.with_select(
                    old(self).spec_inner(),
                    SelectModel { ready: Seq::empty(), trigger: trig },
                ))
            }),
            final(self).spec_inner() == old(self).spec_inner(),
            final(self).wf(),
            final(self).valid(final(hub)@),
    {
        let picked = self.select.try_next(hub);
        match picked {
            None => None,
            Some(s) => {
                let id = s.id();
                let found = self.find_item(id);
                proof {
                    let e = old(self).entries();
                    let rd = old(self).ready_of(old(hub)@);
                    let hit = next_hit(rd, e);
                    let k = choose|k: int|
                        0 <= k < e.len() && (#[trigger] e[k]).0 == rd[hit] as int
                            && self.select.entries() == e.remove(k)
                            && hub@ == old(hub)@.with_select(
                            old(self).spec_inner(),
                            SelectModel {
                                ready: rd.skip(hit + 1),
                                trigger: old(self).trigger_of(old(hub)@),
                            },
                        ).disarm_cell(rd[hit] as int, e[k].1);
                    assert(0 <= k < old(self).items@.len());
                    assert(old(self).items@[k].0 == id);
                    assert(self.items@ == old(self).items@);
                    assert(found matches Some(f) ==> old(self).items@[f as int].0 == id);
                    assert(found matches Some(f) ==> f == k) by {
                        if found is Some {
                            let f = found->0;
                            if f as int != k {
                                assert(e[f as int].0 == e[k].0);
                                assert(false);
                            }
                        }
                    }
                }
                match found {
                    Some(f) => {
                        let pair = self.items.remove(f);
                        proof {
                            assert(self.items@ =~= old(self).items@.remove(f as int));
                        }
                        Some((s, pair.1))
                    },
                    None => {
                        proof {
                            assert(exists|j: int|
                                0 <= j < self.items().len() && (#[trigger] self.items()[j]).0
                                    == id);
                            assert(false);
                        }
                        None
                    },
                }
            },
        }
    }

    /// The next ready event among those tracked, with its stored value;
    /// `None` once nothing is tracked any more.  The sequential core cannot
    /// park, so a tracked event must already be ready when any are tracked.
    pub fn next(&mut self, hub: &mut Hub) -> (r: Option<(Signal, T)>)
        requires
            old(self).wf(),
            old(self).valid(old(hub)@),
            old(self).entries().len() == 0 || next_hit(
                old(self).ready_of(old(hub)@),
                old(self).entries(),
            ) < old(self).ready_of(old(hub)@).len(),
        ensures
            old(self).entries().len() == 0 ==> r is None && *final(self) == *old(self)
                && final(hub)@ == old(hub)@,
            old(self).entries().len() > 0 ==> r is Some && ({
                let rd = old(self).ready_of(old(hub)@);
                let trig = old(self).trigger_of(old(hub)@);
                let hit = next_hit(rd, old(self).entries());
                r matches Some(p) ==> p.0.spec_id() == rd[hit] && exists|k: int|
                    0 <= k < old(self).entries().len() && (#[trigger] old(self).entries()[k]).0
                        == rd[hit] as int && final(self).entries() == old(self).entries().remove(k)
                        && final(self).items() == old(self).items().remove(k)
                        && p.1 == old(self).items()[k].1
                        && final(hub)@ == old(hub)@.with_select(
                        old(self).spec_inner(),
                        SelectModel { ready: rd.skip(hit + 1), trigger: trig },
                    ).disarm_cell(rd[hit] as int, old(self).entries()[k].1)
            }),
            final(self).spec_inner() == old(self).spec_inner(),
            final(self).wf(),
            final(self).valid(final(hub)@),
    {
        if self.items.len() == 0 {
            return None;
        }
        let r = self.try_next(hub);
        r
    }

    /// The wake action of the underlying select.
    pub open spec fn wake(&self) -> Wake {
        Wake::Select(self.spec_inner() as usize)
    }
}

impl<T> Signals for SelectMap<T> {
    /// Only the underlying select's slot must exist.
    open spec fn signal_pre(&self, m: HubModel) -> bool {
        0 <= self.spec_inner() < m.selects.len()
    }

    /// Exactly the underlying select's effect.
    open spec fn signal_post(
        pre_self: Self,
        pre: HubModel,
        post_self: Self,
        post: HubModel,
        s: Signal,
    ) -> bool {
        let t = pre.cells.len();
        let m1 = pre.alloc_cell();
        post_self == pre_self && s.spec_id() == t && (if pre.selects[
            pre_self.spec_inner()
        ].ready.len() == 0 {
            post == m1.select_set_trigger(pre_self.spec_inner(), t as usize)
        } else {
            post == m1.fire_cell(t as int)
        })
    }

    /// Some tracked event must already be ready.
    open spec fn wait_pre(&self, m: HubModel) -> bool {
        0 <= self.spec_inner() < m.selects.len() && m.selects[self.spec_inner()].ready.len() > 0
    }

    /// The throwaway pair is allocated, fired and its consumer released;
    /// the outcome is always `Ok`.
    open spec fn wait_post(
        pre_self: Self,
        pre: HubModel,
        post_self: Self,
        post: HubModel,
        r: Result<(), WaitError>,
    ) -> bool {
        let t = pre.cells.len() as int;
        post_self == pre_self && r is Ok && post == pre.alloc_cell().fire_cell(t).release_cell(t)
    }

    fn signal(&mut self, hub: &mut Hub) -> (s: Signal) {
        self.select.signal(hub)
    }

    fn wait(&mut self, hub: &mut Hub) -> (r: Result<(), WaitError>) {
        self.select.wait(hub)
    }
}

impl Signals for Select {
    /// Only the select's slot must exist; a fresh cell is allocated.
    open spec fn signal_pre(&self, m: HubModel) -> bool {
        0 <= self.spec_inner() < m.selects.len()
    }

    /// A fresh pair is allocated; with something already ready its producer
    /// fires at once, otherwise it is stored as the pending-wake trigger
    /// (closing any trigger stored before).
    open spec fn signal_post(
        pre_self: Self,
        pre: HubModel,
        post_self: Self,
        post: HubModel,
        s: Signal,
    ) -> bool {
        let t = pre.cells.len();
        let m1 = pre.alloc_cell();
        post_self == pre_self && s.spec_id() == t && (if pre.selects[
            pre_self.spec_inner()
        ].ready.len() == 0 {
            post == m1.select_set_trigger(pre_self.spec_inner(), t as usize)
        } else {
            post == m1.fire_cell(t as int)
        })
    }

    /// The sequential core cannot park: some tracked event must already be
    /// ready, so the fresh signal fires immediately.
    open spec fn wait_pre(&self, m: HubModel) -> bool {
        0 <= self.spec_inner() < m.selects.len() && m.selects[self.spec_inner()].ready.len() > 0
    }

    /// The throwaway pair is allocated, fired and its consumer released;
    /// the outcome is always `Ok`.
    open spec fn wait_post(
        pre_self: Self,
        pre: HubModel,
        post_self: Self,
        post: HubModel,
        r: Result<(), WaitError>,
    ) -> bool {
        let t = pre.cells.len() as int;
        post_self == pre_self && r is Ok && post == pre.alloc_cell().fire_cell(t).release_cell(t)
    }

    fn signal(&mut self, hub: &mut Hub) -> (s: Signal) {
        let (p, t) = Signal::new(hub);
        let rl = hub.ready_len(self.inner);
        if rl == 0 {
            let ti = t.cast_to_usize();
            hub.set_select_trigger(self.inner, ti);
        } else {
            t.pulse(hub);
        }
        p
    }

    fn wait(&mut self, hub: &mut Hub) -> (r: Result<(), WaitError>) {
        let ghost t = old(hub)@.cells.len() as int;
        let mut s = self.signal(hub);
        proof {
            lemma_terminal_outcome(old(hub)@.alloc_cell(), t);
            lemma_op_lens(old(hub)@.alloc_cell(), t, self.wake(), 0);
        }
        let r = s.wait(hub);
        s.release(hub);
        r
    }
}

} // verus!
