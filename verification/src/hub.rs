//! The event hub: one arena owning every cell, select slot and barrier slot,
//! so that all handles are plain indices and every state change is a
//! verified transition of the model in [`crate::model`].
//!
//! Each operation's contract equates the hub's view after the call with one
//! model function applied to the view before it; the wake cascade is the
//! loop in [`Hub::cascade`], proved equal to [`run_wake`].

use vstd::prelude::*;

use crate::model::{
    BarrierModel, CellModel, HubModel, SelectModel, Status, Wake, WaitNode, WorkItem, close_all,
    dec, fire_all, lemma_fire_all_measure, lemma_finish_step_measure, pending_count, remove_id,
    run_wake,
};

verus! {

struct CellRec {
    status: Status,
    refs: usize,
    has_pulse: bool,
    waiters: Vec<WaitNode>,
}

impl View for CellRec {
    type V = CellModel;

    closed spec fn view(&self) -> CellModel {
        CellModel {
            status: self.status,
            refs: self.refs as nat,
            has_pulse: self.has_pulse,
            waiters: self.waiters@,
        }
    }
}

struct SelectRec {
    ready: Vec<usize>,
    trigger: Option<usize>,
}

impl View for SelectRec {
    type V = SelectModel;

    closed spec fn view(&self) -> SelectModel {
        SelectModel { ready: self.ready@, trigger: self.trigger }
    }
}

struct BarrierRec {
    remaining: usize,
    triggers: Vec<usize>,
}

impl View for BarrierRec {
    type V = BarrierModel;

    closed spec fn view(&self) -> BarrierModel {
        BarrierModel { remaining: self.remaining as nat, triggers: self.triggers@ }
    }
}

spec fn cells_view(s: Seq<CellRec>) -> Seq<CellModel> {
    s.map_values(|c: CellRec| c@)
}

spec fn selects_view(s: Seq<SelectRec>) -> Seq<SelectModel> {
    s.map_values(|c: SelectRec| c@)
}

spec fn barriers_view(s: Seq<BarrierRec>) -> Seq<BarrierModel> {
    s.map_values(|c: BarrierRec| c@)
}

/// The arena that owns every event cell and aggregate slot.  Handles such
/// as [`crate::Signal`] and [`crate::Pulse`] are indices into it, so every
/// operation on a handle takes the hub it belongs to.
pub struct Hub {
    cells: Vec<CellRec>,
    selects: Vec<SelectRec>,
    barriers: Vec<BarrierRec>,
    woken: Vec<u64>,
    callbacks: Vec<u64>,
    node_ctr: u64,
}

impl View for Hub {
    type V = HubModel;

    closed spec fn view(&self) -> HubModel {
        HubModel {
            cells: cells_view(self.cells@),
            selects: selects_view(self.selects@),
            barriers: barriers_view(self.barriers@),
            woken: self.woken@,
            callbacks: self.callbacks@,
            node_ctr: self.node_ctr,
        }
    }
}

impl Hub {
    /// An empty hub: no cells, no aggregates, nothing woken.
    pub fn new() -> (hub: Hub)
        ensures
            hub@ == (HubModel {
                cells: Seq::empty(),
                selects: Seq::empty(),
                barriers: Seq::empty(),
                woken: Seq::empty(),
                callbacks: Seq::empty(),
                node_ctr: 0,
            }),
    {
        let hub = Hub {
            cells: Vec::new(),
            selects: Vec::new(),
            barriers: Vec::new(),
            woken: Vec::new(),
            callbacks: Vec::new(),
            node_ctr: 0,
        };
        proof {
            assert(hub@ =~~= (HubModel {
                cells: Seq::empty(),
                selects: Seq::empty(),
                barriers: Seq::empty(),
                woken: Seq::empty(),
                callbacks: Seq::empty(),
                node_ctr: 0,
            }));
        }
        hub
    }

    /// Allocate a fresh pending cell, born with one producer and one
    /// consumer reference.
    pub(crate) fn alloc_cell(&mut self) -> (i: usize)
        ensures
            final(self)@ == old(self)@.alloc_cell(),
            i == old(self)@.cells.len(),
    {
        let i = self.cells.len();
        self.cells.push(
            CellRec { status: Status::Pending, refs: 2, has_pulse: true, waiters: Vec::new() },
        );
        proof {
            assert(self@.cells =~= old(self)@.alloc_cell().cells);
            assert(self@ =~~= old(self)@.alloc_cell());
        }
        i
    }

    /// One more consumer reference on cell `c`.
    pub(crate) fn retain(&mut self, c: usize)
        requires
            old(self)@.cell_live(c as int),
            old(self)@.cells[c as int].refs < usize::MAX,
        ensures
            final(self)@ == old(self)@.retain_cell(c as int),
    {
        let r = self.cells[c].refs;
        self.cells[c].refs = r + 1;
        proof {
            assert(self@.cells =~= old(self)@.retain_cell(c as int).cells);
            assert(self@ =~~= old(self)@.retain_cell(c as int));
        }
    }

    /// One reference on cell `c` is gone; a dead cell stays dead.
    pub(crate) fn release(&mut self, c: usize)
        requires
            old(self)@.cell_live(c as int),
        ensures
            final(self)@ == old(self)@.release_cell(c as int),
    {
        let r = self.cells[c].refs;
        if r > 0 {
            self.cells[c].refs = r - 1;
        }
        proof {
            assert(self@.cells =~= old(self)@.release_cell(c as int).cells);
            assert(self@ =~~= old(self)@.release_cell(c as int));
        }
    }

    /// Non-blocking read of the cell's state machine.
    pub(crate) fn status_of(&self, c: usize) -> (st: Status)
        requires
            self@.cell_live(c as int),
        ensures
            st == self@.cells[c as int].status,
    {
        self.cells[c].status
    }

    /// Current reference count of cell `c`: what an embedding runtime
    /// tests before cloning a handle, so the count cannot overflow.
    pub fn refs_of(&self, c: usize) -> (r: usize)
        requires
            self@.cell_live(c as int),
        ensures
            r == self@.cells[c as int].refs,
    {
        self.cells[c].refs
    }

    /// Move every waiter of cell `c` onto the work stack, in registration
    /// order, and leave the cell's list empty.
    #[verifier::loop_isolation(false)]
    fn drain_waiters(&mut self, c: usize, work: &mut Vec<WorkItem>)
        requires
            old(self)@.cell_live(c as int),
        ensures
            final(self)@ == old(self)@.with_cell(
                c as int,
                CellModel { waiters: Seq::empty(), ..old(self)@.cells[c as int] },
            ),
            final(work)@ == old(work)@ + old(self)@.cells[c as int].waiters.map_values(
                |n: WaitNode| WorkItem { src: c as usize, node: n },
            ),
    {
        let ghost w0 = old(self)@.cells[c as int].waiters;
        let n = self.cells[c].waiters.len();
        let mut k: usize = 0;
        while k < n
            invariant
                k <= n,
                work@ == old(work)@ + w0.subrange(0, k as int).map_values(
                    |n: WaitNode| WorkItem { src: c as usize, node: n },
                ),
            decreases n - k,
        {
            let node = self.cells[c].waiters[k];
            work.push(WorkItem { src: c, node });
            proof {
                assert(w0.subrange(0, k + 1 as int).drop_last() =~= w0.subrange(0, k as int));
                assert(work@ =~= old(work)@ + w0.subrange(0, k + 1 as int).map_values(
                    |n: WaitNode| WorkItem { src: c as usize, node: n },
                ));
            }
            k = k + 1;
        }
        self.cells[c].waiters.clear();
        proof {
            assert(w0.subrange(0, w0.len() as int) =~= w0);
            assert(work@ =~= old(work)@ + w0.map_values(
                |n: WaitNode| WorkItem { src: c as usize, node: n },
            ));
            assert(self@.cells =~= old(self)@.with_cell(
                c as int,
                CellModel { waiters: Seq::empty(), ..old(self)@.cells[c as int] },
            ).cells);
            assert(self@ =~~= old(self)@.with_cell(
                c as int,
                CellModel { waiters: Seq::empty(), ..old(self)@.cells[c as int] },
            ));
        }
    }

    /// Cell `c` reaches terminal state `st`: consume the producer
    /// reference, drain the waiters onto the work stack.  Mirrors
    /// `HubModel::finish_step` exactly.
    fn finish_exec(&mut self, c: usize, st: Status, work: &mut Vec<WorkItem>)
        ensures
            final(self)@ == old(self)@.finish_step(c as int, st).0,
            final(work)@ == old(work)@ + old(self)@.finish_step(c as int, st).1,
    {
        if c >= self.cells.len() {
            proof {
                assert(final(work)@ =~= old(work)@ + old(self)@.finish_step(c as int, st).1);
            }
            return;
        }
        let was_pending = self.status_of(c) == Status::Pending;
        if was_pending {
            self.drain_waiters(c, work);
            let ghost s1 = self.cells@;
            let ghost m_drained = self@;
            proof {
                assert(self@.cells.len() == old(self)@.cells.len());
                assert(self.cells@.len() == self@.cells.len());
                assert(forall|j: int|
                    0 <= j < s1.len() ==> cells_view(s1)[j] == #[trigger] s1[j]@);
                assert(self.cells@[c as int]@.refs == old(self)@.cells[c as int].refs);
                assert(self.cells@[c as int]@.waiters =~= Seq::<WaitNode>::empty());
            }
            self.cells[c].status = st;
            proof {
                assert(self.cells@[c as int]@.refs == old(self)@.cells[c as int].refs);
                assert(self.cells@[c as int]@.waiters =~= Seq::<WaitNode>::empty());
            }
            let r = self.cells[c].refs;
            if r > 0 {
                self.cells[c].refs = r - 1;
            }
            self.cells[c].has_pulse = false;
            proof {
                let cm = old(self)@.cells[c as int];
                let cm2 = CellModel {
                    status: st,
                    refs: dec(cm.refs),
                    has_pulse: false,
                    waiters: Seq::empty(),
                };
                assert(self@.cells.len() == old(self)@.cells.len());
                assert(self@.cells[c as int].status == st);
                assert(self@.cells[c as int].refs == dec(cm.refs));
                assert(self@.cells[c as int].has_pulse == false);
                assert(self@.cells[c as int].waiters =~= Seq::<WaitNode>::empty());
                assert(forall|j: int|
                    0 <= j < s1.len() && j != c ==> self.cells@[j] == s1[j]);
                assert(forall|j: int|
                    0 <= j < self@.cells.len() && j != c ==> self@.cells[j] == old(self)@.cells[j]);
                assert(self@.cells =~~= old(self)@.cells.update(c as int, cm2));
                assert(self@ =~~= old(self)@.finish_step(c as int, st).0);
            }
        } else {
            let r = self.cells[c].refs;
            if r > 0 {
                self.cells[c].refs = r - 1;
            }
            self.cells[c].has_pulse = false;
            proof {
                let cm = old(self)@.cells[c as int];
                let cm2 = CellModel { refs: dec(cm.refs), has_pulse: false, ..cm };
                assert(self@.cells =~= old(self)@.cells.update(c as int, cm2));
                assert(self@ =~~= old(self)@.finish_step(c as int, st).0);
                assert(final(work)@ =~= old(work)@ + old(self)@.finish_step(c as int, st).1);
            }
        }
    }

    /// The wake cascade: process the work stack top-first until it is
    /// empty.  Proved equal to the model cascade `run_wake`; terminates
    /// because every step either consumes an item or fires one more cell.
    #[verifier::loop_isolation(false)]
    fn cascade(&mut self, items: Vec<WorkItem>)
        ensures
            final(self)@ == run_wake(old(self)@, items@),
    {
        let mut work = items;
        let ghost target = run_wake(old(self)@, work@);
        while work.len() > 0
            invariant
                run_wake(self@, work@) == target,
            decreases pending_count(self@.cells), work@.len(),
        {
            let ghost prev = self@;
            let ghost pwork = work@;
            let it = work.pop().unwrap();
            proof {
                assert(it == pwork.last());
                assert(work@ =~= pwork.drop_last());
            }
            match it.node.wake {
                Wake::Thread(tok) => {
                    self.woken.push(tok);
                    proof {
                        assert(self@ =~~= (HubModel { woken: prev.woken.push(tok), ..prev }));
                    }
                },
                Wake::Callback(tok) => {
                    self.callbacks.push(tok);
                    proof {
                        assert(self@ =~~= (HubModel {
                            callbacks: prev.callbacks.push(tok),
                            ..prev
                        }));
                    }
                },
                Wake::Select(s) => {
                    if s < self.selects.len() {
                        let ghost sel = prev.selects[s as int];
                        let trig = self.selects[s].trigger;
                        self.selects[s].ready.push(it.src);
                        self.selects[s].trigger = None;
                        proof {
                            assert(self@.selects =~= prev.selects.update(
                                s as int,
                                SelectModel { ready: sel.ready.push(it.src), trigger: None },
                            ));
                            assert(self@ =~~= prev.with_select(
                                s as int,
                                SelectModel { ready: sel.ready.push(it.src), trigger: None },
                            ));
                        }
                        match trig {
                            Some(t) => {
                                let ghost m1 = self@;
                                proof {
                                    lemma_finish_step_measure(m1, t as int, Status::Fired);
                                }
                                self.finish_exec(t, Status::Fired, &mut work);
                            },
                            None => {},
                        }
                    }
                },
                Wake::Barrier(b) => {
                    if b < self.barriers.len() {
                        let ghost bar = prev.barriers[b as int];
                        let rem = self.barriers[b].remaining;
                        if rem == 1 {
                            self.barriers[b].remaining = 0;
                            let mut ts: Vec<usize> = Vec::new();
                            std::mem::swap(&mut ts, &mut self.barriers[b].triggers);
                            proof {
                                assert(ts@ == bar.triggers);
                                assert(self@.barriers =~~= prev.barriers.update(
                                    b as int,
                                    BarrierModel { remaining: 0, triggers: Seq::empty() },
                                ));
                                assert(self@ =~~= prev.with_barrier(
                                    b as int,
                                    BarrierModel { remaining: 0, triggers: Seq::empty() },
                                ));
                            }
                            let ghost m1 = self@;
                            let ghost base_work = work@;
                            proof {
                                lemma_fire_all_measure(m1, ts@);
                                assert(ts@.skip(0) =~= ts@);
                            }
                            // fire every stored gate, oldest first
                            let n = ts.len();
                            let mut k: usize = 0;
                            while k < n
                                invariant
                                    k <= n,
                                    n == ts@.len(),
                                    fire_all(self@, ts@.skip(k as int)).0 == fire_all(m1, ts@).0,
                                    work@ + fire_all(self@, ts@.skip(k as int)).1 == base_work
                                        + fire_all(m1, ts@).1,
                                decreases n - k,
                            {
                                let ghost pre = self@;
                                let t = ts[k];
                                proof {
                                    assert(ts@.skip(k as int)[0] == ts@[k as int]);
                                }
                                self.finish_exec(t, Status::Fired, &mut work);
                                proof {
                                    assert(ts@.skip(k as int).drop_first() =~= ts@.skip(
                                        k as int + 1,
                                    ));
                                }
                                k = k + 1;
                            }
                            proof {
                                assert(ts@.skip(n as int) =~= Seq::<usize>::empty());
                            }
                        } else {
                            let nr = if rem > 0 {
                                rem - 1
                            } else {
                                0
                            };
                            self.barriers[b].remaining = nr;
                            proof {
                                assert(self@.barriers =~= prev.barriers.update(
                                    b as int,
                                    BarrierModel { remaining: dec(bar.remaining), triggers: bar.triggers },
                                ));
                                assert(self@ =~~= prev.with_barrier(
                                    b as int,
                                    BarrierModel { remaining: dec(bar.remaining), triggers: bar.triggers },
                                ));
                            }
                        }
                    }
                },
            }
        }
    }

    /// Fire cell `c`: terminal state `Fired`, then the full wake cascade.
    pub(crate) fn fire(&mut self, c: usize)
        ensures
            final(self)@ == old(self)@.fire_cell(c as int),
    {
        let mut work: Vec<WorkItem> = Vec::new();
        self.finish_exec(c, Status::Fired, &mut work);
        proof {
            assert(work@ =~= old(self)@.finish_step(c as int, Status::Fired).1);
        }
        self.cascade(work);
    }

    /// Close cell `c`: terminal state `Closed`, then the full wake cascade.
    pub(crate) fn close(&mut self, c: usize)
        ensures
            final(self)@ == old(self)@.close_cell(c as int),
    {
        let mut work: Vec<WorkItem> = Vec::new();
        self.finish_exec(c, Status::Closed, &mut work);
        proof {
            assert(work@ =~= old(self)@.finish_step(c as int, Status::Closed).1);
        }
        self.cascade(work);
    }

    /// Register a waiter on cell `c` under a fresh id.  If the cell is
    /// already terminal the whole list, new node included, is resumed at
    /// once.
    pub(crate) fn arm(&mut self, c: usize, wake: Wake) -> (nid: u64)
        requires
            old(self)@.cell_live(c as int),
            old(self)@.node_ctr < u64::MAX,
        ensures
            final(self)@ == old(self)@.arm_cell(c as int, wake),
            nid == old(self)@.node_ctr,
    {
        let nid = self.node_ctr;
        self.node_ctr = nid + 1;
        let node = WaitNode { id: nid, wake };
        self.cells[c].waiters.push(node);
        let ghost cm = old(self)@.cells[c as int];
        let ghost queued = cm.waiters.push(node);
        let ghost m1 = HubModel {
            node_ctr: (old(self)@.node_ctr + 1) as u64,
            ..old(self)@.with_cell(c as int, CellModel { waiters: queued, ..cm })
        };
        proof {
            assert(self@.cells =~= m1.cells);
            assert(self@ =~~= m1);
        }
        let still_pending = self.status_of(c) == Status::Pending;
        if !still_pending {
            let mut work: Vec<WorkItem> = Vec::new();
            self.drain_waiters(c, &mut work);
            proof {
                let m2 = m1.with_cell(c as int, CellModel { waiters: Seq::empty(), ..cm });
                assert(self@ =~~= m2);
                assert(work@ =~= queued.map_values(
                    |n: WaitNode| WorkItem { src: c as usize, node: n },
                ));
            }
            self.cascade(work);
        }
        nid
    }

    /// Remove the waiter registered under `id` from cell `c`; a no-op when
    /// the node has already been resumed.
    #[verifier::loop_isolation(false)]
    pub(crate) fn disarm(&mut self, c: usize, id: u64)
        requires
            old(self)@.cell_live(c as int),
        ensures
            final(self)@ == old(self)@.disarm_cell(c as int, id),
    {
        let ghost w0 = old(self)@.cells[c as int].waiters;
        let n = self.cells[c].waiters.len();
        let mut kept: Vec<WaitNode> = Vec::new();
        let mut k: usize = 0;
        while k < n
            invariant
                k <= n,
                kept@ == remove_id(w0.subrange(0, k as int), id),
            decreases n - k,
        {
            let node = self.cells[c].waiters[k];
            proof {
                assert(w0.subrange(0, k + 1 as int).drop_last() =~= w0.subrange(0, k as int));
                assert(w0.subrange(0, k + 1 as int).last() == node);
            }
            if node.id != id {
                kept.push(node);
            }
            k = k + 1;
        }
        self.cells[c].waiters = kept;
        proof {
            assert(w0.subrange(0, w0.len() as int) =~= w0);
            assert(self@.cells =~= old(self)@.disarm_cell(c as int, id).cells);
            assert(self@ =~~= old(self)@.disarm_cell(c as int, id));
        }
    }

    /// Reset a terminal cell to pending and hand out a fresh producer
    /// reference.  Callers check the recycle precondition first.
    pub(crate) fn recycle(&mut self, c: usize)
        requires
            old(self)@.cell_live(c as int),
        ensures
            final(self)@ == old(self)@.recycle_cell(c as int),
    {
        self.cells[c].status = Status::Pending;
        self.cells[c].refs = 2;
        self.cells[c].has_pulse = true;
        self.cells[c].waiters.clear();
        proof {
            assert(self@.cells =~= old(self)@.recycle_cell(c as int).cells);
            assert(self@ =~~= old(self)@.recycle_cell(c as int));
        }
    }

    /// Allocate a fresh, empty select slot.
    pub(crate) fn alloc_select(&mut self) -> (s: usize)
        ensures
            final(self)@ == old(self)@.alloc_select(),
            s == old(self)@.selects.len(),
    {
        let s = self.selects.len();
        self.selects.push(SelectRec { ready: Vec::new(), trigger: None });
        proof {
            assert(self@.selects =~= old(self)@.alloc_select().selects);
            assert(self@ =~~= old(self)@.alloc_select());
        }
        s
    }

    /// Number of terminated, not yet collected cells of select `s`.
    pub(crate) fn ready_len(&self, s: usize) -> (n: usize)
        requires
            self@.select_live(s as int),
        ensures
            n == self@.selects[s as int].ready.len(),
    {
        self.selects[s].ready.len()
    }

    /// Pop the oldest ready id of select `s`, if any.
    pub(crate) fn pop_ready(&mut self, s: usize) -> (r: Option<usize>)
        requires
            old(self)@.select_live(s as int),
        ensures
            old(self)@.selects[s as int].ready.len() == 0 ==> r is None && final(self)@ == old(
                self,
            )@,
            old(self)@.selects[s as int].ready.len() > 0 ==> r == Some(
                old(self)@.selects[s as int].ready[0],
            ) && final(self)@ == old(self)@.select_pop_ready(s as int),
    {
        if self.selects[s].ready.len() == 0 {
            return None;
        }
        let id = self.selects[s].ready.remove(0);
        proof {
            let sel = old(self)@.selects[s as int];
            assert(sel.ready.remove(0) =~= sel.ready.drop_first());
            assert(self@.selects =~= old(self)@.select_pop_ready(s as int).selects);
            assert(self@ =~~= old(self)@.select_pop_ready(s as int));
        }
        Some(id)
    }

    /// Store cell `t` as the pending-wake trigger of select `s`; a trigger
    /// stored earlier is dropped unfired, closing its cell.
    pub(crate) fn set_select_trigger(&mut self, s: usize, t: usize)
        requires
            old(self)@.select_live(s as int),
        ensures
            final(self)@ == old(self)@.select_set_trigger(s as int, t),
    {
        let ghost sel = old(self)@.selects[s as int];
        let ot = self.selects[s].trigger;
        self.selects[s].trigger = Some(t);
        proof {
            assert(self@.selects =~= old(self)@.selects.update(
                s as int,
                SelectModel { trigger: Some(t), ..sel },
            ));
            assert(self@ =~~= old(self)@.with_select(
                s as int,
                SelectModel { trigger: Some(t), ..sel },
            ));
        }
        match ot {
            Some(o) => {
                self.close(o);
            },
            None => {},
        }
    }

    /// Take the stored trigger of select `s` out, closing its cell.
    pub(crate) fn clear_select_trigger(&mut self, s: usize)
        requires
            old(self)@.select_live(s as int),
        ensures
            final(self)@ == old(self)@.select_clear_trigger(s as int),
    {
        let ghost sel = old(self)@.selects[s as int];
        let ot = self.selects[s].trigger;
        self.selects[s].trigger = None;
        proof {
            assert(self@.selects =~= old(self)@.selects.update(
                s as int,
                SelectModel { trigger: None, ..sel },
            ));
            assert(self@ =~~= old(self)@.with_select(
                s as int,
                SelectModel { trigger: None, ..sel },
            ));
        }
        match ot {
            Some(o) => {
                self.close(o);
            },
            None => {},
        }
    }

    /// Allocate a fresh barrier slot over `n` inputs.
    pub(crate) fn alloc_barrier(&mut self, n: usize) -> (b: usize)
        ensures
            final(self)@ == old(self)@.alloc_barrier(n as nat),
            b == old(self)@.barriers.len(),
    {
        let b = self.barriers.len();
        self.barriers.push(BarrierRec { remaining: n, triggers: Vec::new() });
        proof {
            assert(self@.barriers =~= old(self)@.alloc_barrier(n as nat).barriers);
            assert(self@ =~~= old(self)@.alloc_barrier(n as nat));
        }
        b
    }

    /// How many inputs of barrier `b` have not yet terminated.
    pub(crate) fn barrier_remaining(&self, b: usize) -> (n: usize)
        requires
            self@.barrier_live(b as int),
        ensures
            n == self@.barriers[b as int].remaining,
    {
        self.barriers[b].remaining
    }

    /// Store cell `t` as one more pending-wake trigger of barrier `b`.
    /// Earlier gates stay stored: all of them fire on the same 1 -> 0
    /// transition.
    pub(crate) fn push_barrier_trigger(&mut self, b: usize, t: usize)
        requires
            old(self)@.barrier_live(b as int),
        ensures
            final(self)@ == old(self)@.barrier_push_trigger(b as int, t),
    {
        let ghost bar = old(self)@.barriers[b as int];
        self.barriers[b].triggers.push(t);
        proof {
            assert(self@.barriers =~~= old(self)@.barriers.update(
                b as int,
                BarrierModel { triggers: bar.triggers.push(t), ..bar },
            ));
            assert(self@ =~~= old(self)@.barrier_push_trigger(b as int, t));
        }
    }

    /// Take every stored trigger of barrier `b` out, closing each one's
    /// cell, as dismantling the barrier does.
    #[verifier::loop_isolation(false)]
    pub(crate) fn clear_barrier_triggers(&mut self, b: usize)
        requires
            old(self)@.barrier_live(b as int),
        ensures
            final(self)@ == old(self)@.barrier_clear_triggers(b as int),
    {
        let ghost bar = old(self)@.barriers[b as int];
        let mut ts: Vec<usize> = Vec::new();
        std::mem::swap(&mut ts, &mut self.barriers[b].triggers);
        proof {
            assert(ts@ == bar.triggers);
            assert(self@.barriers =~~= old(self)@.barriers.update(
                b as int,
                BarrierModel { triggers: Seq::empty(), ..bar },
            ));
            assert(self@ =~~= old(self)@.with_barrier(
                b as int,
                BarrierModel { triggers: Seq::empty(), ..bar },
            ));
        }
        let ghost m1 = self@;
        proof {
            assert(ts@.skip(0) =~= ts@);
        }
        let n = ts.len();
        let mut k: usize = 0;
        while k < n
            invariant
                k <= n,
                n == ts@.len(),
                close_all(self@, ts@.skip(k as int)) == close_all(m1, ts@),
            decreases n - k,
        {
            let t = ts[k];
            proof {
                assert(ts@.skip(k as int)[0] == ts@[k as int]);
            }
            self.close(t);
            proof {
                assert(ts@.skip(k as int).drop_first() =~= ts@.skip(k as int + 1));
            }
            k = k + 1;
        }
        proof {
            assert(ts@.skip(n as int) =~= Seq::<usize>::empty());
        }
    }

    /// Collect the tokens of every thread waiter resumed so far.  The
    /// embedding runtime unparks the threads they stand for.
    pub fn take_woken(&mut self) -> (v: Vec<u64>)
        ensures
            v@ == old(self)@.woken,
            final(self)@ == old(self)@.clear_woken(),
    {
        let mut v: Vec<u64> = Vec::new();
        std::mem::swap(&mut v, &mut self.woken);
        proof {
            assert(self@ =~~= old(self)@.clear_woken());
        }
        v
    }

    /// Collect the tokens of every callback waiter resumed so far.  The
    /// embedding runtime invokes the closures they stand for, exactly once
    /// each.
    pub fn take_callbacks(&mut self) -> (v: Vec<u64>)
        ensures
            v@ == old(self)@.callbacks,
            final(self)@ == old(self)@.clear_callbacks(),
    {
        let mut v: Vec<u64> = Vec::new();
        std::mem::swap(&mut v, &mut self.callbacks);
        proof {
            assert(self@ =~~= old(self)@.clear_callbacks());
        }
        v
    }

    /// Next fresh waiter id; lets callers meet the arming budget.
    pub fn node_counter(&self) -> (n: u64)
        ensures
            n == self@.node_ctr,
    {
        self.node_ctr
    }

    /// Whether `c` is the id of a cell of this hub: what an embedding
    /// runtime tests before it trusts a handle it was given.
    pub fn cell_exists(&self, c: usize) -> (r: bool)
        ensures
            r == self@.cell_live(c as int),
    {
        c < self.cells.len()
    }

    /// Whether the producer reference of cell `c` is still outstanding:
    /// what an embedding runtime tests before it revives a producer handle
    /// from a raw word.
    pub fn producer_live(&self, c: usize) -> (r: bool)
        ensures
            r == (self@.cell_live(c as int) && self@.cells[c as int].has_pulse),
    {
        c < self.cells.len() && self.cells[c].has_pulse
    }
}

} // verus!
