//! The mathematical model of the event hub.
//!
//! Every executable operation on a [`crate::Hub`] is specified as a pure
//! function from one `HubModel` to the next, so that each public contract can
//! pin the whole effect of a call down to a single model expression.  The
//! central definition is [`run_wake`], the wake cascade: when a cell reaches
//! a terminal state its drained waiters are processed most-recent-first, and
//! waking a select or a barrier may fire that aggregate's stored trigger
//! cells, whose own waiters join the cascade in turn.  The cascade terminates
//! because every step either consumes a work item outright or moves one more
//! cell out of the `Pending` state.

use vstd::prelude::*;

verus! {

/// The state machine of one event cell: `Pending` until the producer fires
/// (`Fired`) or abandons (`Closed`) it; terminal states persist until an
/// explicit recycle.
#[derive(Clone, Copy, PartialEq, Eq, Structural, Debug)]
pub enum Status {
    Pending,
    Fired,
    Closed,
}

/// How one queued waiter is resumed when its cell becomes terminal.
#[derive(Clone, Copy)]
pub enum Wake {
    /// Report the token of a parked thread through `Hub::take_woken`;
    /// the embedding runtime unparks the thread it stands for.
    Thread(u64),
    /// Push the ready cell's id into the select at this slot index and fire
    /// the select's stored trigger, if one is pending.
    Select(usize),
    /// Decrement the barrier at this slot index; on the 1 -> 0 transition
    /// fire every trigger the barrier has stored.
    Barrier(usize),
    /// Report the token of a completion callback through
    /// `Hub::take_callbacks`; the embedding runtime invokes the closure it
    /// stands for.
    Callback(u64),
}

/// One entry of a cell's waiter list.  The id is unique across the hub and
/// lets a waiter be removed again before the cell fires.
#[derive(Clone, Copy)]
pub struct WaitNode {
    pub id: u64,
    pub wake: Wake,
}

/// One pending unit of the wake cascade: a waiter together with the id of
/// the cell whose termination woke it.
#[derive(Clone, Copy)]
pub struct WorkItem {
    pub src: usize,
    pub node: WaitNode,
}

/// Model of one event cell.
#[verifier::ext_equal]
pub ghost struct CellModel {
    /// Current point in the `Pending -> Fired | Closed` state machine.
    pub status: Status,
    /// Count of live references (consumer handles plus the producer handle).
    /// The cell is logically deallocated when it reaches zero.
    pub refs: nat,
    /// Whether the single-use producer reference is still outstanding.
    pub has_pulse: bool,
    /// Registered waiters, in registration order (most recent last).
    pub waiters: Seq<WaitNode>,
}

/// Model of one select (first-of-many) aggregate.
#[verifier::ext_equal]
pub ghost struct SelectModel {
    /// Ids of tracked cells that have become terminal, oldest first.
    pub ready: Seq<usize>,
    /// Cell id of the pending-wake trigger pulse, if a consumer is waiting.
    pub trigger: Option<usize>,
}

/// Model of one barrier (all-of-many) aggregate.
#[verifier::ext_equal]
pub ghost struct BarrierModel {
    /// How many tracked cells have not yet reached a terminal state.
    pub remaining: nat,
    /// Cell ids of every pending-wake trigger pulse stored so far, oldest
    /// first.  Each `signal` call on a still-counting barrier adds one; the
    /// 1 -> 0 transition fires them all, and dismantling the barrier closes
    /// them all, so every handed-out gate sees the same eventual outcome.
    pub triggers: Seq<usize>,
}

/// Model of the whole hub.
#[verifier::ext_equal]
pub ghost struct HubModel {
    pub cells: Seq<CellModel>,
    pub selects: Seq<SelectModel>,
    pub barriers: Seq<BarrierModel>,
    /// Tokens of thread waiters resumed so far and not yet collected.
    pub woken: Seq<u64>,
    /// Tokens of callback waiters resumed so far and not yet collected.
    pub callbacks: Seq<u64>,
    /// Next fresh waiter id.
    pub node_ctr: u64,
}

/// A reference count never goes below zero: releasing a reference of an
/// already-dead cell leaves it dead.
pub open spec fn dec(r: nat) -> nat {
    if r > 0 {
        (r - 1) as nat
    } else {
        0
    }
}

/// Number of cells still pending: the first component of the cascade's
/// termination measure.
pub open spec fn pending_count(cells: Seq<CellModel>) -> nat
    decreases cells.len(),
{
    if cells.len() == 0 {
        0
    } else {
        pending_count(cells.drop_last()) + if cells.last().status is Pending {
            1nat
        } else {
            0nat
        }
    }
}

impl HubModel {
    /// The cell id is a real slot of the hub.
    pub open spec fn cell_live(self, c: int) -> bool {
        0 <= c < self.cells.len()
    }

    pub open spec fn select_live(self, s: int) -> bool {
        0 <= s < self.selects.len()
    }

    pub open spec fn barrier_live(self, b: int) -> bool {
        0 <= b < self.barriers.len()
    }

    pub open spec fn is_pending(self, c: int) -> bool {
        self.cells[c].status is Pending
    }

    pub open spec fn with_cell(self, c: int, cm: CellModel) -> HubModel {
        HubModel { cells: self.cells.update(c, cm), ..self }
    }

    pub open spec fn with_select(self, s: int, sm: SelectModel) -> HubModel {
        HubModel { selects: self.selects.update(s, sm), ..self }
    }

    pub open spec fn with_barrier(self, b: int, bm: BarrierModel) -> HubModel {
        HubModel { barriers: self.barriers.update(b, bm), ..self }
    }

    /// Cell `c` reaches terminal state `st`: the producer reference is
    /// consumed and the whole waiter list is handed back for resumption.
    /// On a cell that is already terminal only the reference is consumed;
    /// its waiter list is already empty in every reachable state.
    pub open spec fn finish_step(self, c: int, st: Status) -> (HubModel, Seq<WorkItem>) {
        if !self.cell_live(c) {
            (self, Seq::empty())
        } else {
            let cm = self.cells[c];
            if cm.status is Pending {
                let cm2 = CellModel {
                    status: st,
                    refs: dec(cm.refs),
                    has_pulse: false,
                    waiters: Seq::empty(),
                };
                (
                    self.with_cell(c, cm2),
                    cm.waiters.map_values(|n: WaitNode| WorkItem { src: c as usize, node: n }),
                )
            } else {
                let cm2 = CellModel { refs: dec(cm.refs), has_pulse: false, ..cm };
                (self.with_cell(c, cm2), Seq::empty())
            }
        }
    }
}

/// Fire a sequence of trigger cells in turn, oldest first, gathering the
/// drained waiters of each: what a barrier does to its stored pending
/// wakes on the 1 -> 0 transition.
pub open spec fn fire_all(m: HubModel, ts: Seq<usize>) -> (HubModel, Seq<WorkItem>)
    decreases ts.len(),
{
    if ts.len() == 0 {
        (m, Seq::empty())
    } else {
        let stepped = m.finish_step(ts[0] as int, Status::Fired);
        let tail = fire_all(stepped.0, ts.drop_first());
        (tail.0, stepped.1 + tail.1)
    }
}

/// Close a sequence of trigger cells in turn, oldest first, letting each
/// closing run its full cascade: what dismantling a barrier does to its
/// stored pending wakes.
pub open spec fn close_all(m: HubModel, ts: Seq<usize>) -> HubModel
    decreases ts.len(),
{
    if ts.len() == 0 {
        m
    } else {
        close_all(m.close_cell(ts[0] as int), ts.drop_first())
    }
}

/// The wake cascade.  `work` is a stack: its last item is processed first,
/// so the waiters of one cell are resumed most-recently-registered first.
/// Waking a select or a barrier may fire stored trigger cells, whose
/// drained waiters are pushed onto the stack in turn.
pub open spec fn run_wake(m: HubModel, work: Seq<WorkItem>) -> HubModel
    decreases pending_count(m.cells), work.len(),
    via run_wake_decreases
{
    if work.len() == 0 {
        m
    } else {
        let it = work.last();
        let rest = work.drop_last();
        match it.node.wake {
            Wake::Thread(tok) => run_wake(HubModel { woken: m.woken.push(tok), ..m }, rest),
            Wake::Callback(tok) => run_wake(
                HubModel { callbacks: m.callbacks.push(tok), ..m },
                rest,
            ),
            Wake::Select(s) => {
                if m.select_live(s as int) {
                    let sel = m.selects[s as int];
                    let m1 = m.with_select(
                        s as int,
                        SelectModel { ready: sel.ready.push(it.src), trigger: None },
                    );
                    match sel.trigger {
                        Some(t) => {
                            let stepped = m1.finish_step(t as int, Status::Fired);
                            run_wake(stepped.0, rest + stepped.1)
                        },
                        None => run_wake(m1, rest),
                    }
                } else {
                    run_wake(m, rest)
                }
            },
            Wake::Barrier(b) => {
                if m.barrier_live(b as int) {
                    let bar = m.barriers[b as int];
                    if bar.remaining == 1 {
                        let m1 = m.with_barrier(
                            b as int,
                            BarrierModel { remaining: 0, triggers: Seq::empty() },
                        );
                        let fired = fire_all(m1, bar.triggers);
                        run_wake(fired.0, rest + fired.1)
                    } else {
                        let m1 = m.with_barrier(
                            b as int,
                            BarrierModel { remaining: dec(bar.remaining), triggers: bar.triggers },
                        );
                        run_wake(m1, rest)
                    }
                } else {
                    run_wake(m, rest)
                }
            },
        }
    }
}

impl HubModel {
    /// A freshly allocated cell: pending, one producer plus one consumer
    /// reference, no waiters.
    pub open spec fn alloc_cell(self) -> HubModel {
        HubModel {
            cells: self.cells.push(
                CellModel { status: Status::Pending, refs: 2, has_pulse: true, waiters: Seq::empty() },
            ),
            ..self
        }
    }

    /// One more consumer handle on cell `c`.
    pub open spec fn retain_cell(self, c: int) -> HubModel {
        self.with_cell(c, CellModel { refs: (self.cells[c].refs + 1) as nat, ..self.cells[c] })
    }

    /// One handle on cell `c` is gone.  The cell is logically deallocated
    /// when the count reaches zero; a dead cell stays dead.
    pub open spec fn release_cell(self, c: int) -> HubModel {
        self.with_cell(c, CellModel { refs: dec(self.cells[c].refs), ..self.cells[c] })
    }

    /// The producer fires cell `c`: terminal state `Fired`, producer
    /// reference consumed, every waiter resumed through the cascade.
    pub open spec fn fire_cell(self, c: int) -> HubModel {
        let stepped = self.finish_step(c, Status::Fired);
        run_wake(stepped.0, stepped.1)
    }

    /// The producer abandons cell `c` unfired: terminal state `Closed`,
    /// otherwise exactly like firing.
    pub open spec fn close_cell(self, c: int) -> HubModel {
        let stepped = self.finish_step(c, Status::Closed);
        run_wake(stepped.0, stepped.1)
    }

    /// Register a waiter on cell `c` under a fresh id.  On a cell that is
    /// already terminal the whole waiter list - including the new node - is
    /// resumed at once, so a late registration never waits forever.
    pub open spec fn arm_cell(self, c: int, wake: Wake) -> HubModel {
        if !self.cell_live(c) {
            self
        } else {
            let node = WaitNode { id: self.node_ctr, wake };
            let cm = self.cells[c];
            let queued = cm.waiters.push(node);
            let m1 = HubModel {
                node_ctr: (self.node_ctr + 1) as u64,
                ..self.with_cell(c, CellModel { waiters: queued, ..cm })
            };
            if cm.status is Pending {
                m1
            } else {
                let m2 = m1.with_cell(c, CellModel { waiters: Seq::empty(), ..cm });
                run_wake(
                    m2,
                    queued.map_values(|n: WaitNode| WorkItem { src: c as usize, node: n }),
                )
            }
        }
    }

    /// Remove the waiter registered under `id` from cell `c`, if it is
    /// still queued.  Always safe: after the cell fired the node is gone
    /// and removal is a no-op.
    pub open spec fn disarm_cell(self, c: int, id: u64) -> HubModel {
        if !self.cell_live(c) {
            self
        } else {
            let cm = self.cells[c];
            self.with_cell(c, CellModel { waiters: remove_id(cm.waiters, id), ..cm })
        }
    }

    /// Reset a terminal cell to pending and hand out a fresh producer
    /// reference.  Only reachable when the recycling consumer holds the
    /// sole remaining reference.
    pub open spec fn recycle_cell(self, c: int) -> HubModel {
        self.with_cell(
            c,
            CellModel { status: Status::Pending, refs: 2, has_pulse: true, waiters: Seq::empty() },
        )
    }

    /// A fresh, empty select slot.
    pub open spec fn alloc_select(self) -> HubModel {
        HubModel {
            selects: self.selects.push(SelectModel { ready: Seq::empty(), trigger: None }),
            ..self
        }
    }

    /// The oldest ready id of select `s` is consumed; nothing changes when
    /// none is queued.
    pub open spec fn select_pop_ready(self, s: int) -> HubModel {
        let sel = self.selects[s];
        if sel.ready.len() == 0 {
            self
        } else {
            self.with_select(s, SelectModel { ready: sel.ready.drop_first(), ..sel })
        }
    }

    /// Store cell `t` as the pending-wake trigger of select `s`.  A trigger
    /// stored earlier is dropped unfired, which closes its cell.
    pub open spec fn select_set_trigger(self, s: int, t: usize) -> HubModel {
        let sel = self.selects[s];
        let m1 = self.with_select(s, SelectModel { trigger: Some(t), ..sel });
        match sel.trigger {
            Some(ot) => m1.close_cell(ot as int),
            None => m1,
        }
    }

    /// Take the stored trigger of select `s` out, closing its cell, as when
    /// the select is dismantled.
    pub open spec fn select_clear_trigger(self, s: int) -> HubModel {
        let sel = self.selects[s];
        let m1 = self.with_select(s, SelectModel { trigger: None, ..sel });
        match sel.trigger {
            Some(ot) => m1.close_cell(ot as int),
            None => m1,
        }
    }

    /// A fresh barrier slot over `n` not-yet-terminal inputs.
    pub open spec fn alloc_barrier(self, n: nat) -> HubModel {
        HubModel {
            barriers: self.barriers.push(BarrierModel { remaining: n, triggers: Seq::empty() }),
            ..self
        }
    }

    /// Store cell `t` as one more pending-wake trigger of barrier `b`.
    /// Earlier triggers stay stored: every gate handed out by `signal`
    /// fires on the same 1 -> 0 transition.
    pub open spec fn barrier_push_trigger(self, b: int, t: usize) -> HubModel {
        let bar = self.barriers[b];
        self.with_barrier(b, BarrierModel { triggers: bar.triggers.push(t), ..bar })
    }

    /// Take every stored trigger of barrier `b` out, closing each one's
    /// cell, as dismantling the barrier does.
    pub open spec fn barrier_clear_triggers(self, b: int) -> HubModel {
        let bar = self.barriers[b];
        let m1 = self.with_barrier(b, BarrierModel { triggers: Seq::empty(), ..bar });
        close_all(m1, bar.triggers)
    }

    /// All resumed thread tokens are collected.
    pub open spec fn clear_woken(self) -> HubModel {
        HubModel { woken: Seq::empty(), ..self }
    }

    /// All resumed callback tokens are collected.
    pub open spec fn clear_callbacks(self) -> HubModel {
        HubModel { callbacks: Seq::empty(), ..self }
    }
}

/// The waiter list with every node of the given id removed, order kept.
pub open spec fn remove_id(waiters: Seq<WaitNode>, id: u64) -> Seq<WaitNode>
    decreases waiters.len(),
{
    if waiters.len() == 0 {
        waiters
    } else if waiters.last().id == id {
        remove_id(waiters.drop_last(), id)
    } else {
        remove_id(waiters.drop_last(), id).push(waiters.last())
    }
}

/// Updating one cell changes the pending count exactly by the status change
/// of that cell.
pub proof fn lemma_pending_count_update(cells: Seq<CellModel>, i: int, cm: CellModel)
    requires
        0 <= i < cells.len(),
    ensures
        pending_count(cells.update(i, cm)) + (if cells[i].status is Pending {
            1int
        } else {
            0int
        }) == pending_count(cells) + (if cm.status is Pending {
            1int
        } else {
            0int
        }),
    decreases cells.len(),
{
    let upd = cells.update(i, cm);
    if i == cells.len() - 1 {
        assert(upd.drop_last() =~= cells.drop_last());
    } else {
        assert(upd.drop_last() =~= cells.drop_last().update(i, cm));
        lemma_pending_count_update(cells.drop_last(), i, cm);
    }
}

/// How `finish_step` moves the termination measure: firing a pending cell
/// strictly lowers the pending count; every other case leaves it unchanged
/// and produces no new work.
pub proof fn lemma_finish_step_measure(m: HubModel, c: int, st: Status)
    requires
        !(st is Pending),
    ensures
        m.cell_live(c) && m.cells[c].status is Pending ==> pending_count(
            m.finish_step(c, st).0.cells,
        ) + 1 == pending_count(m.cells),
        !(m.cell_live(c) && m.cells[c].status is Pending) ==> m.finish_step(c, st).0.cells.len()
            == m.cells.len() && pending_count(m.finish_step(c, st).0.cells) == pending_count(
            m.cells,
        ) && m.finish_step(c, st).1 =~= Seq::<WorkItem>::empty(),
{
    if m.cell_live(c) {
        let cm = m.cells[c];
        if cm.status is Pending {
            let cm2 = CellModel {
                status: st,
                refs: dec(cm.refs),
                has_pulse: false,
                waiters: Seq::empty(),
            };
            lemma_pending_count_update(m.cells, c, cm2);
        } else {
            let cm2 = CellModel { refs: dec(cm.refs), has_pulse: false, ..cm };
            lemma_pending_count_update(m.cells, c, cm2);
        }
    }
}

/// What `finish_step` can do to an arbitrary cell: nothing at all to other
/// cells, and at the stepped cell only consume the producer reference and
/// move a pending status to the given terminal one.
pub proof fn lemma_finish_step_frame(m: HubModel, t: int, st: Status, c: int)
    requires
        0 <= c < m.cells.len(),
    ensures
        m.finish_step(t, st).0.cells.len() == m.cells.len(),
        c != t ==> m.finish_step(t, st).0.cells[c] == m.cells[c],
        m.finish_step(t, st).0.cells[c].refs <= m.cells[c].refs,
        !(m.cells[c].status is Pending) ==> m.finish_step(t, st).0.cells[c].status
            == m.cells[c].status,
        !m.cells[c].has_pulse ==> !m.finish_step(t, st).0.cells[c].has_pulse,
        m.finish_step(t, st).0.selects == m.selects,
        m.finish_step(t, st).0.barriers == m.barriers,
        m.finish_step(t, st).0.woken == m.woken,
        m.finish_step(t, st).0.callbacks == m.callbacks,
        m.finish_step(t, st).0.node_ctr == m.node_ctr,
{
}

/// How firing a whole trigger list moves the termination measure: the
/// pending count never rises, and it strictly falls whenever the firing
/// produced any new work.
pub proof fn lemma_fire_all_measure(m: HubModel, ts: Seq<usize>)
    ensures
        fire_all(m, ts).0.cells.len() == m.cells.len(),
        pending_count(fire_all(m, ts).0.cells) <= pending_count(m.cells),
        fire_all(m, ts).1.len() > 0 ==> pending_count(fire_all(m, ts).0.cells) < pending_count(
            m.cells,
        ),
        fire_all(m, ts).0.selects == m.selects,
        fire_all(m, ts).0.barriers == m.barriers,
        fire_all(m, ts).0.woken == m.woken,
        fire_all(m, ts).0.callbacks == m.callbacks,
        fire_all(m, ts).0.node_ctr == m.node_ctr,
    decreases ts.len(),
{
    if ts.len() > 0 {
        let stepped = m.finish_step(ts[0] as int, Status::Fired);
        lemma_finish_step_measure(m, ts[0] as int, Status::Fired);
        if m.cell_live(ts[0] as int) && m.cells[ts[0] as int].status is Pending {
            let cm = m.cells[ts[0] as int];
            let cm2 = CellModel {
                status: Status::Fired,
                refs: dec(cm.refs),
                has_pulse: false,
                waiters: Seq::empty(),
            };
            lemma_pending_count_update(m.cells, ts[0] as int, cm2);
        }
        lemma_fire_all_measure(stepped.0, ts.drop_first());
    }
}

/// Firing a trigger list touches only the cells field, and an arbitrary
/// cell only as `finish_step` allows: references never rise, terminal
/// statuses persist, no producer reference reappears.
pub proof fn lemma_fire_all_frame(m: HubModel, ts: Seq<usize>, c: int)
    requires
        0 <= c < m.cells.len(),
    ensures
        fire_all(m, ts).0.cells.len() == m.cells.len(),
        fire_all(m, ts).0.cells[c].refs <= m.cells[c].refs,
        !(m.cells[c].status is Pending) ==> fire_all(m, ts).0.cells[c].status == m.cells[c].status,
        !m.cells[c].has_pulse ==> !fire_all(m, ts).0.cells[c].has_pulse,
        fire_all(m, ts).0.selects == m.selects,
        fire_all(m, ts).0.barriers == m.barriers,
        fire_all(m, ts).0.woken == m.woken,
        fire_all(m, ts).0.callbacks == m.callbacks,
        fire_all(m, ts).0.node_ctr == m.node_ctr,
    decreases ts.len(),
{
    if ts.len() > 0 {
        let stepped = m.finish_step(ts[0] as int, Status::Fired);
        lemma_finish_step_frame(m, ts[0] as int, Status::Fired, c);
        lemma_fire_all_frame(stepped.0, ts.drop_first(), c);
    }
}

/// Firing a trigger list keeps the structural cell invariant.
proof fn lemma_fire_all_wf(m: HubModel, ts: Seq<usize>)
    requires
        cells_wf(m),
    ensures
        cells_wf(fire_all(m, ts).0),
    decreases ts.len(),
{
    if ts.len() > 0 {
        let stepped = m.finish_step(ts[0] as int, Status::Fired);
        lemma_finish_step_wf(m, ts[0] as int, Status::Fired);
        lemma_fire_all_wf(stepped.0, ts.drop_first());
    }
}

/// Closing a trigger list never allocates or frees a slot and never hands
/// out a waiter id.
pub proof fn lemma_close_all_lens(m: HubModel, ts: Seq<usize>)
    ensures
        close_all(m, ts).cells.len() == m.cells.len(),
        close_all(m, ts).selects.len() == m.selects.len(),
        close_all(m, ts).barriers.len() == m.barriers.len(),
        close_all(m, ts).node_ctr == m.node_ctr,
    decreases ts.len(),
{
    if ts.len() > 0 {
        lemma_op_lens(m, ts[0] as int, Wake::Thread(0), 0);
        lemma_close_all_lens(m.close_cell(ts[0] as int), ts.drop_first());
    }
}

/// Closing a trigger list keeps terminal statuses and dead cells intact.
pub proof fn lemma_close_all_stable(m: HubModel, ts: Seq<usize>, c: int)
    requires
        0 <= c < m.cells.len(),
    ensures
        close_all(m, ts).cells.len() == m.cells.len(),
        !(m.cells[c].status is Pending) ==> close_all(m, ts).cells[c].status == m.cells[c].status,
        m.cells[c].refs == 0 ==> close_all(m, ts).cells[c].refs == 0,
    decreases ts.len(),
{
    if ts.len() > 0 {
        let m1 = m.close_cell(ts[0] as int);
        lemma_op_lens(m, ts[0] as int, Wake::Thread(0), 0);
        if !(m.cells[c].status is Pending) {
            lemma_terminal_is_stable(m, ts[0] as int, Wake::Thread(0), c);
        }
        if m.cells[c].refs == 0 {
            lemma_dead_cell_stays_dead(m, ts[0] as int, Wake::Thread(0), c);
        }
        lemma_close_all_stable(m1, ts.drop_first(), c);
    }
}

/// Closing a trigger list keeps the structural cell invariant.
proof fn lemma_close_all_wf(m: HubModel, ts: Seq<usize>)
    requires
        cells_wf(m),
    ensures
        cells_wf(close_all(m, ts)),
    decreases ts.len(),
{
    if ts.len() > 0 {
        lemma_finish_step_wf(m, ts[0] as int, Status::Closed);
        let stepped = m.finish_step(ts[0] as int, Status::Closed);
        lemma_run_wake_wf(stepped.0, stepped.1);
        lemma_close_all_wf(m.close_cell(ts[0] as int), ts.drop_first());
    }
}

/// The wake cascade never grows the cell table, never revives a dead cell,
/// never reverts a terminal status, and never hands out a new producer
/// reference.
pub proof fn lemma_run_wake_frame(m: HubModel, work: Seq<WorkItem>, c: int)
    requires
        0 <= c < m.cells.len(),
    ensures
        run_wake(m, work).cells.len() == m.cells.len(),
        run_wake(m, work).cells[c].refs <= m.cells[c].refs,
        !(m.cells[c].status is Pending) ==> run_wake(m, work).cells[c].status == m.cells[c].status,
        !m.cells[c].has_pulse ==> !run_wake(m, work).cells[c].has_pulse,
    decreases pending_count(m.cells), work.len(),
{
    if work.len() > 0 {
        let it = work.last();
        let rest = work.drop_last();
        match it.node.wake {
            Wake::Thread(tok) => {
                lemma_run_wake_frame(HubModel { woken: m.woken.push(tok), ..m }, rest, c);
            },
            Wake::Callback(tok) => {
                lemma_run_wake_frame(HubModel { callbacks: m.callbacks.push(tok), ..m }, rest, c);
            },
            Wake::Select(s) => {
                if m.select_live(s as int) {
                    let sel = m.selects[s as int];
                    let m1 = m.with_select(
                        s as int,
                        SelectModel { ready: sel.ready.push(it.src), trigger: None },
                    );
                    match sel.trigger {
                        Some(t) => {
                            let stepped = m1.finish_step(t as int, Status::Fired);
                            lemma_finish_step_measure(m1, t as int, Status::Fired);
                            lemma_finish_step_frame(m1, t as int, Status::Fired, c);
                            lemma_run_wake_frame(stepped.0, rest + stepped.1, c);
                        },
                        None => {
                            lemma_run_wake_frame(m1, rest, c);
                        },
                    }
                } else {
                    lemma_run_wake_frame(m, rest, c);
                }
            },
            Wake::Barrier(b) => {
                if m.barrier_live(b as int) {
                    let bar = m.barriers[b as int];
                    if bar.remaining == 1 {
                        let m1 = m.with_barrier(
                            b as int,
                            BarrierModel { remaining: 0, triggers: Seq::empty() },
                        );
                        let fired = fire_all(m1, bar.triggers);
                        lemma_fire_all_measure(m1, bar.triggers);
                        lemma_fire_all_frame(m1, bar.triggers, c);
                        lemma_run_wake_frame(fired.0, rest + fired.1, c);
                    } else {
                        let m1 = m.with_barrier(
                            b as int,
                            BarrierModel { remaining: dec(bar.remaining), triggers: bar.triggers },
                        );
                        lemma_run_wake_frame(m1, rest, c);
                    }
                } else {
                    lemma_run_wake_frame(m, rest, c);
                }
            },
        }
    }
}

/// Arm several cells with the same wake action, front first, as a barrier
/// constructor does.
pub open spec fn arm_all(m: HubModel, ids: Seq<int>, wake: Wake) -> HubModel
    decreases ids.len(),
{
    if ids.len() == 0 {
        m
    } else {
        arm_all(m.arm_cell(ids[0], wake), ids.drop_first(), wake)
    }
}

/// Remove several registered waiters, front first, as dismantling a select
/// or a barrier does.
pub open spec fn disarm_all(m: HubModel, entries: Seq<(int, u64)>) -> HubModel
    decreases entries.len(),
{
    if entries.len() == 0 {
        m
    } else {
        disarm_all(m.disarm_cell(entries[0].0, entries[0].1), entries.drop_first())
    }
}

/// The wake cascade never allocates or frees slots and never hands out a
/// waiter id.
pub proof fn lemma_run_wake_lens(m: HubModel, work: Seq<WorkItem>)
    ensures
        run_wake(m, work).cells.len() == m.cells.len(),
        run_wake(m, work).selects.len() == m.selects.len(),
        run_wake(m, work).barriers.len() == m.barriers.len(),
        run_wake(m, work).node_ctr == m.node_ctr,
    decreases pending_count(m.cells), work.len(),
{
    if work.len() > 0 {
        let it = work.last();
        let rest = work.drop_last();
        match it.node.wake {
            Wake::Thread(tok) => {
                lemma_run_wake_lens(HubModel { woken: m.woken.push(tok), ..m }, rest);
            },
            Wake::Callback(tok) => {
                lemma_run_wake_lens(HubModel { callbacks: m.callbacks.push(tok), ..m }, rest);
            },
            Wake::Select(s) => {
                if m.select_live(s as int) {
                    let sel = m.selects[s as int];
                    let m1 = m.with_select(
                        s as int,
                        SelectModel { ready: sel.ready.push(it.src), trigger: None },
                    );
                    match sel.trigger {
                        Some(t) => {
                            let stepped = m1.finish_step(t as int, Status::Fired);
                            lemma_finish_step_measure(m1, t as int, Status::Fired);
                            lemma_run_wake_lens(stepped.0, rest + stepped.1);
                        },
                        None => {
                            lemma_run_wake_lens(m1, rest);
                        },
                    }
                } else {
                    lemma_run_wake_lens(m, rest);
                }
            },
            Wake::Barrier(b) => {
                if m.barrier_live(b as int) {
                    let bar = m.barriers[b as int];
                    if bar.remaining == 1 {
                        let m1 = m.with_barrier(
                            b as int,
                            BarrierModel { remaining: 0, triggers: Seq::empty() },
                        );
                        let fired = fire_all(m1, bar.triggers);
                        lemma_fire_all_measure(m1, bar.triggers);
                        lemma_run_wake_lens(fired.0, rest + fired.1);
                    } else {
                        let m1 = m.with_barrier(
                            b as int,
                            BarrierModel { remaining: dec(bar.remaining), triggers: bar.triggers },
                        );
                        lemma_run_wake_lens(m1, rest);
                    }
                } else {
                    lemma_run_wake_lens(m, rest);
                }
            },
        }
    }
}

/// Slot-count and waiter-id bookkeeping of the main hub operations: firing,
/// closing, arming and disarming never allocate or free a slot, and only a
/// live arming consumes exactly one waiter id.
pub proof fn lemma_op_lens(m: HubModel, c: int, wake: Wake, id: u64)
    ensures
        m.fire_cell(c).cells.len() == m.cells.len(),
        m.fire_cell(c).selects.len() == m.selects.len(),
        m.fire_cell(c).barriers.len() == m.barriers.len(),
        m.fire_cell(c).node_ctr == m.node_ctr,
        m.close_cell(c).cells.len() == m.cells.len(),
        m.close_cell(c).selects.len() == m.selects.len(),
        m.close_cell(c).barriers.len() == m.barriers.len(),
        m.close_cell(c).node_ctr == m.node_ctr,
        m.arm_cell(c, wake).cells.len() == m.cells.len(),
        m.arm_cell(c, wake).selects.len() == m.selects.len(),
        m.arm_cell(c, wake).barriers.len() == m.barriers.len(),
        m.cell_live(c) && m.node_ctr < u64::MAX ==> m.arm_cell(c, wake).node_ctr == m.node_ctr
            + 1,
        !m.cell_live(c) ==> m.arm_cell(c, wake).node_ctr == m.node_ctr,
        m.disarm_cell(c, id).cells.len() == m.cells.len(),
        m.disarm_cell(c, id).selects.len() == m.selects.len(),
        m.disarm_cell(c, id).barriers.len() == m.barriers.len(),
        m.disarm_cell(c, id).node_ctr == m.node_ctr,
{
    let f = m.finish_step(c, Status::Fired);
    lemma_run_wake_lens(f.0, f.1);
    let g = m.finish_step(c, Status::Closed);
    lemma_run_wake_lens(g.0, g.1);
    if m.cell_live(c) {
        let node = WaitNode { id: m.node_ctr, wake };
        let cm = m.cells[c];
        let queued = cm.waiters.push(node);
        let m1 = HubModel {
            node_ctr: (m.node_ctr + 1) as u64,
            ..m.with_cell(c, CellModel { waiters: queued, ..cm })
        };
        if !(cm.status is Pending) {
            let m2 = m1.with_cell(c, CellModel { waiters: Seq::empty(), ..cm });
            lemma_run_wake_lens(
                m2,
                queued.map_values(|n: WaitNode| WorkItem { src: c as usize, node: n }),
            );
        }
    }
}

/// Storing or clearing a pending-wake trigger never allocates or frees a
/// slot and never hands out a waiter id, whatever closing displaced or
/// dismantled triggers sets off.
pub proof fn lemma_trigger_ops_lens(m: HubModel, s: int, t: usize)
    ensures
        m.select_live(s) ==> m.select_set_trigger(s, t).cells.len() == m.cells.len()
            && m.select_set_trigger(s, t).selects.len() == m.selects.len()
            && m.select_set_trigger(s, t).barriers.len() == m.barriers.len()
            && m.select_set_trigger(s, t).node_ctr == m.node_ctr,
        m.select_live(s) ==> m.select_clear_trigger(s).cells.len() == m.cells.len()
            && m.select_clear_trigger(s).selects.len() == m.selects.len()
            && m.select_clear_trigger(s).barriers.len() == m.barriers.len()
            && m.select_clear_trigger(s).node_ctr == m.node_ctr,
        m.barrier_live(s) ==> m.barrier_push_trigger(s, t).cells.len() == m.cells.len()
            && m.barrier_push_trigger(s, t).selects.len() == m.selects.len()
            && m.barrier_push_trigger(s, t).barriers.len() == m.barriers.len()
            && m.barrier_push_trigger(s, t).node_ctr == m.node_ctr,
        m.barrier_live(s) ==> m.barrier_clear_triggers(s).cells.len() == m.cells.len()
            && m.barrier_clear_triggers(s).selects.len() == m.selects.len()
            && m.barrier_clear_triggers(s).barriers.len() == m.barriers.len()
            && m.barrier_clear_triggers(s).node_ctr == m.node_ctr,
{
    if m.select_live(s) {
        let sel = m.selects[s];
        let m1 = m.with_select(s, SelectModel { trigger: Some(t), ..sel });
        let m2 = m.with_select(s, SelectModel { trigger: None, ..sel });
        match sel.trigger {
            Some(ot) => {
                lemma_op_lens(m1, ot as int, Wake::Thread(0), 0);
                lemma_op_lens(m2, ot as int, Wake::Thread(0), 0);
            },
            None => {},
        }
    }
    if m.barrier_live(s) {
        let bar = m.barriers[s];
        let m2 = m.with_barrier(s, BarrierModel { triggers: Seq::empty(), ..bar });
        lemma_close_all_lens(m2, bar.triggers);
    }
}

/// Law: a terminal status is permanent.  Firing, closing or arming any cell
/// never reverts an already-terminal cell to pending, nor flips it to the
/// other terminal state; only an explicit recycle resets a cell.
pub proof fn lemma_terminal_is_stable(m: HubModel, i: int, wake: Wake, c: int)
    requires
        0 <= c < m.cells.len(),
        !(m.cells[c].status is Pending),
    ensures
        m.fire_cell(i).cells[c].status == m.cells[c].status,
        m.close_cell(i).cells[c].status == m.cells[c].status,
        m.arm_cell(i, wake).cells[c].status == m.cells[c].status,
{
    lemma_finish_step_frame(m, i, Status::Fired, c);
    let f = m.finish_step(i, Status::Fired);
    lemma_run_wake_frame(f.0, f.1, c);
    lemma_finish_step_frame(m, i, Status::Closed, c);
    let g = m.finish_step(i, Status::Closed);
    lemma_run_wake_frame(g.0, g.1, c);
    if m.cell_live(i) {
        let node = WaitNode { id: m.node_ctr, wake };
        let cm = m.cells[i];
        let queued = cm.waiters.push(node);
        let m1 = HubModel {
            node_ctr: (m.node_ctr + 1) as u64,
            ..m.with_cell(i, CellModel { waiters: queued, ..cm })
        };
        if !(cm.status is Pending) {
            let m2 = m1.with_cell(i, CellModel { waiters: Seq::empty(), ..cm });
            lemma_run_wake_frame(
                m2,
                queued.map_values(|n: WaitNode| WorkItem { src: i as usize, node: n }),
                c,
            );
        }
    }
}

/// Law: a dead cell stays dead.  Once the reference count of a cell has
/// reached zero - the moment of its logical deallocation - no firing,
/// closing or arming anywhere in the hub revives it or frees it again.
pub proof fn lemma_dead_cell_stays_dead(m: HubModel, i: int, wake: Wake, c: int)
    requires
        0 <= c < m.cells.len(),
        m.cells[c].refs == 0,
    ensures
        m.fire_cell(i).cells[c].refs == 0,
        m.close_cell(i).cells[c].refs == 0,
        m.arm_cell(i, wake).cells[c].refs == 0,
        m.release_cell(c).cells[c].refs == 0,
{
    lemma_finish_step_frame(m, i, Status::Fired, c);
    let f = m.finish_step(i, Status::Fired);
    lemma_run_wake_frame(f.0, f.1, c);
    lemma_finish_step_frame(m, i, Status::Closed, c);
    let g = m.finish_step(i, Status::Closed);
    lemma_run_wake_frame(g.0, g.1, c);
    if m.cell_live(i) {
        let node = WaitNode { id: m.node_ctr, wake };
        let cm = m.cells[i];
        let queued = cm.waiters.push(node);
        let m1 = HubModel {
            node_ctr: (m.node_ctr + 1) as u64,
            ..m.with_cell(i, CellModel { waiters: queued, ..cm })
        };
        if !(cm.status is Pending) {
            let m2 = m1.with_cell(i, CellModel { waiters: Seq::empty(), ..cm });
            lemma_run_wake_frame(
                m2,
                queued.map_values(|n: WaitNode| WorkItem { src: i as usize, node: n }),
                c,
            );
        }
    }
}

/// Law: firing a pending cell leaves it `Fired`, and closing it leaves it
/// `Closed`, whatever cascade the termination sets off.  Together with the
/// exact contract of `wait`, this pins down that a consumer observes `Ok`
/// exactly when the producer fired and `Err` exactly when it was dropped
/// unfired.
pub proof fn lemma_terminal_outcome(m: HubModel, i: int)
    requires
        m.cell_live(i),
        m.cells[i].status is Pending,
    ensures
        m.fire_cell(i).cells[i].status is Fired,
        m.close_cell(i).cells[i].status is Closed,
        !m.fire_cell(i).cells[i].has_pulse,
        !m.close_cell(i).cells[i].has_pulse,
{
    let f = m.finish_step(i, Status::Fired);
    lemma_run_wake_frame(f.0, f.1, i);
    let g = m.finish_step(i, Status::Closed);
    lemma_run_wake_frame(g.0, g.1, i);
}

/// Law: the trigger-storing operations keep terminal statuses and dead
/// cells intact as well, whatever closing the displaced trigger sets off.
pub proof fn lemma_trigger_ops_stable(m: HubModel, s: int, t: usize, c: int)
    requires
        0 <= c < m.cells.len(),
    ensures
        !(m.cells[c].status is Pending) ==> {
            &&& m.select_set_trigger(s, t).cells[c].status == m.cells[c].status
            &&& m.select_clear_trigger(s).cells[c].status == m.cells[c].status
            &&& m.barrier_push_trigger(s, t).cells[c].status == m.cells[c].status
            &&& m.barrier_clear_triggers(s).cells[c].status == m.cells[c].status
        },
        m.cells[c].refs == 0 ==> {
            &&& m.select_set_trigger(s, t).cells[c].refs == 0
            &&& m.select_clear_trigger(s).cells[c].refs == 0
            &&& m.barrier_push_trigger(s, t).cells[c].refs == 0
            &&& m.barrier_clear_triggers(s).cells[c].refs == 0
        },
{
    let sel = m.selects[s];
    let ms1 = m.with_select(s, SelectModel { trigger: Some(t), ..sel });
    let ms2 = m.with_select(s, SelectModel { trigger: None, ..sel });
    match sel.trigger {
        Some(ot) => {
            if !(m.cells[c].status is Pending) {
                lemma_terminal_is_stable(ms1, ot as int, Wake::Thread(0), c);
                lemma_terminal_is_stable(ms2, ot as int, Wake::Thread(0), c);
            }
            if m.cells[c].refs == 0 {
                lemma_dead_cell_stays_dead(ms1, ot as int, Wake::Thread(0), c);
                lemma_dead_cell_stays_dead(ms2, ot as int, Wake::Thread(0), c);
            }
        },
        None => {},
    }
    let bar = m.barriers[s];
    let mb2 = m.with_barrier(s, BarrierModel { triggers: Seq::empty(), ..bar });
    lemma_close_all_stable(mb2, bar.triggers, c);
}

/// One step a hub can take: the model form of each executable operation.
/// Used to state laws over arbitrary sequences of operations.
pub enum HubOp {
    Alloc,
    Retain(int),
    Release(int),
    Fire(int),
    Close(int),
    Arm(int, Wake),
    Disarm(int, u64),
    Recycle(int),
    AllocSelect,
    PopReady(int),
    SetSelectTrigger(int, usize),
    ClearSelectTrigger(int),
    AllocBarrier(nat),
    PushBarrierTrigger(int, usize),
    ClearBarrierTriggers(int),
    ClearWoken,
    ClearCallbacks,
}

impl HubOp {
    /// The step's effect on the hub; a step aimed at a slot that does not
    /// exist changes nothing, as the executable operations demand of their
    /// callers anyway.
    pub open spec fn apply(self, m: HubModel) -> HubModel {
        match self {
            HubOp::Alloc => m.alloc_cell(),
            HubOp::Retain(c) => if m.cell_live(c) {
                m.retain_cell(c)
            } else {
                m
            },
            HubOp::Release(c) => if m.cell_live(c) {
                m.release_cell(c)
            } else {
                m
            },
            HubOp::Fire(c) => m.fire_cell(c),
            HubOp::Close(c) => m.close_cell(c),
            HubOp::Arm(c, wake) => m.arm_cell(c, wake),
            HubOp::Disarm(c, id) => m.disarm_cell(c, id),
            HubOp::Recycle(c) => if m.cell_live(c) {
                m.recycle_cell(c)
            } else {
                m
            },
            HubOp::AllocSelect => m.alloc_select(),
            HubOp::PopReady(s) => if m.select_live(s) {
                m.select_pop_ready(s)
            } else {
                m
            },
            HubOp::SetSelectTrigger(s, t) => if m.select_live(s) {
                m.select_set_trigger(s, t)
            } else {
                m
            },
            HubOp::ClearSelectTrigger(s) => if m.select_live(s) {
                m.select_clear_trigger(s)
            } else {
                m
            },
            HubOp::AllocBarrier(n) => m.alloc_barrier(n),
            HubOp::PushBarrierTrigger(b, t) => if m.barrier_live(b) {
                m.barrier_push_trigger(b, t)
            } else {
                m
            },
            HubOp::ClearBarrierTriggers(b) => if m.barrier_live(b) {
                m.barrier_clear_triggers(b)
            } else {
                m
            },
            HubOp::ClearWoken => m.clear_woken(),
            HubOp::ClearCallbacks => m.clear_callbacks(),
        }
    }

    /// Whether the step is the explicit recycle of cell `c`: the one step
    /// allowed to take a terminal cell back to pending.
    pub open spec fn recycles(self, c: int) -> bool {
        self == HubOp::Recycle(c)
    }

    /// Whether the step can put a reference back on cell `c`.  No such step
    /// can be reached for a dead cell: a retain needs a live handle, which
    /// a dead cell no longer has, and a recycle demands that its caller is
    /// the one remaining reference.
    pub open spec fn revives(self, c: int) -> bool {
        self == HubOp::Retain(c) || self == HubOp::Recycle(c)
    }
}

/// A sequence of steps, applied front first.
pub open spec fn apply_ops(m: HubModel, ops: Seq<HubOp>) -> HubModel
    decreases ops.len(),
{
    if ops.len() == 0 {
        m
    } else {
        apply_ops(ops[0].apply(m), ops.drop_first())
    }
}

/// Every step keeps cell `c` a real slot of the hub.
proof fn lemma_op_keeps_cell(m: HubModel, op: HubOp, c: int)
    requires
        0 <= c < m.cells.len(),
    ensures
        0 <= c < op.apply(m).cells.len(),
{
    match op {
        HubOp::Fire(i) => {
            lemma_op_lens(m, i, Wake::Thread(0), 0);
        },
        HubOp::Close(i) => {
            lemma_op_lens(m, i, Wake::Thread(0), 0);
        },
        HubOp::Arm(i, wake) => {
            lemma_op_lens(m, i, wake, 0);
        },
        HubOp::Disarm(i, id) => {
            lemma_op_lens(m, i, Wake::Thread(0), id);
        },
        HubOp::SetSelectTrigger(s, t) => {
            lemma_trigger_ops_lens(m, s, t);
        },
        HubOp::ClearSelectTrigger(s) => {
            lemma_trigger_ops_lens(m, s, 0);
        },
        HubOp::PushBarrierTrigger(b, t) => {
            lemma_trigger_ops_lens(m, b, t);
        },
        HubOp::ClearBarrierTriggers(b) => {
            lemma_trigger_ops_lens(m, b, 0);
        },
        _ => {},
    }
}

/// Law: a terminal state never reverts without an explicit recycle.  Under
/// every sequence of operations on the hub - firing, closing, arming,
/// disarming, cloning, releasing, recycling other cells, any select or
/// barrier traffic - a cell that has reached `Fired` or `Closed` still
/// shows exactly that status, as long as no step is the recycle of that
/// very cell.  In particular `is_pending` answers false after termination,
/// however often and wherever it is asked.
pub proof fn lemma_terminal_stable_under_ops(m: HubModel, ops: Seq<HubOp>, c: int)
    requires
        0 <= c < m.cells.len(),
        !(m.cells[c].status is Pending),
        forall|k: int| 0 <= k < ops.len() ==> !(#[trigger] ops[k]).recycles(c),
    ensures
        0 <= c < apply_ops(m, ops).cells.len(),
        apply_ops(m, ops).cells[c].status == m.cells[c].status,
    decreases ops.len(),
{
    if ops.len() > 0 {
        let op = ops[0];
        let m1 = op.apply(m);
        lemma_op_keeps_cell(m, op, c);
        match op {
            HubOp::Fire(i) => {
                lemma_terminal_is_stable(m, i, Wake::Thread(0), c);
            },
            HubOp::Close(i) => {
                lemma_terminal_is_stable(m, i, Wake::Thread(0), c);
            },
            HubOp::Arm(i, wake) => {
                lemma_terminal_is_stable(m, i, wake, c);
            },
            HubOp::SetSelectTrigger(s, t) => {
                lemma_trigger_ops_stable(m, s, t, c);
            },
            HubOp::ClearSelectTrigger(s) => {
                lemma_trigger_ops_stable(m, s, 0, c);
            },
            HubOp::PushBarrierTrigger(b, t) => {
                lemma_trigger_ops_stable(m, b, t, c);
            },
            HubOp::ClearBarrierTriggers(b) => {
                lemma_trigger_ops_stable(m, b, 0, c);
            },
            _ => {},
        }
        assert(m1.cells[c].status == m.cells[c].status);
        lemma_terminal_stable_under_ops(m1, ops.drop_first(), c);
    }
}

/// Law: the reference count of a cell reaches zero at most once.  Zero is
/// the moment of the cell's logical deallocation, and under every sequence
/// of operations that does not retain or recycle that cell - neither step
/// is reachable once no handle on it remains - the count stays zero: the
/// dead cell is never freed a second time and never revived.
pub proof fn lemma_dead_under_ops(m: HubModel, ops: Seq<HubOp>, c: int)
    requires
        0 <= c < m.cells.len(),
        m.cells[c].refs == 0,
        forall|k: int| 0 <= k < ops.len() ==> !(#[trigger] ops[k]).revives(c),
    ensures
        0 <= c < apply_ops(m, ops).cells.len(),
        apply_ops(m, ops).cells[c].refs == 0,
    decreases ops.len(),
{
    if ops.len() > 0 {
        let op = ops[0];
        let m1 = op.apply(m);
        lemma_op_keeps_cell(m, op, c);
        match op {
            HubOp::Fire(i) => {
                lemma_dead_cell_stays_dead(m, i, Wake::Thread(0), c);
            },
            HubOp::Close(i) => {
                lemma_dead_cell_stays_dead(m, i, Wake::Thread(0), c);
            },
            HubOp::Arm(i, wake) => {
                lemma_dead_cell_stays_dead(m, i, wake, c);
            },
            HubOp::SetSelectTrigger(s, t) => {
                lemma_trigger_ops_stable(m, s, t, c);
            },
            HubOp::ClearSelectTrigger(s) => {
                lemma_trigger_ops_stable(m, s, 0, c);
            },
            HubOp::PushBarrierTrigger(b, t) => {
                lemma_trigger_ops_stable(m, b, t, c);
            },
            HubOp::ClearBarrierTriggers(b) => {
                lemma_trigger_ops_stable(m, b, 0, c);
            },
            _ => {},
        }
        assert(m1.cells[c].refs == 0);
        lemma_dead_under_ops(m1, ops.drop_first(), c);
    }
}

/// The structural invariant of one cell: the producer reference is
/// outstanding exactly while the cell is pending, and a terminal cell's
/// waiter list has been drained.
pub open spec fn cell_wf(cm: CellModel) -> bool {
    &&& (cm.status is Pending <==> cm.has_pulse)
    &&& (!(cm.status is Pending) ==> cm.waiters == Seq::<WaitNode>::empty())
}

/// The structural invariant of the whole hub.
pub open spec fn cells_wf(m: HubModel) -> bool {
    forall|c: int| 0 <= c < m.cells.len() ==> cell_wf(#[trigger] m.cells[c])
}

proof fn lemma_finish_step_wf(m: HubModel, t: int, st: Status)
    requires
        cells_wf(m),
        !(st is Pending),
    ensures
        cells_wf(m.finish_step(t, st).0),
{
    let m1 = m.finish_step(t, st).0;
    assert forall|c: int| 0 <= c < m1.cells.len() implies cell_wf(m1.cells[c]) by {
        lemma_finish_step_frame(m, t, st, c);
        if c == t && m.cell_live(t) {
            assert(cell_wf(m.cells[t]));
        }
    }
}

/// The wake cascade preserves the structural invariant: firing a trigger
/// drains its waiters in the same step that makes it terminal.
proof fn lemma_run_wake_wf(m: HubModel, work: Seq<WorkItem>)
    requires
        cells_wf(m),
    ensures
        cells_wf(run_wake(m, work)),
    decreases pending_count(m.cells), work.len(),
{
    if work.len() > 0 {
        let it = work.last();
        let rest = work.drop_last();
        match it.node.wake {
            Wake::Thread(tok) => {
                lemma_run_wake_wf(HubModel { woken: m.woken.push(tok), ..m }, rest);
            },
            Wake::Callback(tok) => {
                lemma_run_wake_wf(HubModel { callbacks: m.callbacks.push(tok), ..m }, rest);
            },
            Wake::Select(s) => {
                if m.select_live(s as int) {
                    let sel = m.selects[s as int];
                    let m1 = m.with_select(
                        s as int,
                        SelectModel { ready: sel.ready.push(it.src), trigger: None },
                    );
                    match sel.trigger {
                        Some(t) => {
                            let stepped = m1.finish_step(t as int, Status::Fired);
                            lemma_finish_step_measure(m1, t as int, Status::Fired);
                            lemma_finish_step_wf(m1, t as int, Status::Fired);
                            lemma_run_wake_wf(stepped.0, rest + stepped.1);
                        },
                        None => {
                            lemma_run_wake_wf(m1, rest);
                        },
                    }
                } else {
                    lemma_run_wake_wf(m, rest);
                }
            },
            Wake::Barrier(b) => {
                if m.barrier_live(b as int) {
                    let bar = m.barriers[b as int];
                    if bar.remaining == 1 {
                        let m1 = m.with_barrier(
                            b as int,
                            BarrierModel { remaining: 0, triggers: Seq::empty() },
                        );
                        let fired = fire_all(m1, bar.triggers);
                        lemma_fire_all_measure(m1, bar.triggers);
                        lemma_fire_all_wf(m1, bar.triggers);
                        lemma_run_wake_wf(fired.0, rest + fired.1);
                    } else {
                        let m1 = m.with_barrier(
                            b as int,
                            BarrierModel { remaining: dec(bar.remaining), triggers: bar.triggers },
                        );
                        lemma_run_wake_wf(m1, rest);
                    }
                } else {
                    lemma_run_wake_wf(m, rest);
                }
            },
        }
    }
}

/// Removing a waiter from an empty list leaves it empty.
proof fn lemma_remove_id_empty(id: u64)
    ensures
        remove_id(Seq::<WaitNode>::empty(), id) == Seq::<WaitNode>::empty(),
{
}

/// Law: the structural invariant holds in every reachable hub state.  It
/// holds of the empty hub, and every operation preserves it: a producer
/// reference exists exactly while its cell is pending - so each terminal
/// flag is set at most once between recycles - and a cell that terminated
/// has resumed all its waiters.
pub proof fn lemma_op_preserves_wf(m: HubModel, op: HubOp)
    requires
        cells_wf(m),
    ensures
        cells_wf(op.apply(m)),
{
    let m1 = op.apply(m);
    match op {
        HubOp::Fire(i) => {
            lemma_finish_step_wf(m, i, Status::Fired);
            let stepped = m.finish_step(i, Status::Fired);
            lemma_run_wake_wf(stepped.0, stepped.1);
        },
        HubOp::Close(i) => {
            lemma_finish_step_wf(m, i, Status::Closed);
            let stepped = m.finish_step(i, Status::Closed);
            lemma_run_wake_wf(stepped.0, stepped.1);
        },
        HubOp::Arm(i, wake) => {
            if m.cell_live(i) {
                let node = WaitNode { id: m.node_ctr, wake };
                let cm = m.cells[i];
                let queued = cm.waiters.push(node);
                let ma = HubModel {
                    node_ctr: (m.node_ctr + 1) as u64,
                    ..m.with_cell(i, CellModel { waiters: queued, ..cm })
                };
                if cm.status is Pending {
                    assert(cells_wf(ma));
                } else {
                    let mb = ma.with_cell(i, CellModel { waiters: Seq::empty(), ..cm });
                    assert(cells_wf(mb));
                    lemma_run_wake_wf(
                        mb,
                        queued.map_values(|n: WaitNode| WorkItem { src: i as usize, node: n }),
                    );
                }
            }
        },
        HubOp::Disarm(i, id) => {
            if m.cell_live(i) {
                if !(m.cells[i].status is Pending) {
                    lemma_remove_id_empty(id);
                }
                assert(cells_wf(m1));
            }
        },
        HubOp::SetSelectTrigger(s, t) => {
            if m.select_live(s) {
                let sel = m.selects[s];
                let ma = m.with_select(s, SelectModel { trigger: Some(t), ..sel });
                match sel.trigger {
                    Some(ot) => {
                        lemma_finish_step_wf(ma, ot as int, Status::Closed);
                        let stepped = ma.finish_step(ot as int, Status::Closed);
                        lemma_run_wake_wf(stepped.0, stepped.1);
                    },
                    None => {},
                }
            }
        },
        HubOp::ClearSelectTrigger(s) => {
            if m.select_live(s) {
                let sel = m.selects[s];
                let ma = m.with_select(s, SelectModel { trigger: None, ..sel });
                match sel.trigger {
                    Some(ot) => {
                        lemma_finish_step_wf(ma, ot as int, Status::Closed);
                        let stepped = ma.finish_step(ot as int, Status::Closed);
                        lemma_run_wake_wf(stepped.0, stepped.1);
                    },
                    None => {},
                }
            }
        },
        HubOp::PushBarrierTrigger(b, t) => {
        },
        HubOp::ClearBarrierTriggers(b) => {
            if m.barrier_live(b) {
                let bar = m.barriers[b];
                let ma = m.with_barrier(b, BarrierModel { triggers: Seq::empty(), ..bar });
                lemma_close_all_wf(ma, bar.triggers);
            }
        },
        _ => {},
    }
}

/// Law: the structural invariant holds under every sequence of operations,
/// starting from any state that satisfies it - in particular from the
/// empty hub.
pub proof fn lemma_ops_preserve_wf(m: HubModel, ops: Seq<HubOp>)
    requires
        cells_wf(m),
    ensures
        cells_wf(apply_ops(m, ops)),
    decreases ops.len(),
{
    if ops.len() > 0 {
        lemma_op_preserves_wf(m, ops[0]);
        lemma_ops_preserve_wf(ops[0].apply(m), ops.drop_first());
    }
}

/// Every item of a work stack was queued by the termination of its source
/// cell: the source exists and is already terminal.
pub open spec fn work_srcs_terminal(m: HubModel, work: Seq<WorkItem>) -> bool {
    forall|k: int|
        0 <= k < work.len() ==> ((#[trigger] work[k]).src as int) < m.cells.len() && !(m.cells[
            work[k].src as int
        ].status is Pending)
}

/// The ready-queue invariant, companion to `cells_wf`: every id a select
/// queues as ready names a live cell that is already terminal, because ids
/// are queued in the very step that makes their cell terminal.  It is what
/// lets a reader derive from `try_next`'s contract that a collected
/// listener is terminal.
pub open spec fn ready_wf(m: HubModel) -> bool {
    forall|s: int, j: int|
        0 <= s < m.selects.len() && 0 <= j < m.selects[s].ready.len() ==> ((
        #[trigger] m.selects[s].ready[j]) as int) < m.cells.len() && !(m.cells[
            m.selects[s].ready[j] as int
        ].status is Pending)
}

/// `finish_step` respects the ready invariant: it moves one cell from
/// pending to terminal - never the other way - leaves every ready queue
/// alone, and every work item it hands back names that now-terminal cell.
proof fn lemma_finish_step_ready(m: HubModel, t: int, st: Status)
    requires
        ready_wf(m),
        !(st is Pending),
        m.cells.len() <= usize::MAX,
    ensures
        ready_wf(m.finish_step(t, st).0),
        work_srcs_terminal(m.finish_step(t, st).0, m.finish_step(t, st).1),
        forall|c: int|
            0 <= c < m.cells.len() && !(#[trigger] m.cells[c].status is Pending) ==> !(
            m.finish_step(t, st).0.cells[c].status is Pending),
        m.finish_step(t, st).0.cells.len() == m.cells.len(),
{
    let m1 = m.finish_step(t, st).0;
    assert forall|s: int, j: int|
        0 <= s < m1.selects.len() && 0 <= j < m1.selects[s].ready.len() implies ((
    #[trigger] m1.selects[s].ready[j]) as int) < m1.cells.len() && !(m1.cells[
        m1.selects[s].ready[j] as int
    ].status is Pending) by {
        assert(m.selects[s].ready[j] == m1.selects[s].ready[j]);
    }
    if m.cell_live(t) && m.cells[t].status is Pending {
        let items = m.cells[t].waiters.map_values(
            |n: WaitNode| WorkItem { src: t as usize, node: n },
        );
        assert(forall|k: int|
            0 <= k < items.len() ==> (#[trigger] items[k]).src == t as usize);
        assert(work_srcs_terminal(m1, items));
    }
}

/// Firing a list of trigger cells respects the ready invariant, never
/// reverts a status, and hands back work items whose sources are terminal.
proof fn lemma_fire_all_ready(m: HubModel, ts: Seq<usize>)
    requires
        ready_wf(m),
        m.cells.len() <= usize::MAX,
    ensures
        ready_wf(fire_all(m, ts).0),
        work_srcs_terminal(fire_all(m, ts).0, fire_all(m, ts).1),
        forall|c: int|
            0 <= c < m.cells.len() && !(#[trigger] m.cells[c].status is Pending) ==> !(fire_all(
                m,
                ts,
            ).0.cells[c].status is Pending),
        fire_all(m, ts).0.cells.len() == m.cells.len(),
    decreases ts.len(),
{
    if ts.len() > 0 {
        let stepped = m.finish_step(ts[0] as int, Status::Fired);
        lemma_finish_step_ready(m, ts[0] as int, Status::Fired);
        lemma_fire_all_ready(stepped.0, ts.drop_first());
    }
}

/// The wake cascade preserves the ready invariant: an id enters a ready
/// queue only in the step that resumes a waiter of its terminated cell.
proof fn lemma_run_wake_ready(m: HubModel, work: Seq<WorkItem>)
    requires
        ready_wf(m),
        work_srcs_terminal(m, work),
        m.cells.len() <= usize::MAX,
    ensures
        ready_wf(run_wake(m, work)),
    decreases pending_count(m.cells), work.len(),
{
    if work.len() > 0 {
        let it = work.last();
        let rest = work.drop_last();
        match it.node.wake {
            Wake::Thread(tok) => {
                lemma_run_wake_ready(HubModel { woken: m.woken.push(tok), ..m }, rest);
            },
            Wake::Callback(tok) => {
                lemma_run_wake_ready(HubModel { callbacks: m.callbacks.push(tok), ..m }, rest);
            },
            Wake::Select(s) => {
                if m.select_live(s as int) {
                    let sel = m.selects[s as int];
                    let m1 = m.with_select(
                        s as int,
                        SelectModel { ready: sel.ready.push(it.src), trigger: None },
                    );
                    assert forall|si: int, j: int|
                        0 <= si < m1.selects.len() && 0 <= j < m1.selects[si].ready.len() implies
                        ((#[trigger] m1.selects[si].ready[j]) as int) < m1.cells.len() && !(
                        m1.cells[m1.selects[si].ready[j] as int].status is Pending) by {
                        if si == s as int && j == sel.ready.len() {
                            assert(m1.selects[si].ready[j] == it.src);
                        } else {
                            assert(m1.selects[si].ready[j] == m.selects[si].ready[j]);
                        }
                    }
                    match sel.trigger {
                        Some(t) => {
                            let stepped = m1.finish_step(t as int, Status::Fired);
                            lemma_finish_step_measure(m1, t as int, Status::Fired);
                            lemma_finish_step_ready(m1, t as int, Status::Fired);
                            lemma_run_wake_ready(stepped.0, rest + stepped.1);
                        },
                        None => {
                            lemma_run_wake_ready(m1, rest);
                        },
                    }
                } else {
                    lemma_run_wake_ready(m, rest);
                }
            },
            Wake::Barrier(b) => {
                if m.barrier_live(b as int) {
                    let bar = m.barriers[b as int];
                    if bar.remaining == 1 {
                        let m1 = m.with_barrier(
                            b as int,
                            BarrierModel { remaining: 0, triggers: Seq::empty() },
                        );
                        let fired = fire_all(m1, bar.triggers);
                        lemma_fire_all_measure(m1, bar.triggers);
                        lemma_fire_all_ready(m1, bar.triggers);
                        lemma_run_wake_ready(fired.0, rest + fired.1);
                    } else {
                        let m1 = m.with_barrier(
                            b as int,
                            BarrierModel { remaining: dec(bar.remaining), triggers: bar.triggers },
                        );
                        lemma_run_wake_ready(m1, rest);
                    }
                } else {
                    lemma_run_wake_ready(m, rest);
                }
            },
        }
    }
}

/// Closing a list of trigger cells preserves the ready invariant.
proof fn lemma_close_all_ready(m: HubModel, ts: Seq<usize>)
    requires
        ready_wf(m),
        m.cells.len() <= usize::MAX,
    ensures
        ready_wf(close_all(m, ts)),
    decreases ts.len(),
{
    if ts.len() > 0 {
        let stepped = m.finish_step(ts[0] as int, Status::Closed);
        lemma_finish_step_ready(m, ts[0] as int, Status::Closed);
        lemma_run_wake_ready(stepped.0, stepped.1);
        lemma_op_lens(m, ts[0] as int, Wake::Thread(0), 0);
        lemma_close_all_ready(m.close_cell(ts[0] as int), ts.drop_first());
    }
}

impl HubOp {
    /// The ready invariant persists through a step unless the step recycles
    /// a cell whose id some select still queues: recycling resets the cell
    /// to pending while the queued id stays behind.
    pub open spec fn ready_safe(self, m: HubModel) -> bool {
        match self {
            HubOp::Recycle(c) => forall|s: int, j: int|
                0 <= s < m.selects.len() && 0 <= j < m.selects[s].ready.len() ==> ((
                #[trigger] m.selects[s].ready[j]) as int) != c,
            _ => true,
        }
    }
}

/// A sequence of steps each of which is safe for the ready invariant in
/// the state where it runs.
pub open spec fn ops_ready_safe(m: HubModel, ops: Seq<HubOp>) -> bool
    decreases ops.len(),
{
    if ops.len() == 0 {
        true
    } else {
        ops[0].ready_safe(m) && ops_ready_safe(ops[0].apply(m), ops.drop_first())
    }
}

/// Law: the ready invariant holds in every reachable hub state.  It holds
/// of the empty hub, and every operation preserves it - an id enters a
/// ready queue only when its cell terminates, terminal cells stay terminal,
/// and the one step that re-pends a cell, an explicit recycle, is safe
/// whenever the recycled id is queued nowhere.
pub proof fn lemma_op_preserves_ready(m: HubModel, op: HubOp)
    requires
        ready_wf(m),
        op.ready_safe(m),
        m.cells.len() <= usize::MAX,
    ensures
        ready_wf(op.apply(m)),
        op.apply(m).cells.len() <= m.cells.len() + 1,
{
    lemma_op_keeps_len(m, op);
    let m1 = op.apply(m);
    match op {
        HubOp::Fire(i) => {
            lemma_finish_step_ready(m, i, Status::Fired);
            let stepped = m.finish_step(i, Status::Fired);
            lemma_run_wake_ready(stepped.0, stepped.1);
        },
        HubOp::Close(i) => {
            lemma_finish_step_ready(m, i, Status::Closed);
            let stepped = m.finish_step(i, Status::Closed);
            lemma_run_wake_ready(stepped.0, stepped.1);
        },
        HubOp::Arm(i, wake) => {
            if m.cell_live(i) {
                let node = WaitNode { id: m.node_ctr, wake };
                let cm = m.cells[i];
                let queued = cm.waiters.push(node);
                let ma = HubModel {
                    node_ctr: (m.node_ctr + 1) as u64,
                    ..m.with_cell(i, CellModel { waiters: queued, ..cm })
                };
                if cm.status is Pending {
                    assert(ready_wf(ma));
                } else {
                    let mb = ma.with_cell(i, CellModel { waiters: Seq::empty(), ..cm });
                    assert(ready_wf(mb));
                    let items = queued.map_values(
                        |n: WaitNode| WorkItem { src: i as usize, node: n },
                    );
                    assert(forall|k: int|
                        0 <= k < items.len() ==> (#[trigger] items[k]).src == i as usize);
                    assert(work_srcs_terminal(mb, items));
                    lemma_run_wake_ready(mb, items);
                }
            }
        },
        HubOp::SetSelectTrigger(s, t) => {
            if m.select_live(s) {
                let sel = m.selects[s];
                let ma = m.with_select(s, SelectModel { trigger: Some(t), ..sel });
                assert(ready_wf(ma));
                match sel.trigger {
                    Some(ot) => {
                        lemma_finish_step_ready(ma, ot as int, Status::Closed);
                        let stepped = ma.finish_step(ot as int, Status::Closed);
                        lemma_run_wake_ready(stepped.0, stepped.1);
                    },
                    None => {},
                }
            }
        },
        HubOp::ClearSelectTrigger(s) => {
            if m.select_live(s) {
                let sel = m.selects[s];
                let ma = m.with_select(s, SelectModel { trigger: None, ..sel });
                assert(ready_wf(ma));
                match sel.trigger {
                    Some(ot) => {
                        lemma_finish_step_ready(ma, ot as int, Status::Closed);
                        let stepped = ma.finish_step(ot as int, Status::Closed);
                        lemma_run_wake_ready(stepped.0, stepped.1);
                    },
                    None => {},
                }
            }
        },
        HubOp::ClearBarrierTriggers(b) => {
            if m.barrier_live(b) {
                let bar = m.barriers[b];
                let ma = m.with_barrier(b, BarrierModel { triggers: Seq::empty(), ..bar });
                assert(ready_wf(ma));
                lemma_close_all_ready(ma, bar.triggers);
            }
        },
        HubOp::PopReady(s) => {
            if m.select_live(s) && m.selects[s].ready.len() > 0 {
                let sel = m.selects[s];
                let ma = m.with_select(s, SelectModel { ready: sel.ready.drop_first(), ..sel });
                assert forall|si: int, j: int|
                    0 <= si < ma.selects.len() && 0 <= j < ma.selects[si].ready.len() implies ((
                #[trigger] ma.selects[si].ready[j]) as int) < ma.cells.len() && !(ma.cells[
                    ma.selects[si].ready[j] as int
                ].status is Pending) by {
                    if si == s {
                        assert(ma.selects[si].ready[j] == m.selects[si].ready[j + 1]);
                    } else {
                        assert(ma.selects[si].ready[j] == m.selects[si].ready[j]);
                    }
                }
            }
        },
        _ => {
            assert(ready_wf(m1));
        },
    }
}

/// Law: the ready invariant holds under every sequence of steps that is
/// ready-safe, starting from any state that satisfies it - in particular
/// from the empty hub.
pub proof fn lemma_ops_preserve_ready(m: HubModel, ops: Seq<HubOp>)
    requires
        ready_wf(m),
        ops_ready_safe(m, ops),
        m.cells.len() + ops.len() <= usize::MAX,
    ensures
        ready_wf(apply_ops(m, ops)),
    decreases ops.len(),
{
    if ops.len() > 0 {
        lemma_op_preserves_ready(m, ops[0]);
        lemma_ops_preserve_ready(ops[0].apply(m), ops.drop_first());
    }
}

/// Every step grows the cell table by at most the one freshly allocated
/// cell.
proof fn lemma_op_keeps_len(m: HubModel, op: HubOp)
    ensures
        op.apply(m).cells.len() <= m.cells.len() + 1,
{
    match op {
        HubOp::Fire(i) => {
            lemma_op_lens(m, i, Wake::Thread(0), 0);
        },
        HubOp::Close(i) => {
            lemma_op_lens(m, i, Wake::Thread(0), 0);
        },
        HubOp::Arm(i, wake) => {
            lemma_op_lens(m, i, wake, 0);
        },
        HubOp::Disarm(i, id) => {
            lemma_op_lens(m, i, Wake::Thread(0), id);
        },
        HubOp::SetSelectTrigger(s, t) => {
            lemma_trigger_ops_lens(m, s, t);
        },
        HubOp::ClearSelectTrigger(s) => {
            lemma_trigger_ops_lens(m, s, 0);
        },
        HubOp::PushBarrierTrigger(b, t) => {
            lemma_trigger_ops_lens(m, b, t);
        },
        HubOp::ClearBarrierTriggers(b) => {
            lemma_trigger_ops_lens(m, b, 0);
        },
        _ => {},
    }
}

/// Law: the select wake step.  Resuming one waiter that names select `s`
/// appends the terminated cell's id to that select's ready queue; a stored
/// pending-wake trigger is taken out and fired, otherwise nothing else
/// changes.
pub proof fn lemma_select_wake_step(m: HubModel, it: WorkItem, s: usize)
    requires
        it.node.wake == Wake::Select(s),
        m.select_live(s as int),
    ensures
        ({
            let sel = m.selects[s as int];
            let m1 = m.with_select(
                s as int,
                SelectModel { ready: sel.ready.push(it.src), trigger: None },
            );
            match sel.trigger {
                None => run_wake(m, seq![it]) == m1,
                Some(t) => run_wake(m, seq![it]) == m1.fire_cell(t as int),
            }
        }),
{
    let work = seq![it];
    assert(work.len() == 1);
    assert(work.last() == it);
    assert(work.drop_last() =~= Seq::<WorkItem>::empty());
    let sel = m.selects[s as int];
    let m1 = m.with_select(s as int, SelectModel { ready: sel.ready.push(it.src), trigger: None });
    match sel.trigger {
        None => {
            assert(run_wake(m, work) == run_wake(m1, work.drop_last()));
            assert(run_wake(m1, Seq::<WorkItem>::empty()) == m1);
        },
        Some(t) => {
            let stepped = m1.finish_step(t as int, Status::Fired);
            assert(Seq::<WorkItem>::empty() + stepped.1 =~= stepped.1);
            assert(run_wake(m, work) == run_wake(stepped.0, work.drop_last() + stepped.1));
            assert(work.drop_last() + stepped.1 =~= stepped.1);
        },
    }
}

/// Law: the barrier wake step.  Resuming one waiter that names barrier `b`
/// decrements its remaining count; exactly the decrement that takes it from
/// 1 to 0 takes every stored pending-wake trigger out and fires it, so
/// every gate handed out by `signal` terminates together.
pub proof fn lemma_barrier_wake_step(m: HubModel, it: WorkItem, b: usize)
    requires
        it.node.wake == Wake::Barrier(b),
        m.barrier_live(b as int),
    ensures
        ({
            let bar = m.barriers[b as int];
            if bar.remaining == 1 {
                let m1 = m.with_barrier(
                    b as int,
                    BarrierModel { remaining: 0, triggers: Seq::empty() },
                );
                let fired = fire_all(m1, bar.triggers);
                run_wake(m, seq![it]) == run_wake(fired.0, fired.1)
            } else {
                run_wake(m, seq![it]) == m.with_barrier(
                    b as int,
                    BarrierModel { remaining: dec(bar.remaining), triggers: bar.triggers },
                )
            }
        }),
{
    let work = seq![it];
    assert(work.len() == 1);
    assert(work.last() == it);
    assert(work.drop_last() =~= Seq::<WorkItem>::empty());
    let bar = m.barriers[b as int];
    if bar.remaining == 1 {
        let m1 = m.with_barrier(b as int, BarrierModel { remaining: 0, triggers: Seq::empty() });
        let fired = fire_all(m1, bar.triggers);
        assert(run_wake(m, work) == run_wake(fired.0, work.drop_last() + fired.1));
        assert(work.drop_last() + fired.1 =~= fired.1);
    } else {
        let m1 = m.with_barrier(
            b as int,
            BarrierModel { remaining: dec(bar.remaining), triggers: bar.triggers },
        );
        assert(run_wake(m, work) == run_wake(m1, work.drop_last()));
        assert(run_wake(m1, Seq::<WorkItem>::empty()) == m1);
    }
}

#[via_fn]
proof fn run_wake_decreases(m: HubModel, work: Seq<WorkItem>) {
    if work.len() > 0 {
        let it = work.last();
        match it.node.wake {
            Wake::Select(s) => {
                if m.select_live(s as int) {
                    let sel = m.selects[s as int];
                    let m1 = m.with_select(
                        s as int,
                        SelectModel { ready: sel.ready.push(it.src), trigger: None },
                    );
                    match sel.trigger {
                        Some(t) => {
                            lemma_finish_step_measure(m1, t as int, Status::Fired);
                        },
                        None => {},
                    }
                }
            },
            Wake::Barrier(b) => {
                if m.barrier_live(b as int) {
                    let bar = m.barriers[b as int];
                    if bar.remaining == 1 {
                        let m1 = m.with_barrier(
                            b as int,
                            BarrierModel { remaining: 0, triggers: Seq::empty() },
                        );
                        lemma_fire_all_measure(m1, bar.triggers);
                    }
                }
            },
            _ => {},
        }
    }
}

} // verus!
