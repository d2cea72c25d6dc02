//! A one-shot event library: a write-once fired/closed signal shared between
//! one producer handle ([`Pulse`]) and any number of consumer handles
//! ([`Signal`]), with two composition primitives built on top: a
//! [`Select`](select::Select) that yields whichever of many events becomes
//! ready first, and a [`Barrier`](barrier::Barrier) that fires only after
//! all of several events have terminated.
//!
//! All event cells live in an explicit [`Hub`] arena and every state change
//! is verified against the pure model in [`model`].  The design's one
//! suspension point - parking the calling thread - is left to the embedding
//! runtime: a blocked party registers a `Wake::Thread` waiter and the hub
//! reports resumed tokens through `Hub::take_woken`.

use vstd::prelude::*;

pub mod barrier;
pub mod hub;
pub mod model;
pub mod select;

pub use barrier::Barrier;
pub use hub::Hub;
pub use select::Select;
pub use select::SelectMap;

use crate::model::{HubModel, Status, Wake};

verus! {

/// The cell ids of a sequence of consumer handles, in order.
pub open spec fn signal_ids(s: Seq<Signal>) -> Seq<int> {
    s.map_values(|x: Signal| x.spec_id())
}

/// The error `wait` returns when the producer handle was dropped without
/// firing: a normal outcome meaning the producer abandoned the work.
#[derive(Clone, Copy, PartialEq, Eq, Structural, Debug)]
pub struct WaitError;

/// The single-use producer handle of one event cell.  Firing it resumes
/// every registered waiter; dropping it unfired closes the cell instead.
pub struct Pulse {
    cell: usize,
}

/// The cloneable consumer handle of one event cell.  All clones observe the
/// same terminal outcome.
pub struct Signal {
    cell: usize,
}

/// A consumer handle together with the id of the waiter it registered, so
/// the registration can be removed again.
pub(crate) struct ArmedSignal {
    pub(crate) signal: Signal,
    pub(crate) node: u64,
}

impl Pulse {
    /// The index of the cell this producer reference points at.
    pub closed spec fn spec_id(&self) -> int {
        self.cell as int
    }

    /// A producer handle is valid while its cell exists and the cell's
    /// producer reference is still outstanding.
    pub open spec fn valid(&self, m: HubModel) -> bool {
        0 <= self.spec_id() < m.cells.len() && m.cells[self.spec_id()].has_pulse
    }

    /// Fire the event: the cell becomes `Fired`, every registered waiter is
    /// resumed exactly once (most recently registered first), and this
    /// producer reference is consumed.  Never blocks.
    pub fn pulse(self, hub: &mut Hub)
        requires
            self.valid(old(hub)@),
        ensures
            final(hub)@ == old(hub)@.fire_cell(self.spec_id()),
    {
        hub.fire(self.cell);
    }

    /// Abandon the event unfired: the cell becomes `Closed`, waiters are
    /// resumed exactly as on firing, and consumers observe `Err(WaitError)`.
    /// This is the explicit form of dropping the producer.
    pub fn close(self, hub: &mut Hub)
        requires
            self.valid(old(hub)@),
        ensures
            final(hub)@ == old(hub)@.close_cell(self.spec_id()),
    {
        hub.close(self.cell);
    }

    /// Convert the producer handle to a plain machine word, for storage in
    /// a container that cannot hold typed handles.  The caller owns the one
    /// logical reference across the round trip.
    pub fn cast_to_usize(self) -> (r: usize)
        ensures
            r == self.spec_id(),
    {
        self.cell
    }

    /// Recover a producer handle from a word made by `cast_to_usize`.  The
    /// caller is responsible that exactly one logical producer reference
    /// exists afterwards; every use of the result still checks validity.
    pub fn cast_from_usize(ptr: usize) -> (p: Pulse)
        ensures
            p.spec_id() == ptr,
    {
        Pulse { cell: ptr }
    }
}

impl Signal {
    /// The index of the cell this consumer reference points at.
    pub closed spec fn spec_id(&self) -> int {
        self.cell as int
    }

    /// A consumer handle is valid while its cell exists.
    pub open spec fn valid(&self, m: HubModel) -> bool {
        0 <= self.spec_id() < m.cells.len()
    }

    /// Allocate a fresh event cell and return its two handles.  The cell is
    /// born pending with reference count 2.
    pub fn new(hub: &mut Hub) -> (r: (Signal, Pulse))
        ensures
            final(hub)@ == old(hub)@.alloc_cell(),
            r.0.spec_id() == old(hub)@.cells.len(),
            r.1.spec_id() == old(hub)@.cells.len(),
    {
        let i = hub.alloc_cell();
        (Signal { cell: i }, Pulse { cell: i })
    }

    /// The cell id, equal for all clones of one signal.
    pub fn id(&self) -> (r: usize)
        ensures
            r == self.spec_id(),
    {
        self.cell
    }

    /// Non-blocking poll: true until the producer fires or closes the cell.
    pub fn is_pending(&self, hub: &Hub) -> (r: bool)
        requires
            self.valid(hub@),
        ensures
            r == hub@.is_pending(self.spec_id()),
    {
        let st = hub.status_of(self.cell);
        st == Status::Pending
    }

    /// A further consumer handle on the same cell; the reference count goes
    /// up by one and both handles observe the same outcome.
    pub fn clone(&self, hub: &mut Hub) -> (s: Signal)
        requires
            self.valid(old(hub)@),
            old(hub)@.cells[self.spec_id()].refs < usize::MAX,
        ensures
            final(hub)@ == old(hub)@.retain_cell(self.spec_id()),
            s.spec_id() == self.spec_id(),
    {
        hub.retain(self.cell);
        Signal { cell: self.cell }
    }

    /// Give this consumer handle up; the reference count goes down by one,
    /// and the cell is logically deallocated when it reaches zero.  This is
    /// the explicit form of dropping the handle.
    pub fn release(self, hub: &mut Hub)
        requires
            self.valid(old(hub)@),
        ensures
            final(hub)@ == old(hub)@.release_cell(self.spec_id()),
    {
        hub.release(self.cell);
    }

    /// Hand out a fresh producer over the same cell, resetting it to
    /// pending - exactly when the cell is terminal and this is the sole
    /// remaining reference.  Never blocks, never panics: with another clone
    /// alive, or on a still-pending cell, it returns `None` and changes
    /// nothing.
    pub fn recycle(&self, hub: &mut Hub) -> (r: Option<Pulse>)
        requires
            self.valid(old(hub)@),
        ensures
            r is Some <==> (old(hub)@.cells[self.spec_id()].refs == 1 && !old(hub)@.is_pending(
                self.spec_id(),
            )),
            r matches Some(p) ==> final(hub)@ == old(hub)@.recycle_cell(self.spec_id())
                && p.spec_id() == self.spec_id(),
            r is None ==> final(hub)@ == old(hub)@,
    {
        let refs = hub.refs_of(self.cell);
        let st = hub.status_of(self.cell);
        if refs != 1 || st == Status::Pending {
            None
        } else {
            hub.recycle(self.cell);
            Some(Pulse { cell: self.cell })
        }
    }

    /// Register a parked-thread waiter under the given token and return the
    /// waiter id for a later `disarm`.  When the cell terminates - or at
    /// once, if it already has - the token appears in `Hub::take_woken` and
    /// the embedding runtime unparks the thread it stands for.
    pub fn arm_thread(&self, hub: &mut Hub, token: u64) -> (nid: u64)
        requires
            self.valid(old(hub)@),
            old(hub)@.node_ctr < u64::MAX,
        ensures
            final(hub)@ == old(hub)@.arm_cell(self.spec_id(), Wake::Thread(token)),
            nid == old(hub)@.node_ctr,
    {
        hub.arm(self.cell, Wake::Thread(token))
    }

    /// Remove a waiter registered on this cell.  Safe to call after the
    /// cell fired: the node is then already gone and nothing changes.
    pub fn disarm(&self, hub: &mut Hub, nid: u64)
        requires
            self.valid(old(hub)@),
        ensures
            final(hub)@ == old(hub)@.disarm_cell(self.spec_id(), nid),
    {
        hub.disarm(self.cell, nid);
    }

    /// Consume the handle and register a completion callback under the
    /// given token.  The token appears in `Hub::take_callbacks` exactly
    /// once, when the cell terminates - at once, if it already has - and
    /// the embedding runtime then invokes the closure it stands for, inline
    /// in the producer's wake step.
    pub fn on_complete(self, hub: &mut Hub, token: u64)
        requires
            self.valid(old(hub)@),
            old(hub)@.node_ctr < u64::MAX,
        ensures
            final(hub)@ == old(hub)@.arm_cell(self.spec_id(), Wake::Callback(token)).release_cell(
                self.spec_id(),
            ),
    {
        hub.arm(self.cell, Wake::Callback(token));
        proof {
            crate::model::lemma_op_lens(old(hub)@, self.spec_id(), Wake::Callback(token), 0);
        }
        hub.release(self.cell);
    }
}

/// Anything that can stand for a one-shot event: it hands out a consumer
/// handle over its readiness, and `wait` reports the outcome.  Each
/// implementation states its exact effect through the spec functions.
pub trait Signals: Sized {
    /// When `signal` may be called.
    spec fn signal_pre(&self, m: HubModel) -> bool;

    /// The exact effect of `signal`.
    spec fn signal_post(
        pre_self: Self,
        pre: HubModel,
        post_self: Self,
        post: HubModel,
        s: Signal,
    ) -> bool;

    /// When `wait` may be called.  This library's core is sequential: the
    /// one suspension point of the design, parking the calling thread, is
    /// left to the embedding runtime, so `wait` demands that the observed
    /// event is already decided and returns without ever suspending.
    spec fn wait_pre(&self, m: HubModel) -> bool;

    /// The exact effect of `wait`.
    spec fn wait_post(
        pre_self: Self,
        pre: HubModel,
        post_self: Self,
        post: HubModel,
        r: Result<(), WaitError>,
    ) -> bool;

    /// A fresh consumer handle that terminates when this object is ready.
    fn signal(&mut self, hub: &mut Hub) -> (s: Signal)
        requires
            old(self).signal_pre(old(hub)@),
        ensures
            Self::signal_post(*old(self), old(hub)@, *final(self), final(hub)@, s),
    ;

    /// The outcome of the event: `Ok(())` iff it fired, `Err(WaitError)`
    /// iff its producer was dropped unfired.
    fn wait(&mut self, hub: &mut Hub) -> (r: Result<(), WaitError>)
        requires
            old(self).wait_pre(old(hub)@),
        ensures
            Self::wait_post(*old(self), old(hub)@, *final(self), final(hub)@, r),
    ;
}

impl Signals for Signal {
    /// A clone is handed out, so the reference count must have room.
    open spec fn signal_pre(&self, m: HubModel) -> bool {
        self.valid(m) && m.cells[self.spec_id()].refs < usize::MAX
    }

    open spec fn signal_post(
        pre_self: Self,
        pre: HubModel,
        post_self: Self,
        post: HubModel,
        s: Signal,
    ) -> bool {
        post == pre.retain_cell(pre_self.spec_id()) && s.spec_id() == pre_self.spec_id()
            && post_self == pre_self
    }

    /// The cell must already be terminal: a wait on a pending cell would
    /// park the calling thread, which only the embedding runtime can do.
    open spec fn wait_pre(&self, m: HubModel) -> bool {
        self.valid(m) && !m.is_pending(self.spec_id())
    }

    /// `Ok` exactly on a fired cell, `Err` exactly on a closed one, and the
    /// hub is untouched: the already-terminal case returns immediately.
    open spec fn wait_post(
        pre_self: Self,
        pre: HubModel,
        post_self: Self,
        post: HubModel,
        r: Result<(), WaitError>,
    ) -> bool {
        post == pre && post_self == pre_self && (r is Ok <==> pre.cells[
            pre_self.spec_id()
        ].status is Fired) && (r is Err <==> pre.cells[pre_self.spec_id()].status is Closed)
    }

    fn signal(&mut self, hub: &mut Hub) -> (s: Signal) {
        self.clone(hub)
    }

    fn wait(&mut self, hub: &mut Hub) -> (r: Result<(), WaitError>) {
        let st = hub.status_of(self.cell);
        if st == Status::Fired {
            Ok(())
        } else {
            Err(WaitError)
        }
    }
}

} // verus!
