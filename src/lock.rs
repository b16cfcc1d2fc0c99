use vstd::prelude::*;

use crate::monitor::{Event, Monitor, MonitorView};
use crate::policy::{Order, Preference};

verus! {

/// A reader-writer lock over a value of type `T`, with a configurable preference
/// between readers and writers and a configurable wake order.
///
/// Every method is one step of the lock's monitor: a blocking front end calls them
/// while it holds its internal mutex, waits on the tickets that a request returns,
/// and signals the tickets that `notify_others` lists after a release.
///
/// Each lock has an identity that its contracts leave unknown, so no proof can show
/// two locks to share it: a guard is accepted only by the lock that issued it, and
/// only while the monitor records its ticket as holding access.
pub struct RwLock<T> {
    data: T,
    monitor: Monitor,
    id: Ghost<int>,
}

/// Shared access of one admitted request: handed out on admission, used up on
/// release.
pub struct RwLockReadGuard {
    ticket: u64,
    lock: Ghost<int>,
}

/// Exclusive access of one admitted request: handed out on admission, used up on
/// release.
pub struct RwLockWriteGuard {
    ticket: u64,
    lock: Ghost<int>,
}

/// A lock as a mathematical value: the protected value and the bookkeeping.
pub struct LockView<T> {
    pub value: T,
    pub state: MonitorView,
}

/// One access to a lock: a bookkeeping transition, or a store through the write guard.
pub enum Access<T> {
    Step(Event),
    Store(T),
}

impl<T> LockView<T> {
    pub open spec fn apply(self, a: Access<T>) -> LockView<T> {
        match a {
            Access::Step(e) => LockView { value: self.value, state: self.state.step(e) },
            Access::Store(v) => LockView { value: v, state: self.state },
        }
    }

    /// The lock after the accesses `acc`, in order.
    pub open spec fn run(self, acc: Seq<Access<T>>) -> LockView<T>
        decreases acc.len(),
    {
        if acc.len() == 0 {
            self
        } else {
            self.apply(acc[0]).run(acc.drop_first())
        }
    }
}

/// A value stored through the write guard is, unchanged, what every later read
/// sees until the next store: bookkeeping steps leave it alone.
pub proof fn lemma_stored_value_visible<T>(l: LockView<T>, v: T, acc: Seq<Access<T>>)
    requires
        forall|i: int| 0 <= i < acc.len() ==> #[trigger] acc[i] is Step,
    ensures
        l.apply(Access::Store(v)).run(acc).value == v,
    decreases acc.len(),
{
    if acc.len() > 0 {
        let next = l.apply(Access::Store(v)).apply(acc[0]);
        let again = LockView { value: v, state: next.state };
        assert(acc[0] is Step);
        assert(again.apply(Access::Store(v)) == next);
        assert forall|i: int| 0 <= i < acc.drop_first().len() implies #[trigger] acc.drop_first()[i] is Step by {
            assert(acc.drop_first()[i] == acc[i + 1]);
        }
        lemma_stored_value_visible(again, v, acc.drop_first());
    }
}

impl RwLockReadGuard {
    pub closed spec fn spec_ticket(&self) -> u64 {
        self.ticket
    }

    /// The identity of the lock that issued this guard.
    pub closed spec fn lock_id(&self) -> int {
        self.lock@
    }

    /// The ticket of the request that this guard admitted.
    pub fn ticket(&self) -> (r: u64)
        ensures
            r == self.spec_ticket(),
    {
        self.ticket
    }
}

impl RwLockWriteGuard {
    pub closed spec fn spec_ticket(&self) -> u64 {
        self.ticket
    }

    /// The identity of the lock that issued this guard.
    pub closed spec fn lock_id(&self) -> int {
        self.lock@
    }

    /// The ticket of the request that this guard admitted.
    pub fn ticket(&self) -> (r: u64)
        ensures
            r == self.spec_ticket(),
    {
        self.ticket
    }
}

impl<T> RwLock<T> {
    /// The protected value.
    pub closed spec fn value(&self) -> T {
        self.data
    }

    /// The monitor's bookkeeping.
    pub closed spec fn state(&self) -> MonitorView {
        self.monitor@
    }

    /// The lock's identity, which the guards it issues carry.
    pub closed spec fn id(&self) -> int {
        self.id@
    }

    /// The bookkeeping of every lock is well formed: at most one writer, never
    /// together with readers, and counts equal to the numbers of holders.
    pub fn lemma_wf(&self)
        ensures
            self.state().wf(),
    {
        self.monitor.lemma_wf();
    }

    /// Whether `guard` currently holds shared access to this lock.
    pub fn holds_read(&self, guard: &RwLockReadGuard) -> (r: bool)
        ensures
            r == self.state().holds_read(guard.spec_ticket()),
    {
        self.monitor.holds_read(guard.ticket)
    }

    /// Whether `guard` currently holds exclusive access to this lock.
    pub fn holds_write(&self, guard: &RwLockWriteGuard) -> (r: bool)
        ensures
            r == self.state().holds_write(guard.spec_ticket()),
    {
        self.monitor.holds_write(guard.ticket)
    }

    /// The lock as a mathematical value.
    pub open spec fn model(&self) -> LockView<T> {
        LockView { value: self.value(), state: self.state() }
    }

    /// Builds an idle lock around `data`.
    pub fn new(data: T, pref: Preference, order: Order) -> (r: RwLock<T>)
        ensures
            r.value() == data,
            r.state() == MonitorView::initial(pref, order),
    {
        RwLock { data, monitor: Monitor::new(pref, order), id: Ghost(arbitrary()) }
    }

    pub fn preference(&self) -> (r: Preference)
        ensures
            r == self.state().pref,
    {
        self.monitor.preference()
    }

    pub fn order(&self) -> (r: Order)
        ensures
            r == self.state().order,
    {
        self.monitor.order()
    }

    /// Number of holders of shared access.
    pub fn reader_active(&self) -> (r: u64)
        ensures
            r == self.state().reader_active,
    {
        self.monitor.reader_active()
    }

    /// Number of holders of exclusive access.
    pub fn writer_active(&self) -> (r: u64)
        ensures
            r == self.state().writer_active,
    {
        self.monitor.writer_active()
    }

    pub fn readers_waiting(&self) -> (r: usize)
        ensures
            r == self.state().reader_wait.len(),
    {
        self.monitor.readers_waiting()
    }

    pub fn writers_waiting(&self) -> (r: usize)
        ensures
            r == self.state().writer_wait.len(),
    {
        self.monitor.writers_waiting()
    }

    /// Whether another request can still be given a ticket.
    pub fn can_request(&self) -> (r: bool)
        ensures
            r == self.state().can_request(),
    {
        self.monitor.can_request()
    }

    /// Queues a request for shared access; the ticket names it until admission.
    pub fn request_read(&mut self) -> (t: u64)
        requires
            old(self).state().can_request(),
        ensures
            t == old(self).state().next_ticket,
            final(self).state() == old(self).state().request_read(),
            final(self).model() == old(self).model().apply(Access::Step(Event::RequestRead)),
            final(self).value() == old(self).value(),
            final(self).id() == old(self).id(),
    {
        self.monitor.request_read()
    }

    /// Queues a request for exclusive access; the ticket names it until admission.
    pub fn request_write(&mut self) -> (t: u64)
        requires
            old(self).state().can_request(),
        ensures
            t == old(self).state().next_ticket,
            final(self).state() == old(self).state().request_write(),
            final(self).model() == old(self).model().apply(Access::Step(Event::RequestWrite)),
            final(self).value() == old(self).value(),
            final(self).id() == old(self).id(),
    {
        self.monitor.request_write()
    }

    /// Whether a pending reader has to keep waiting.
    pub fn read_wait(&self) -> (r: bool)
        ensures
            r == self.state().read_must_wait(),
    {
        self.monitor.read_must_wait()
    }

    /// Whether a pending writer has to keep waiting.
    pub fn write_wait(&self) -> (r: bool)
        ensures
            r == self.state().write_must_wait(),
    {
        self.monitor.write_must_wait()
    }

    /// Admits the pending reader `ticket` when readers may enter: it leaves the
    /// reader queue and the reader count grows by one. Otherwise nothing changes.
    pub fn admit_read(&mut self, ticket: u64) -> (r: Option<RwLockReadGuard>)
        ensures
            r is Some <==> old(self).state().admits_read(ticket),
            r is Some ==> r->0.spec_ticket() == ticket && r->0.lock_id() == old(self).id(),
            final(self).state() == old(self).state().admit_read(ticket),
            final(self).model() == old(self).model().apply(Access::Step(Event::AdmitRead(ticket))),
            final(self).value() == old(self).value(),
            final(self).id() == old(self).id(),
    {
        if self.monitor.admit_read(ticket) {
            Some(RwLockReadGuard { ticket, lock: Ghost(self.id@) })
        } else {
            None
        }
    }

    /// Admits the pending writer `ticket` when writers may enter: it leaves the
    /// writer queue and becomes the one active writer.
    /// Otherwise nothing changes.
    pub fn admit_write(&mut self, ticket: u64) -> (r: Option<RwLockWriteGuard>)
        ensures
            r is Some <==> old(self).state().admits_write(ticket),
            r is Some ==> r->0.spec_ticket() == ticket && r->0.lock_id() == old(self).id(),
            final(self).state() == old(self).state().admit_write(ticket),
            final(self).model() == old(self).model().apply(Access::Step(Event::AdmitWrite(ticket))),
            final(self).value() == old(self).value(),
            final(self).id() == old(self).id(),
    {
        if self.monitor.admit_write(ticket) {
            Some(RwLockWriteGuard { ticket, lock: Ghost(self.id@) })
        } else {
            None
        }
    }

    /// Ends the shared hold of `guard`, which this lock issued and which holds
    /// shared access; the guard is used up, so the hold ends once.
    pub fn release_read(&mut self, guard: RwLockReadGuard)
        requires
            guard.lock_id() == old(self).id(),
            old(self).state().holds_read(guard.spec_ticket()),
        ensures
            final(self).state() == old(self).state().release_read(guard.spec_ticket()),
            final(self).model() == old(self).model().apply(
                Access::Step(Event::ReleaseRead(guard.spec_ticket())),
            ),
            final(self).value() == old(self).value(),
            final(self).id() == old(self).id(),
    {
        let RwLockReadGuard { ticket, lock: _ } = guard;
        self.monitor.release_read(ticket);
    }

    /// Ends the exclusive hold of `guard`, which this lock issued and which holds
    /// exclusive access; the guard is used up, so the hold ends once.
    pub fn release_write(&mut self, guard: RwLockWriteGuard)
        requires
            guard.lock_id() == old(self).id(),
            old(self).state().holds_write(guard.spec_ticket()),
        ensures
            final(self).state() == old(self).state().release_write(guard.spec_ticket()),
            final(self).model() == old(self).model().apply(
                Access::Step(Event::ReleaseWrite(guard.spec_ticket())),
            ),
            final(self).value() == old(self).value(),
            final(self).id() == old(self).id(),
    {
        let RwLockWriteGuard { ticket, lock: _ } = guard;
        self.monitor.release_write(ticket);
    }

    /// Wake selection after a release: the tickets of the waiters to signal.
    pub fn notify_others(&self) -> (r: Vec<u64>)
        ensures
            r@ == self.state().wake_list(),
    {
        self.monitor.wake_list()
    }

    /// Shared access to the value, for the holder of a read guard.
    pub fn read_value(&self, guard: &RwLockReadGuard) -> (r: &T)
        requires
            guard.lock_id() == self.id(),
            self.state().holds_read(guard.spec_ticket()),
        ensures
            *r == self.value(),
    {
        &self.data
    }

    /// Shared access to the value, for the holder of the write guard.
    pub fn peek_value(&self, guard: &RwLockWriteGuard) -> (r: &T)
        requires
            guard.lock_id() == self.id(),
            self.state().holds_write(guard.spec_ticket()),
        ensures
            *r == self.value(),
    {
        &self.data
    }

    /// Exclusive access to the value, for the holder of the write guard; the
    /// bookkeeping is left as it is.
    pub fn write_value(&mut self, guard: &RwLockWriteGuard) -> (r: &mut T)
        requires
            guard.lock_id() == old(self).id(),
            old(self).state().holds_write(guard.spec_ticket()),
        ensures
            final(self).id() == old(self).id(),
            *r == old(self).value(),
            final(self).value() == *final(r),
            final(self).state() == old(self).state(),
            final(self).model() == old(self).model().apply(Access::Store(*final(r))),
    {
        &mut self.data
    }
}

} // verus!
