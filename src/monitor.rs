use vstd::prelude::*;

use crate::policy::{Order, Preference};

verus! {

/// The bookkeeping of a lock, as a mathematical value.
pub struct MonitorView {
    pub pref: Preference,
    pub order: Order,
    /// Number of holders of shared access.
    pub reader_active: nat,
    /// Number of holders of exclusive access (0 or 1).
    pub writer_active: nat,
    /// Tickets of the requests that hold shared access, in order of admission.
    pub reader_holders: Seq<u64>,
    /// Ticket of the request that holds exclusive access, if any.
    pub writer_holder: Option<u64>,
    /// Tickets of pending shared requests, in arrival order.
    pub reader_wait: Seq<u64>,
    /// Tickets of pending exclusive requests, in arrival order.
    pub writer_wait: Seq<u64>,
    /// The ticket that the next request receives.
    pub next_ticket: nat,
}

/// One transition of the monitor, as seen by the laws over many steps. A release
/// by a ticket that holds nothing is not a transition: it leaves the state as it is.
pub enum Event {
    RequestRead,
    RequestWrite,
    AdmitRead(u64),
    AdmitWrite(u64),
    ReleaseRead(u64),
    ReleaseWrite(u64),
}

/// The bookkeeping of a lock: the tickets that hold access and the two wait queues
/// of tickets. The active counts are the numbers of holders.
///
/// Each pending request is named by a ticket of its own, and an admitted request
/// leaves its queue by that ticket, wherever it stands. Wake selection signals the
/// head (Fifo) or the tail (Lifo), so the queues never fall out of step with the
/// waiters that enter.
pub struct Monitor {
    pref: Preference,
    order: Order,
    reader_holders: Vec<u64>,
    writer_holder: Option<u64>,
    reader_wait: Vec<u64>,
    writer_wait: Vec<u64>,
    next_ticket: u64,
}

/// Position of ticket `t` in the queue `q`, if it is there.
fn position_of(q: &Vec<u64>, t: u64) -> (r: Option<usize>)
    ensures
        r is Some <==> q@.contains(t),
        r is Some ==> r->0 < q@.len() && q@[r->0 as int] == t,
{
    let mut i: usize = 0;
    while i < q.len()
        invariant
            i <= q@.len(),
            forall|k: int| 0 <= k < i ==> q@[k] != t,
        decreases q@.len() - i,
    {
        if q[i] == t {
            return Some(i);
        }
        i = i + 1;
    }
    None
}

impl View for Monitor {
    type V = MonitorView;

    closed spec fn view(&self) -> MonitorView {
        MonitorView {
            pref: self.pref,
            order: self.order,
            reader_active: self.reader_holders@.len(),
            writer_active: if self.writer_holder is Some { 1 } else { 0 },
            reader_holders: self.reader_holders@,
            writer_holder: self.writer_holder,
            reader_wait: self.reader_wait@,
            writer_wait: self.writer_wait@,
            next_ticket: self.next_ticket as nat,
        }
    }
}

impl Monitor {
    #[verifier::type_invariant]
    closed spec fn inv(self) -> bool {
        self@.wf()
    }

    /// Every monitor is well formed.
    pub fn lemma_wf(&self)
        ensures
            self@.wf(),
    {
        proof {
            use_type_invariant(self);
        }
    }

    pub fn new(pref: Preference, order: Order) -> (r: Monitor)
        ensures
            r@ == MonitorView::initial(pref, order),
    {
        Monitor {
            pref,
            order,
            reader_holders: Vec::new(),
            writer_holder: None,
            reader_wait: Vec::new(),
            writer_wait: Vec::new(),
            next_ticket: 0,
        }
    }

    pub fn preference(&self) -> (r: Preference)
        ensures
            r == self@.pref,
    {
        self.pref
    }

    pub fn order(&self) -> (r: Order)
        ensures
            r == self@.order,
    {
        self.order
    }

    pub fn reader_active(&self) -> (r: u64)
        ensures
            r == self@.reader_active,
    {
        proof {
            use_type_invariant(self);
        }
        self.reader_holders.len() as u64
    }

    pub fn writer_active(&self) -> (r: u64)
        ensures
            r == self@.writer_active,
    {
        if self.writer_holder.is_some() {
            1
        } else {
            0
        }
    }

    /// Whether ticket `t` holds shared access.
    pub fn holds_read(&self, t: u64) -> (r: bool)
        ensures
            r == self@.holds_read(t),
    {
        position_of(&self.reader_holders, t).is_some()
    }

    /// Whether ticket `t` holds exclusive access.
    pub fn holds_write(&self, t: u64) -> (r: bool)
        ensures
            r == self@.holds_write(t),
    {
        match self.writer_holder {
            Some(w) => w == t,
            None => false,
        }
    }

    pub fn readers_waiting(&self) -> (r: usize)
        ensures
            r == self@.reader_wait.len(),
    {
        self.reader_wait.len()
    }

    pub fn writers_waiting(&self) -> (r: usize)
        ensures
            r == self@.writer_wait.len(),
    {
        self.writer_wait.len()
    }

    pub fn can_request(&self) -> (r: bool)
        ensures
            r == self@.can_request(),
    {
        self.next_ticket < u64::MAX
    }

    /// Registers a pending shared request and returns its ticket.
    pub fn request_read(&mut self) -> (t: u64)
        requires
            old(self)@.can_request(),
        ensures
            t == old(self)@.next_ticket,
            final(self)@ == old(self)@.request_read(),
    {
        proof {
            use_type_invariant(&*self);
            lemma_push_keeps_tickets(self.reader_wait@, self.next_ticket);
        }
        let t = self.next_ticket;
        let mut q: Vec<u64> = Vec::new();
        std::mem::swap(&mut self.reader_wait, &mut q);
        q.push(t);
        self.next_ticket = t + 1;
        self.reader_wait = q;
        t
    }

    /// Registers a pending exclusive request and returns its ticket.
    pub fn request_write(&mut self) -> (t: u64)
        requires
            old(self)@.can_request(),
        ensures
            t == old(self)@.next_ticket,
            final(self)@ == old(self)@.request_write(),
    {
        proof {
            use_type_invariant(&*self);
            lemma_push_keeps_tickets(self.writer_wait@, self.next_ticket);
        }
        let t = self.next_ticket;
        let mut q: Vec<u64> = Vec::new();
        std::mem::swap(&mut self.writer_wait, &mut q);
        q.push(t);
        self.next_ticket = t + 1;
        self.writer_wait = q;
        t
    }

    /// True while a reader has to keep waiting.
    pub fn read_must_wait(&self) -> (r: bool)
        ensures
            r == self@.read_must_wait(),
    {
        match self.pref {
            Preference::Reader => self.writer_holder.is_some(),
            Preference::Writer => self.writer_holder.is_some() || self.writer_wait.len() > 0,
        }
    }

    /// True while a writer has to keep waiting.
    pub fn write_must_wait(&self) -> (r: bool)
        ensures
            r == self@.write_must_wait(),
    {
        match self.pref {
            Preference::Reader => self.writer_holder.is_some() || self.reader_wait.len() > 0
                || self.reader_holders.len() > 0,
            Preference::Writer => self.writer_holder.is_some() || self.reader_holders.len() > 0,
        }
    }

    /// Admits the pending reader with ticket `t` if readers may enter; otherwise
    /// leaves everything as it is.
    pub fn admit_read(&mut self, t: u64) -> (r: bool)
        ensures
            r == old(self)@.admits_read(t),
            final(self)@ == old(self)@.admit_read(t),
    {
        proof {
            use_type_invariant(&*self);
        }
        if self.read_must_wait() {
            return false;
        }
        match position_of(&self.reader_wait, t) {
            None => false,
            Some(i) => {
                proof {
                    let q = self.reader_wait@;
                    assert(q[q.index_of(t)] == t);
                    assert(q.index_of(t) == i as int);
                    lemma_step_wf(old(self)@, Event::AdmitRead(t));
                    lemma_remove_keeps_tickets(q, i as int, self.next_ticket as nat);
                    lemma_remove_within(q, i as int);
                }
                let mut q: Vec<u64> = Vec::new();
                std::mem::swap(&mut self.reader_wait, &mut q);
                q.remove(i);
                self.reader_wait = q;
                let mut h: Vec<u64> = Vec::new();
                std::mem::swap(&mut self.reader_holders, &mut h);
                h.push(t);
                self.reader_holders = h;
                proof {
                    assert(self@ == old(self)@.admit_read(t));
                }
                true
            },
        }
    }

    /// Admits the pending writer with ticket `t` if writers may enter; otherwise
    /// leaves everything as it is.
    pub fn admit_write(&mut self, t: u64) -> (r: bool)
        ensures
            r == old(self)@.admits_write(t),
            final(self)@ == old(self)@.admit_write(t),
    {
        proof {
            use_type_invariant(&*self);
        }
        if self.write_must_wait() {
            return false;
        }
        match position_of(&self.writer_wait, t) {
            None => false,
            Some(i) => {
                proof {
                    let q = self.writer_wait@;
                    assert(q[q.index_of(t)] == t);
                    assert(q.index_of(t) == i as int);
                    lemma_remove_keeps_tickets(q, i as int, self.next_ticket as nat);
                }
                let mut q: Vec<u64> = Vec::new();
                std::mem::swap(&mut self.writer_wait, &mut q);
                q.remove(i);
                self.writer_wait = q;
                self.writer_holder = Some(t);
                true
            },
        }
    }

    /// Ends the shared hold of ticket `t`, which must hold shared access.
    pub fn release_read(&mut self, t: u64)
        requires
            old(self)@.holds_read(t),
        ensures
            final(self)@ == old(self)@.release_read(t),
    {
        proof {
            use_type_invariant(&*self);
        }
        match position_of(&self.reader_holders, t) {
            Some(i) => {
                proof {
                    let h = self.reader_holders@;
                    assert(h[h.index_of(t)] == t);
                    assert(h.index_of(t) == i as int);
                    lemma_remove_keeps_tickets(h, i as int, self.next_ticket as nat);
                    lemma_remove_within(h, i as int);
                }
                let mut h: Vec<u64> = Vec::new();
                std::mem::swap(&mut self.reader_holders, &mut h);
                h.remove(i);
                self.reader_holders = h;
            },
            None => {},
        }
    }

    /// Ends the exclusive hold of ticket `t`, which must hold exclusive access.
    pub fn release_write(&mut self, t: u64)
        requires
            old(self)@.holds_write(t),
        ensures
            final(self)@ == old(self)@.release_write(t),
    {
        proof {
            use_type_invariant(&*self);
        }
        self.writer_holder = None;
    }

    /// Every waiting reader's ticket, in wake order.
    fn readers_to_wake(&self) -> (r: Vec<u64>)
        ensures
            r@ == self@.readers_in_wake_order(),
    {
        let n = self.reader_wait.len();
        let mut r: Vec<u64> = Vec::new();
        let mut i: usize = 0;
        while i < n
            invariant
                n == self.reader_wait@.len(),
                i <= n,
                r@.len() == i,
                forall|k: int|
                    0 <= k < i ==> #[trigger] r@[k] == match self.order {
                        Order::Fifo => self.reader_wait@[k],
                        Order::Lifo => self.reader_wait@[n - 1 - k],
                    },
            decreases n - i,
        {
            let t = match self.order {
                Order::Fifo => self.reader_wait[i],
                Order::Lifo => self.reader_wait[n - 1 - i],
            };
            r.push(t);
            i = i + 1;
        }
        proof {
            match self.order {
                Order::Fifo => {
                    assert(r@ =~= self.reader_wait@);
                },
                Order::Lifo => {
                    assert(r@ =~= self.reader_wait@.reverse());
                },
            }
        }
        r
    }

    /// Wake selection: the tickets to signal after a release.
    pub fn wake_list(&self) -> (r: Vec<u64>)
        ensures
            r@ == self@.wake_list(),
    {
        let writer = match self.order {
            Order::Fifo => 0,
            Order::Lifo => if self.writer_wait.len() > 0 { self.writer_wait.len() - 1 } else { 0 },
        };
        match self.pref {
            Preference::Reader => {
                if self.reader_wait.len() > 0 {
                    self.readers_to_wake()
                } else if self.writer_wait.len() > 0 {
                    let v = vec![self.writer_wait[writer]];
                    proof {
                        assert(v@ =~= seq![self@.next_writer()]);
                    }
                    v
                } else {
                    Vec::new()
                }
            },
            Preference::Writer => {
                if self.writer_wait.len() > 0 {
                    let v = vec![self.writer_wait[writer]];
                    proof {
                        assert(v@ =~= seq![self@.next_writer()]);
                    }
                    v
                } else if self.reader_wait.len() > 0 {
                    self.readers_to_wake()
                } else {
                    Vec::new()
                }
            },
        }
    }
}

impl MonitorView {
    /// The state of a freshly built lock.
    pub open spec fn initial(pref: Preference, order: Order) -> MonitorView {
        MonitorView {
            pref,
            order,
            reader_active: 0,
            writer_active: 0,
            reader_holders: Seq::empty(),
            writer_holder: None,
            reader_wait: Seq::empty(),
            writer_wait: Seq::empty(),
            next_ticket: 0,
        }
    }

    /// Every ticket in `q` was handed out before `next_ticket`.
    pub open spec fn issued(self, q: Seq<u64>) -> bool {
        forall|i: int| 0 <= i < q.len() ==> (#[trigger] q[i] as nat) < self.next_ticket
    }

    /// Well-formedness: mutual exclusion, and queues of distinct, issued tickets.
    pub open spec fn wf(self) -> bool {
        &&& self.writer_active <= 1
        &&& self.writer_active > 0 ==> self.reader_active == 0
        &&& self.reader_active > 0 ==> self.writer_active == 0
        &&& self.reader_active == self.reader_holders.len()
        &&& self.writer_active == (if self.writer_holder is Some { 1nat } else { 0nat })
        &&& self.reader_holders.no_duplicates()
        &&& self.issued(self.reader_holders)
        &&& forall|i: int|
            0 <= i < self.reader_wait.len() ==> !self.reader_holders.contains(
                #[trigger] self.reader_wait[i],
            )
        &&& self.reader_wait.no_duplicates()
        &&& self.writer_wait.no_duplicates()
        &&& self.issued(self.reader_wait)
        &&& self.issued(self.writer_wait)
        &&& self.reader_active + self.writer_active + self.reader_wait.len()
            + self.writer_wait.len() <= self.next_ticket
        &&& self.next_ticket <= u64::MAX
    }

    /// Admission predicate for shared access: true while a reader must wait.
    pub open spec fn read_must_wait(self) -> bool {
        match self.pref {
            Preference::Reader => self.writer_active > 0,
            Preference::Writer => self.writer_active > 0 || self.writer_wait.len() > 0,
        }
    }

    /// Admission predicate for exclusive access: true while a writer must wait.
    pub open spec fn write_must_wait(self) -> bool {
        match self.pref {
            Preference::Reader => self.writer_active > 0 || self.reader_wait.len() > 0
                || self.reader_active > 0,
            Preference::Writer => self.writer_active > 0 || self.reader_active > 0,
        }
    }

    /// The writer that wake selection signals: the head of the queue (Fifo) or its tail (Lifo).
    pub open spec fn next_writer(self) -> u64 {
        match self.order {
            Order::Fifo => self.writer_wait.first(),
            Order::Lifo => self.writer_wait.last(),
        }
    }

    /// Whether one more ticket can be handed out.
    pub open spec fn can_request(self) -> bool {
        self.next_ticket < u64::MAX
    }

    pub open spec fn request_read(self) -> MonitorView {
        if self.can_request() {
            MonitorView {
                reader_wait: self.reader_wait.push(self.next_ticket as u64),
                next_ticket: self.next_ticket + 1,
                ..self
            }
        } else {
            self
        }
    }

    pub open spec fn request_write(self) -> MonitorView {
        if self.can_request() {
            MonitorView {
                writer_wait: self.writer_wait.push(self.next_ticket as u64),
                next_ticket: self.next_ticket + 1,
                ..self
            }
        } else {
            self
        }
    }

    /// A pending reader is admitted once the predicate lets readers in.
    pub open spec fn admits_read(self, t: u64) -> bool {
        self.reader_wait.contains(t) && !self.read_must_wait()
    }

    pub open spec fn admit_read(self, t: u64) -> MonitorView {
        if self.admits_read(t) {
            MonitorView {
                reader_wait: self.reader_wait.remove(self.reader_wait.index_of(t)),
                reader_active: self.reader_active + 1,
                reader_holders: self.reader_holders.push(t),
                ..self
            }
        } else {
            self
        }
    }

    /// A pending writer is admitted once the predicate lets writers in.
    pub open spec fn admits_write(self, t: u64) -> bool {
        self.writer_wait.contains(t) && !self.write_must_wait()
    }

    pub open spec fn admit_write(self, t: u64) -> MonitorView {
        if self.admits_write(t) {
            MonitorView {
                writer_wait: self.writer_wait.remove(self.writer_wait.index_of(t)),
                writer_active: 1,
                writer_holder: Some(t),
                ..self
            }
        } else {
            self
        }
    }

    /// Whether ticket `t` holds shared access.
    pub open spec fn holds_read(self, t: u64) -> bool {
        self.reader_holders.contains(t)
    }

    /// Whether ticket `t` holds exclusive access.
    pub open spec fn holds_write(self, t: u64) -> bool {
        self.writer_holder == Some(t)
    }

    pub open spec fn release_read(self, t: u64) -> MonitorView
        recommends
            self.holds_read(t),
    {
        MonitorView {
            reader_active: (self.reader_active - 1) as nat,
            reader_holders: self.reader_holders.remove(self.reader_holders.index_of(t)),
            ..self
        }
    }

    pub open spec fn release_write(self, t: u64) -> MonitorView
        recommends
            self.holds_write(t),
    {
        MonitorView { writer_active: 0, writer_holder: None, ..self }
    }

    /// Every waiting reader, in the order in which they are signalled.
    pub open spec fn readers_in_wake_order(self) -> Seq<u64> {
        match self.order {
            Order::Fifo => self.reader_wait,
            Order::Lifo => self.reader_wait.reverse(),
        }
    }

    /// Wake selection: the tickets to signal after a release.
    pub open spec fn wake_list(self) -> Seq<u64> {
        match self.pref {
            Preference::Reader => if self.reader_wait.len() > 0 {
                self.readers_in_wake_order()
            } else if self.writer_wait.len() > 0 {
                seq![self.next_writer()]
            } else {
                Seq::empty()
            },
            Preference::Writer => if self.writer_wait.len() > 0 {
                seq![self.next_writer()]
            } else if self.reader_wait.len() > 0 {
                self.readers_in_wake_order()
            } else {
                Seq::empty()
            },
        }
    }

    pub open spec fn step(self, e: Event) -> MonitorView {
        match e {
            Event::RequestRead => self.request_read(),
            Event::RequestWrite => self.request_write(),
            Event::AdmitRead(t) => self.admit_read(t),
            Event::AdmitWrite(t) => self.admit_write(t),
            Event::ReleaseRead(t) => if self.holds_read(t) {
                self.release_read(t)
            } else {
                self
            },
            Event::ReleaseWrite(t) => if self.holds_write(t) {
                self.release_write(t)
            } else {
                self
            },
        }
    }

    /// The state after the events `es`, in order.
    pub open spec fn run(self, es: Seq<Event>) -> MonitorView
        decreases es.len(),
    {
        if es.len() == 0 {
            self
        } else {
            self.step(es[0]).run(es.drop_first())
        }
    }
}

/// Removing one entry keeps a queue of distinct tickets below `bound` so.
proof fn lemma_remove_keeps_tickets(q: Seq<u64>, i: int, bound: nat)
    requires
        0 <= i < q.len(),
        q.no_duplicates(),
        forall|k: int| 0 <= k < q.len() ==> (#[trigger] q[k] as nat) < bound,
    ensures
        q.remove(i).len() == q.len() - 1,
        q.remove(i).no_duplicates(),
        forall|k: int| 0 <= k < q.remove(i).len() ==> (#[trigger] q.remove(i)[k] as nat) < bound,
{
    q.remove_ensures(i);
    let r = q.remove(i);
    assert forall|a: int, b: int| 0 <= a < r.len() && 0 <= b < r.len() && a != b implies r[a]
        != r[b] by {
        let a2 = if a < i { a } else { a + 1 };
        let b2 = if b < i { b } else { b + 1 };
        assert(r[a] == q[a2]);
        assert(r[b] == q[b2]);
    }
    assert forall|k: int| 0 <= k < r.len() implies (#[trigger] r[k] as nat) < bound by {
        let k2 = if k < i { k } else { k + 1 };
        assert(r[k] == q[k2]);
    }
}

/// Appending a fresh ticket keeps a queue of distinct issued tickets so.
proof fn lemma_push_keeps_tickets(q: Seq<u64>, t: u64)
    requires
        q.no_duplicates(),
        forall|k: int| 0 <= k < q.len() ==> (#[trigger] q[k] as nat) < t,
    ensures
        q.push(t).no_duplicates(),
        forall|k: int| 0 <= k < q.push(t).len() ==> (#[trigger] q.push(t)[k] as nat) < t + 1,
{
    let r = q.push(t);
    assert forall|a: int, b: int| 0 <= a < r.len() && 0 <= b < r.len() && a != b implies r[a]
        != r[b] by {
        if a < q.len() && b < q.len() {
            assert(r[a] == q[a] && r[b] == q[b]);
        } else if a < q.len() {
            assert(r[a] == q[a]);
        } else if b < q.len() {
            assert(r[b] == q[b]);
        }
    }
    assert forall|k: int| 0 <= k < r.len() implies (#[trigger] r[k] as nat) < t + 1 by {
        if k < q.len() {
            assert(r[k] == q[k]);
        }
    }
}

/// What a queue of distinct tickets holds once its entry at `i` is removed.
proof fn lemma_remove_within(q: Seq<u64>, i: int)
    requires
        0 <= i < q.len(),
        q.no_duplicates(),
    ensures
        forall|x: u64| #[trigger] q.remove(i).contains(x) <==> (q.contains(x) && x != q[i]),
{
    q.remove_ensures(i);
    let r = q.remove(i);
    assert forall|x: u64| #[trigger] r.contains(x) <==> (q.contains(x) && x != q[i]) by {
        if r.contains(x) {
            let k = choose|k: int| 0 <= k < r.len() && r[k] == x;
            let k2 = if k < i { k } else { k + 1 };
            assert(q[k2] == x);
        }
        if q.contains(x) && x != q[i] {
            let j = choose|j: int| 0 <= j < q.len() && q[j] == x;
            let j2 = if j < i { j } else { j - 1 };
            assert(r[j2] == x);
        }
    }
}

/// Each single transition keeps the monitor well formed.
pub proof fn lemma_step_wf(s: MonitorView, e: Event)
    requires
        s.wf(),
    ensures
        s.step(e).wf(),
{
    match e {
        Event::RequestRead => {
            if s.can_request() {
                let t = s.next_ticket as u64;
                lemma_push_keeps_tickets(s.reader_wait, t);
                let n = s.request_read();
                assert forall|i: int| 0 <= i < n.reader_wait.len() implies !n.reader_holders.contains(
                    #[trigger] n.reader_wait[i],
                ) by {
                    if i < s.reader_wait.len() {
                        assert(n.reader_wait[i] == s.reader_wait[i]);
                    } else {
                        if n.reader_holders.contains(t) {
                            let k = choose|k: int|
                                0 <= k < n.reader_holders.len() && n.reader_holders[k] == t;
                            assert((s.reader_holders[k] as nat) < s.next_ticket);
                        }
                    }
                }
            }
        },
        Event::RequestWrite => {
            if s.can_request() {
                lemma_push_keeps_tickets(s.writer_wait, s.next_ticket as u64);
            }
        },
        Event::AdmitRead(t) => {
            if s.admits_read(t) {
                let q = s.reader_wait;
                let h = s.reader_holders;
                let i = q.index_of(t);
                lemma_remove_keeps_tickets(q, i, s.next_ticket);
                lemma_remove_within(q, i);
                assert(!h.contains(t)) by {
                    assert(q[i] == t);
                }
                let n = s.admit_read(t);
                assert(n.reader_holders == h.push(t));
                assert forall|a: int, b: int|
                    0 <= a < n.reader_holders.len() && 0 <= b < n.reader_holders.len() && a
                        != b implies n.reader_holders[a] != n.reader_holders[b] by {
                    if a < h.len() && b < h.len() {
                    } else if a < h.len() {
                        assert(h.contains(h[a]));
                    } else if b < h.len() {
                        assert(h.contains(h[b]));
                    }
                }
                assert forall|k: int| 0 <= k < n.reader_holders.len() implies (
                #[trigger] n.reader_holders[k] as nat) < n.next_ticket by {
                    if k == h.len() {
                        assert(q[i] == t);
                    }
                }
                assert forall|k: int| 0 <= k < n.reader_wait.len() implies !n.reader_holders.contains(
                    #[trigger] n.reader_wait[k],
                ) by {
                    let x = n.reader_wait[k];
                    assert(q.remove(i).contains(x));
                    let j = choose|j: int| 0 <= j < q.len() && q[j] == x;
                    assert(!h.contains(q[j]));
                    if n.reader_holders.contains(x) {
                        let m = choose|m: int|
                            0 <= m < n.reader_holders.len() && n.reader_holders[m] == x;
                        if m < h.len() {
                            assert(h[m] == x);
                        }
                    }
                }
            }
        },
        Event::AdmitWrite(t) => {
            if s.admits_write(t) {
                let i = s.writer_wait.index_of(t);
                lemma_remove_keeps_tickets(s.writer_wait, i, s.next_ticket);
            }
        },
        Event::ReleaseRead(t) => {
            if s.holds_read(t) {
                let h = s.reader_holders;
                let i = h.index_of(t);
                lemma_remove_keeps_tickets(h, i, s.next_ticket);
                lemma_remove_within(h, i);
                let n = s.release_read(t);
                assert forall|k: int| 0 <= k < n.reader_wait.len() implies !n.reader_holders.contains(
                    #[trigger] n.reader_wait[k],
                ) by {
                    assert(!h.contains(s.reader_wait[k]));
                }
            }
        },
        Event::ReleaseWrite(t) => {},
    }
}

/// Mutual exclusion: from a well-formed state, whatever events follow, at most one
/// writer holds the lock, and never together with a reader.
pub proof fn lemma_mutual_exclusion(s: MonitorView, es: Seq<Event>)
    requires
        s.wf(),
    ensures
        s.run(es).wf(),
        s.run(es).writer_active <= 1,
        s.run(es).writer_active > 0 ==> s.run(es).reader_active == 0,
        s.run(es).reader_active > 0 ==> s.run(es).writer_active == 0,
    decreases es.len(),
{
    if es.len() > 0 {
        lemma_step_wf(s, es[0]);
        lemma_mutual_exclusion(s.step(es[0]), es.drop_first());
    }
}

/// Each admission is undone by exactly one release: the admitted ticket holds
/// access, its release is allowed and brings the count back, and afterwards the
/// ticket holds nothing, so a second release by it is refused.
pub proof fn lemma_release_balances_admission(s: MonitorView, t: u64)
    requires
        s.wf(),
    ensures
        s.admits_read(t) ==> s.admit_read(t).holds_read(t),
        s.admits_read(t) ==> s.admit_read(t).release_read(t).reader_active == s.reader_active,
        s.admits_read(t) ==> !s.admit_read(t).release_read(t).holds_read(t),
        s.admits_write(t) ==> s.admit_write(t).holds_write(t),
        s.admits_write(t) ==> s.admit_write(t).release_write(t).writer_active == s.writer_active,
        s.admits_write(t) ==> !s.admit_write(t).release_write(t).holds_write(t),
{
    if s.admits_read(t) {
        let n = s.admit_read(t);
        lemma_step_wf(s, Event::AdmitRead(t));
        assert(n.reader_holders[n.reader_holders.len() - 1] == t);
        let i = n.reader_holders.index_of(t);
        lemma_remove_within(n.reader_holders, i);
    }
}

} // verus!
