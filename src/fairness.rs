use vstd::prelude::*;

use crate::monitor::{lemma_step_wf, Event, MonitorView};
use crate::policy::{Order, Preference};

verus! {

/// The `n` tickets handed out from `from` on, in order.
pub open spec fn fresh_tickets(from: nat, n: nat) -> Seq<u64> {
    Seq::new(n, |i: int| (from + i) as u64)
}

/// `n` shared requests, one after another.
pub open spec fn request_reads(s: MonitorView, n: nat) -> MonitorView
    decreases n,
{
    if n == 0 {
        s
    } else {
        request_reads(s, (n - 1) as nat).request_read()
    }
}

/// `n` exclusive requests, one after another.
pub open spec fn request_writes(s: MonitorView, n: nat) -> MonitorView
    decreases n,
{
    if n == 0 {
        s
    } else {
        request_writes(s, (n - 1) as nat).request_write()
    }
}

/// Admission attempts for the readers with tickets `first`, `first + 1`, ... (`n` of them).
pub open spec fn admit_reads(s: MonitorView, first: nat, n: nat) -> MonitorView
    decreases n,
{
    if n == 0 {
        s
    } else {
        admit_reads(s, first, (n - 1) as nat).admit_read((first + n - 1) as u64)
    }
}

/// `k` rounds in which the writer that wake selection signals enters and then leaves again.
pub open spec fn serve_writers(s: MonitorView, k: nat) -> MonitorView
    decreases k,
{
    if k == 0 {
        s
    } else {
        let p = serve_writers(s, (k - 1) as nat);
        p.admit_write(p.next_writer()).release_write(p.next_writer())
    }
}

proof fn lemma_request_reads(s: MonitorView, n: nat)
    requires
        s.next_ticket + n <= u64::MAX,
    ensures
        request_reads(s, n) == (MonitorView {
            reader_wait: s.reader_wait + fresh_tickets(s.next_ticket, n),
            next_ticket: s.next_ticket + n,
            ..s
        }),
    decreases n,
{
    if n > 0 {
        lemma_request_reads(s, (n - 1) as nat);
        assert((s.reader_wait + fresh_tickets(s.next_ticket, (n - 1) as nat)).push(
            (s.next_ticket + n - 1) as u64,
        ) =~= s.reader_wait + fresh_tickets(s.next_ticket, n));
    } else {
        assert(s.reader_wait + fresh_tickets(s.next_ticket, 0) =~= s.reader_wait);
    }
}

proof fn lemma_request_writes(s: MonitorView, n: nat)
    requires
        s.next_ticket + n <= u64::MAX,
    ensures
        request_writes(s, n) == (MonitorView {
            writer_wait: s.writer_wait + fresh_tickets(s.next_ticket, n),
            next_ticket: s.next_ticket + n,
            ..s
        }),
    decreases n,
{
    if n > 0 {
        lemma_request_writes(s, (n - 1) as nat);
        assert((s.writer_wait + fresh_tickets(s.next_ticket, (n - 1) as nat)).push(
            (s.next_ticket + n - 1) as u64,
        ) =~= s.writer_wait + fresh_tickets(s.next_ticket, n));
    } else {
        assert(s.writer_wait + fresh_tickets(s.next_ticket, 0) =~= s.writer_wait);
    }
}

/// After `n` requests from `s`, the first `k` of them are admitted in turn, each at
/// its first attempt, and the rest still wait behind the readers queued before.
proof fn lemma_admit_reads(s: MonitorView, n: nat, k: nat)
    requires
        s.wf(),
        !s.read_must_wait(),
        s.next_ticket + n <= u64::MAX,
        k <= n,
    ensures
        admit_reads(request_reads(s, n), s.next_ticket, k) == (MonitorView {
            reader_wait: s.reader_wait + fresh_tickets(s.next_ticket + k, (n - k) as nat),
            reader_active: s.reader_active + k,
            reader_holders: s.reader_holders + fresh_tickets(s.next_ticket, k),
            next_ticket: s.next_ticket + n,
            ..s
        }),
        forall|j: nat|
            j < k ==> #[trigger] admit_reads(request_reads(s, n), s.next_ticket, j).admits_read(
                (s.next_ticket + j) as u64,
            ),
    decreases k,
{
    lemma_request_reads(s, n);
    let t0 = s.next_ticket;
    if k == 0 {
        assert(fresh_tickets(t0, n) =~= fresh_tickets(t0 + 0, (n - 0) as nat));
        assert(s.reader_holders + fresh_tickets(t0, 0) =~= s.reader_holders);
    } else {
        lemma_admit_reads(s, n, (k - 1) as nat);
        let p = admit_reads(request_reads(s, n), t0, (k - 1) as nat);
        let t = (t0 + k - 1) as u64;
        let tail = fresh_tickets((t0 + k - 1) as nat, (n - k + 1) as nat);
        let q = s.reader_wait + tail;
        let m = s.reader_wait.len() as int;
        assert(p.reader_wait == q);
        assert(q[m] == t);
        assert(q.contains(t));
        assert(!p.read_must_wait());
        let j = q.index_of(t);
        if j < m {
            assert(q[j] == s.reader_wait[j]);
            assert((s.reader_wait[j] as nat) < t0);
        } else if j > m {
            assert(q[j] == tail[j - m]);
        }
        assert(j == m);
        assert(q.remove(m) =~= s.reader_wait + fresh_tickets(t0 + k, (n - k) as nat));
        assert((s.reader_holders + fresh_tickets(t0, (k - 1) as nat)).push(t) =~= s.reader_holders
            + fresh_tickets(t0, k));
        assert forall|i: nat| i < k implies #[trigger] admit_reads(
            request_reads(s, n),
            t0,
            i,
        ).admits_read((t0 + i) as u64) by {
            if i == k - 1 {
                assert(p.admits_read(t));
            }
        }
    }
}

/// Shared access scales: when readers may enter, `n` readers that all register and
/// are then admitted in turn never wait on each other, and the reader count grows
/// by exactly `n`.
pub proof fn lemma_shared_access_scales(s: MonitorView, n: nat)
    requires
        s.wf(),
        !s.read_must_wait(),
        s.next_ticket + n <= u64::MAX,
    ensures
        forall|j: nat|
            j < n ==> #[trigger] admit_reads(request_reads(s, n), s.next_ticket, j).admits_read(
                (s.next_ticket + j) as u64,
            ),
        admit_reads(request_reads(s, n), s.next_ticket, n).reader_active == s.reader_active + n,
        admit_reads(request_reads(s, n), s.next_ticket, n).reader_wait == s.reader_wait,
{
    lemma_admit_reads(s, n, n);
    assert(s.reader_wait + fresh_tickets(s.next_ticket + n, 0) =~= s.reader_wait);
}

/// Reader preference can starve a writer: while a reader holds the lock, any number
/// of further readers register and are admitted, and no waiting writer gets in.
pub proof fn lemma_reader_preference_starves_writers(s: MonitorView, k: nat)
    requires
        s.wf(),
        s.pref == Preference::Reader,
        s.reader_active > 0,
        s.next_ticket + k <= u64::MAX,
    ensures
        admit_reads(request_reads(s, k), s.next_ticket, k).reader_active == s.reader_active + k,
        admit_reads(request_reads(s, k), s.next_ticket, k).writer_wait == s.writer_wait,
        forall|w: u64| !#[trigger] admit_reads(request_reads(s, k), s.next_ticket, k).admits_write(w),
{
    lemma_admit_reads(s, k, k);
}

/// Writer preference can starve a reader: while a writer holds or awaits the lock,
/// any number of further writers register, and no waiting reader gets in.
pub proof fn lemma_writer_preference_starves_readers(s: MonitorView, k: nat)
    requires
        s.wf(),
        s.pref == Preference::Writer,
        s.writer_active > 0 || s.writer_wait.len() > 0,
        s.next_ticket + k <= u64::MAX,
    ensures
        request_writes(s, k).reader_wait == s.reader_wait,
        forall|r: u64| !#[trigger] request_writes(s, k).admits_read(r),
{
    lemma_request_writes(s, k);
}

/// Serving `k` writers from an idle lock in which writers may enter takes them off
/// the queue at the end that the wake order names, each one at its turn.
proof fn lemma_serve_writers(s: MonitorView, k: nat)
    requires
        s.wf(),
        s.reader_active == 0,
        s.writer_active == 0,
        s.pref == Preference::Writer || s.reader_wait.len() == 0,
        k <= s.writer_wait.len(),
    ensures
        serve_writers(s, k) == (MonitorView {
            writer_wait: match s.order {
                Order::Fifo => s.writer_wait.subrange(k as int, s.writer_wait.len() as int),
                Order::Lifo => s.writer_wait.subrange(0, s.writer_wait.len() - k),
            },
            ..s
        }),
        serve_writers(s, k).wf(),
    decreases k,
{
    if k == 0 {
        assert(s.writer_wait.subrange(0, s.writer_wait.len() as int) =~= s.writer_wait);
    } else {
        lemma_serve_writers(s, (k - 1) as nat);
        let p = serve_writers(s, (k - 1) as nat);
        let w = p.next_writer();
        assert(p.admits_write(w));
        lemma_step_wf(p, Event::AdmitWrite(w));
        lemma_step_wf(p.admit_write(w), Event::ReleaseWrite(w));
        let n = s.writer_wait.len() as int;
        match s.order {
            Order::Fifo => {
                assert(p.writer_wait.drop_first() =~= s.writer_wait.subrange(k as int, n));
            },
            Order::Lifo => {
                assert(p.writer_wait.drop_last() =~= s.writer_wait.subrange(0, n - k));
            },
        }
    }
}

/// First-in, first-out: once the lock is free for writers, the queued writers are
/// signalled one per turn in the order in which they asked; the signalled writer
/// enters, and the rest keep their order in the queue.
pub proof fn lemma_fifo_admits_in_arrival_order(s: MonitorView, k: nat)
    requires
        s.wf(),
        s.order == Order::Fifo,
        s.reader_active == 0,
        s.writer_active == 0,
        s.pref == Preference::Writer || s.reader_wait.len() == 0,
        k < s.writer_wait.len(),
    ensures
        serve_writers(s, k).wake_list() == seq![s.writer_wait[k as int]],
        serve_writers(s, k).admits_write(s.writer_wait[k as int]),
        serve_writers(s, (k + 1) as nat).writer_wait == s.writer_wait.subrange(
            k + 1 as int,
            s.writer_wait.len() as int,
        ),
{
    lemma_serve_writers(s, k);
    lemma_serve_writers(s, (k + 1) as nat);
    assert(serve_writers(s, k).writer_wait.contains(s.writer_wait[k as int])) by {
        assert(serve_writers(s, k).writer_wait[0] == s.writer_wait[k as int]);
    }
}

/// Last-in, first-out: once the lock is free for writers, the queued writers are
/// signalled one per turn, newest first; the signalled writer enters, and the rest
/// keep their order in the queue.
pub proof fn lemma_lifo_admits_newest_first(s: MonitorView, k: nat)
    requires
        s.wf(),
        s.order == Order::Lifo,
        s.reader_active == 0,
        s.writer_active == 0,
        s.pref == Preference::Writer || s.reader_wait.len() == 0,
        k < s.writer_wait.len(),
    ensures
        serve_writers(s, k).wake_list() == seq![s.writer_wait[s.writer_wait.len() - 1 - k]],
        serve_writers(s, k).admits_write(s.writer_wait[s.writer_wait.len() - 1 - k]),
        serve_writers(s, (k + 1) as nat).writer_wait == s.writer_wait.subrange(
            0,
            s.writer_wait.len() - 1 - k,
        ),
{
    lemma_serve_writers(s, k);
    lemma_serve_writers(s, (k + 1) as nat);
    let p = serve_writers(s, k);
    assert(p.writer_wait.contains(s.writer_wait[s.writer_wait.len() - 1 - k])) by {
        assert(p.writer_wait[p.writer_wait.len() - 1] == s.writer_wait[s.writer_wait.len() - 1
            - k]);
    }
}

/// Only reader events: registrations, and admission attempts for any tickets.
pub open spec fn reader_events_only(es: Seq<Event>) -> bool {
    forall|i: int| 0 <= i < es.len() ==> (#[trigger] es[i] is RequestRead || es[i] is AdmitRead)
}

/// Readers never block one another: when readers may enter, then however the
/// registrations and admission attempts of any number of readers interleave, readers
/// may still enter, every reader still queued is admitted at its next attempt, no
/// writer state changes, and each registered reader is either admitted or queued.
pub proof fn lemma_readers_never_block(s: MonitorView, es: Seq<Event>)
    requires
        s.wf(),
        !s.read_must_wait(),
        reader_events_only(es),
    ensures
        s.run(es).wf(),
        !s.run(es).read_must_wait(),
        forall|t: u64| #[trigger] s.run(es).reader_wait.contains(t) ==> s.run(es).admits_read(t),
        s.run(es).writer_active == s.writer_active,
        s.run(es).writer_wait == s.writer_wait,
        s.run(es).reader_active + s.run(es).reader_wait.len() == s.reader_active
            + s.reader_wait.len() + s.run(es).next_ticket - s.next_ticket,
    decreases es.len(),
{
    if es.len() > 0 {
        lemma_step_wf(s, es[0]);
        let n = s.step(es[0]);
        assert(es[0] is RequestRead || es[0] is AdmitRead);
        if let Event::AdmitRead(t) = es[0] {
            if s.admits_read(t) {
                s.reader_wait.remove_ensures(s.reader_wait.index_of(t));
            }
        }
        assert(reader_events_only(es.drop_first())) by {
            assert forall|i: int| 0 <= i < es.drop_first().len() implies (
            #[trigger] es.drop_first()[i] is RequestRead || es.drop_first()[i] is AdmitRead) by {
                assert(es.drop_first()[i] == es[i + 1]);
            }
        }
        lemma_readers_never_block(n, es.drop_first());
    }
}

} // verus!
