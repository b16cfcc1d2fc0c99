use fair_rwlock::{Order, Preference, RwLock};

fn admitted_writers(pref: Preference, order: Order) -> Vec<u64> {
    let mut l = RwLock::new(0u32, pref, order);
    let r = l.request_read();
    let holder = l.admit_read(r).unwrap();
    let w1 = l.request_write();
    let w2 = l.request_write();
    let w3 = l.request_write();
    let tickets = [w1, w2, w3];
    let mut seen = Vec::new();
    l.release_read(holder);
    for _ in 0..3 {
        let woken = l.notify_others();
        assert_eq!(woken.len(), 1);
        let g = l.admit_write(woken[0]).unwrap();
        for t in tickets.iter() {
            assert!(l.admit_write(*t).is_none());
        }
        seen.push(g.ticket());
        l.release_write(g);
    }
    assert_eq!(l.writers_waiting(), 0);
    vec![seen[0] - w1, seen[1] - w1, seen[2] - w1]
}

#[test]
fn new_lock_is_idle() {
    let l = RwLock::new(String::from("x"), Preference::Reader, Order::Lifo);
    assert_eq!(l.reader_active(), 0);
    assert_eq!(l.writer_active(), 0);
    assert_eq!(l.readers_waiting(), 0);
    assert_eq!(l.writers_waiting(), 0);
    assert_eq!(l.preference(), Preference::Reader);
    assert_eq!(l.order(), Order::Lifo);
    assert!(l.can_request());
    assert!(!l.read_wait());
    assert!(!l.write_wait());
    assert!(l.notify_others().is_empty());
}

#[test]
fn tickets_count_up() {
    let mut l = RwLock::new(0u8, Preference::Writer, Order::Fifo);
    assert_eq!(l.request_read(), 0);
    assert_eq!(l.request_write(), 1);
    assert_eq!(l.request_read(), 2);
    assert_eq!(l.readers_waiting(), 2);
    assert_eq!(l.writers_waiting(), 1);
}

#[test]
fn write_excludes_read_and_write() {
    for pref in [Preference::Reader, Preference::Writer] {
        let mut l = RwLock::new(0u8, pref, Order::Fifo);
        let w = l.request_write();
        let g = l.admit_write(w).unwrap();
        assert_eq!(l.writer_active(), 1);
        let r = l.request_read();
        assert!(l.admit_read(r).is_none());
        let w2 = l.request_write();
        assert!(l.admit_write(w2).is_none());
        assert_eq!(l.reader_active(), 0);
        assert_eq!(l.writer_active(), 1);
        l.release_write(g);
        assert_eq!(l.writer_active(), 0);
    }
}

#[test]
fn read_excludes_write() {
    for pref in [Preference::Reader, Preference::Writer] {
        let mut l = RwLock::new(0u8, pref, Order::Lifo);
        let r = l.request_read();
        let g = l.admit_read(r).unwrap();
        let w = l.request_write();
        assert!(l.write_wait());
        assert!(l.admit_write(w).is_none());
        assert_eq!(l.writer_active(), 0);
        l.release_read(g);
        assert!(l.admit_write(w).is_some());
        assert_eq!(l.writer_active(), 1);
        assert_eq!(l.reader_active(), 0);
    }
}

#[test]
fn many_readers_share_access() {
    let n = 16usize;
    let mut l = RwLock::new(1i64, Preference::Writer, Order::Fifo);
    let tickets: Vec<u64> = (0..n).map(|_| l.request_read()).collect();
    let mut guards = Vec::new();
    for t in tickets {
        guards.push(l.admit_read(t).unwrap());
    }
    assert_eq!(l.reader_active(), n as u64);
    assert_eq!(l.readers_waiting(), 0);
    for g in guards.iter() {
        assert_eq!(*l.read_value(g), 1);
    }
    for g in guards {
        l.release_read(g);
    }
    assert_eq!(l.reader_active(), 0);
}

#[test]
fn reader_preference_starves_writer() {
    let mut l = RwLock::new(0u8, Preference::Reader, Order::Fifo);
    let r = l.request_read();
    let mut held = l.admit_read(r).unwrap();
    let w = l.request_write();
    for _ in 0..10 {
        let r = l.request_read();
        let g = l.admit_read(r).unwrap();
        assert!(l.admit_write(w).is_none());
        l.release_read(held);
        held = g;
        assert!(l.admit_write(w).is_none());
        assert_eq!(l.writers_waiting(), 1);
    }
    l.release_read(held);
    assert_eq!(l.notify_others(), vec![w]);
    assert!(l.admit_write(w).is_some());
}

#[test]
fn writer_preference_starves_reader() {
    let mut l = RwLock::new(0u8, Preference::Writer, Order::Fifo);
    let w = l.request_write();
    let mut held = l.admit_write(w).unwrap();
    let r = l.request_read();
    for _ in 0..10 {
        let w = l.request_write();
        assert!(l.admit_read(r).is_none());
        l.release_write(held);
        assert_eq!(l.notify_others(), vec![w]);
        assert!(l.admit_read(r).is_none());
        held = l.admit_write(w).unwrap();
    }
    l.release_write(held);
    assert_eq!(l.notify_others(), vec![r]);
    assert!(l.admit_read(r).is_some());
}

#[test]
fn reader_preference_lets_readers_pass_waiting_writer() {
    let mut l = RwLock::new(0u8, Preference::Reader, Order::Fifo);
    let w = l.request_write();
    let r = l.request_read();
    assert!(l.write_wait());
    assert!(l.admit_write(w).is_none());
    assert!(l.admit_read(r).is_some());
}

#[test]
fn fifo_admits_writers_in_arrival_order() {
    assert_eq!(admitted_writers(Preference::Writer, Order::Fifo), vec![0, 1, 2]);
}

#[test]
fn lifo_admits_writers_newest_first() {
    assert_eq!(admitted_writers(Preference::Writer, Order::Lifo), vec![2, 1, 0]);
}

#[test]
fn reader_preference_fifo_and_lifo_writer_order() {
    assert_eq!(admitted_writers(Preference::Reader, Order::Fifo), vec![0, 1, 2]);
    assert_eq!(admitted_writers(Preference::Reader, Order::Lifo), vec![2, 1, 0]);
}

#[test]
fn written_value_is_seen_by_later_readers() {
    let mut l = RwLock::new(vec![1u8], Preference::Reader, Order::Fifo);
    let w = l.request_write();
    let g = l.admit_write(w).unwrap();
    l.write_value(&g).push(9);
    assert_eq!(*l.peek_value(&g), vec![1, 9]);
    l.release_write(g);
    for _ in 0..3 {
        let r = l.request_read();
        let g = l.admit_read(r).unwrap();
        assert_eq!(*l.read_value(&g), vec![1, 9]);
        l.release_read(g);
    }
    let w = l.request_write();
    let g = l.admit_write(w).unwrap();
    *l.write_value(&g) = vec![4];
    l.release_write(g);
    let r = l.request_read();
    let g = l.admit_read(r).unwrap();
    assert_eq!(*l.read_value(&g), vec![4]);
}

#[test]
fn release_counts_down_once() {
    let mut l = RwLock::new(0u8, Preference::Reader, Order::Fifo);
    let a = l.request_read();
    let b = l.request_read();
    let ga = l.admit_read(a).unwrap();
    let gb = l.admit_read(b).unwrap();
    assert_eq!(l.reader_active(), 2);
    l.release_read(ga);
    assert_eq!(l.reader_active(), 1);
    l.release_read(gb);
    assert_eq!(l.reader_active(), 0);
    let w = l.request_write();
    let g = l.admit_write(w).unwrap();
    l.release_write(g);
    assert_eq!(l.writer_active(), 0);
    assert_eq!(l.reader_active(), 0);
}

#[test]
fn wake_selection_by_preference_and_order() {
    for order in [Order::Fifo, Order::Lifo] {
        let mut l = RwLock::new(0u8, Preference::Reader, order);
        let w0 = l.request_write();
        let g = l.admit_write(w0).unwrap();
        let r1 = l.request_read();
        let w2 = l.request_write();
        let r3 = l.request_read();
        let w4 = l.request_write();
        l.release_write(g);
        let readers = l.notify_others();
        match order {
            Order::Fifo => assert_eq!(readers, vec![r1, r3]),
            Order::Lifo => assert_eq!(readers, vec![r3, r1]),
        }
        let g1 = l.admit_read(r1).unwrap();
        let g3 = l.admit_read(r3).unwrap();
        l.release_read(g1);
        l.release_read(g3);
        match order {
            Order::Fifo => assert_eq!(l.notify_others(), vec![w2]),
            Order::Lifo => assert_eq!(l.notify_others(), vec![w4]),
        }
    }
    let mut l = RwLock::new(0u8, Preference::Writer, Order::Lifo);
    let w0 = l.request_write();
    let g = l.admit_write(w0).unwrap();
    let r1 = l.request_read();
    let w2 = l.request_write();
    let r3 = l.request_read();
    l.release_write(g);
    assert_eq!(l.notify_others(), vec![w2]);
    let g = l.admit_write(w2).unwrap();
    l.release_write(g);
    assert_eq!(l.notify_others(), vec![r3, r1]);
}

#[test]
fn unknown_ticket_is_not_admitted() {
    let mut l = RwLock::new(0u8, Preference::Writer, Order::Fifo);
    assert!(l.admit_read(5).is_none());
    assert!(l.admit_write(5).is_none());
    let w = l.request_write();
    assert!(l.admit_read(w).is_none());
    assert_eq!(l.writers_waiting(), 1);
}

#[test]
fn free_lock_admits_any_queued_writer() {
    let mut l = RwLock::new(0u8, Preference::Writer, Order::Fifo);
    let w1 = l.request_write();
    let w2 = l.request_write();
    let g = l.admit_write(w2).unwrap();
    assert_eq!(l.writers_waiting(), 1);
    assert!(l.admit_write(w1).is_none());
    l.release_write(g);
    assert_eq!(l.notify_others(), vec![w1]);
    assert!(l.admit_write(w1).is_some());
    assert_eq!(l.writers_waiting(), 0);
}

#[test]
fn writer_preference_new_writer_enters_free_lock_before_queued_writer() {
    let mut l = RwLock::new(0u8, Preference::Writer, Order::Fifo);
    let r0 = l.request_read();
    let g0 = l.admit_read(r0).unwrap();
    let w0 = l.request_write();
    let r1 = l.request_read();
    l.release_read(g0);
    let w1 = l.request_write();
    assert!(!l.write_wait());
    let g = l.admit_write(w1).unwrap();
    assert_eq!(g.ticket(), w1);
    assert_eq!(l.writer_active(), 1);
    assert_eq!(l.readers_waiting(), 1);
    assert_eq!(l.writers_waiting(), 1);
    assert!(l.admit_write(w0).is_none());
    assert!(l.admit_read(r1).is_none());
}

#[test]
fn reader_preference_waiting_reader_blocks_writer() {
    let mut l = RwLock::new(0u8, Preference::Reader, Order::Fifo);
    let w0 = l.request_write();
    let g = l.admit_write(w0).unwrap();
    let r = l.request_read();
    let w1 = l.request_write();
    assert!(l.read_wait());
    l.release_write(g);
    assert!(l.write_wait());
    assert!(l.admit_write(w1).is_none());
    assert_eq!(l.notify_others(), vec![r]);
    let gr = l.admit_read(r).unwrap();
    l.release_read(gr);
    assert_eq!(l.notify_others(), vec![w1]);
    assert!(l.admit_write(w1).is_some());
}

#[test]
fn guards_hold_until_released() {
    let mut l = RwLock::new(0u8, Preference::Reader, Order::Fifo);
    let a = l.request_read();
    let b = l.request_read();
    let ga = l.admit_read(a).unwrap();
    let gb = l.admit_read(b).unwrap();
    assert!(l.holds_read(&ga));
    assert!(l.holds_read(&gb));
    l.release_read(ga);
    assert!(l.holds_read(&gb));
    assert_eq!(l.reader_active(), 1);
    l.release_read(gb);
    let w = l.request_write();
    let gw = l.admit_write(w).unwrap();
    assert!(l.holds_write(&gw));
    l.release_write(gw);
    assert_eq!(l.writer_active(), 0);
}
