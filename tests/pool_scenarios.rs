use proxy_pool::{lock_outcome, random_id, Admission, ManageConnection, PoolError};

#[derive(Debug, PartialEq)]
struct FakeSender {
    id: u64,
    closed: bool,
}

fn open(pool: &mut ManageConnection<FakeSender>, dest: &str, cap: u32, id: u64) {
    assert_eq!(pool.reserve(dest.to_string(), cap, id), Admission::Open);
    assert_eq!(pool.finish_open(id, Ok(FakeSender { id, closed: false })), Ok(()));
}

#[test]
fn s1_first_call_warm_path() {
    let mut pool: ManageConnection<FakeSender> = ManageConnection::new();
    let dest = "127.0.0.1:9000".to_string();
    open(&mut pool, &dest, 4, 11);
    let sender = pool.pick_any(&dest).expect("a sender");
    assert_eq!(sender.id, 11);
    assert_eq!(pool.registered(), 1);
    assert_eq!(pool.count(&dest), 1);
}

#[test]
fn s2_fill_to_cap() {
    let mut pool: ManageConnection<FakeSender> = ManageConnection::new();
    let dest = "h:1".to_string();
    for id in 1..=4u64 {
        open(&mut pool, &dest, 4, id);
    }
    assert_eq!(pool.count(&dest), 4);
    let mut seen: Vec<u64> = Vec::new();
    for draw in 0..4usize {
        let id = pool.select(&dest, draw).unwrap();
        assert!(!seen.contains(&id));
        seen.push(id);
    }
    assert_eq!(pool.reserve(dest.clone(), 4, 5), Admission::Full);
    assert_eq!(pool.count(&dest), 4);
}

#[test]
fn s3_overflow() {
    let mut pool: ManageConnection<FakeSender> = ManageConnection::new();
    let dest = "h:2".to_string();
    open(&mut pool, &dest, 2, 21);
    open(&mut pool, &dest, 2, 22);
    assert_eq!(pool.reserve(dest.clone(), 2, 23), Admission::Full);
    pool.put_overflow(dest.clone(), FakeSender { id: 23, closed: false });
    assert_eq!(pool.overflow_sender(&dest).unwrap().id, 23);
    assert_eq!(pool.count(&dest), 2);
    assert_eq!(pool.registered(), 2);
}

#[test]
fn s4_factory_failure_rollback() {
    let mut pool: ManageConnection<FakeSender> = ManageConnection::new();
    let dest = "h:3".to_string();
    assert_eq!(pool.reserve(dest.clone(), 1, 31), Admission::Open);
    assert_eq!(pool.count(&dest), 1);
    let opened: Result<FakeSender, PoolError> = Err(PoolError::ConnectError { dest: dest.clone() });
    assert_eq!(
        pool.finish_open(31, opened),
        Err(PoolError::ConnectError { dest: "h:3".to_string() })
    );
    assert_eq!(pool.count(&dest), 0);
    assert_eq!(pool.registered(), 0);
}

#[test]
fn s5_driver_death_deregisters() {
    let mut pool: ManageConnection<FakeSender> = ManageConnection::new();
    let dest = "127.0.0.1:9000".to_string();
    open(&mut pool, &dest, 4, 41);
    pool.deregister(41);
    assert_eq!(pool.count(&dest), 0);
    assert!(pool.sender(41).is_none());
    assert_eq!(pool.registered(), 0);
}

#[test]
fn s6_closed_at_lock() {
    let mut pool: ManageConnection<FakeSender> = ManageConnection::new();
    let dest = "h:6".to_string();
    assert_eq!(pool.reserve(dest.clone(), 1, 61), Admission::Open);
    assert!(pool.commit(61, FakeSender { id: 61, closed: true }));
    let chosen = pool.pick_any(&dest).unwrap();
    assert_eq!(lock_outcome(chosen.closed), Err(PoolError::SenderClosed));
    // the driver ends and deregisters; the retry opens a fresh sender
    pool.deregister(61);
    open(&mut pool, &dest, 1, 62);
    let chosen = pool.pick_any(&dest).unwrap();
    assert_eq!(chosen.id, 62);
    assert_eq!(lock_outcome(chosen.closed), Ok(()));
}

#[test]
fn reserve_refuses_an_id_in_use() {
    let mut pool: ManageConnection<FakeSender> = ManageConnection::new();
    open(&mut pool, "a:1", 4, 7);
    assert_eq!(pool.reserve("b:1".to_string(), 4, 7), Admission::IdTaken);
    assert_eq!(pool.count(&"b:1".to_string()), 0);
    assert!(pool.id_in_use(7));
    assert!(!pool.id_in_use(8));
}

#[test]
fn empty_destination_is_admitted_under_cap_zero() {
    let mut pool: ManageConnection<FakeSender> = ManageConnection::new();
    let dest = "z:0".to_string();
    assert_eq!(pool.reserve(dest.clone(), 0, 1), Admission::Open);
    assert_eq!(pool.reserve(dest.clone(), 0, 2), Admission::Full);
    assert_eq!(pool.count(&dest), 1);
}

#[test]
fn cap_counts_per_destination() {
    let mut pool: ManageConnection<FakeSender> = ManageConnection::new();
    open(&mut pool, "a:1", 1, 1);
    open(&mut pool, "b:1", 1, 2);
    assert_eq!(pool.reserve("a:1".to_string(), 1, 3), Admission::Full);
    assert_eq!(pool.ids_of(&"a:1".to_string()), vec![1]);
    assert_eq!(pool.ids_of(&"b:1".to_string()), vec![2]);
}

#[test]
fn commit_refuses_a_registered_id() {
    let mut pool: ManageConnection<FakeSender> = ManageConnection::new();
    open(&mut pool, "a:1", 2, 5);
    assert!(!pool.commit(5, FakeSender { id: 5, closed: true }));
    assert_eq!(pool.registered(), 1);
    assert!(!pool.sender(5).unwrap().closed);
}

#[test]
fn select_wraps_the_draw() {
    let mut pool: ManageConnection<FakeSender> = ManageConnection::new();
    let dest = "s:1".to_string();
    open(&mut pool, &dest, 3, 100);
    open(&mut pool, "other:1", 3, 150);
    open(&mut pool, &dest, 3, 200);
    open(&mut pool, &dest, 3, 300);
    assert_eq!(pool.select(&dest, 0), Some(100));
    assert_eq!(pool.select(&dest, 4), Some(200));
    assert_eq!(pool.select(&dest, 8), Some(300));
    assert_eq!(pool.select(&"none:1".to_string(), 3), None);
    assert_eq!(pool.pick(&dest, 5).unwrap().id, 300);
}

#[test]
fn deregister_keeps_the_other_entries_in_order() {
    let mut pool: ManageConnection<FakeSender> = ManageConnection::new();
    let dest = "d:1".to_string();
    open(&mut pool, &dest, 3, 1);
    open(&mut pool, &dest, 3, 2);
    open(&mut pool, &dest, 3, 3);
    pool.deregister(2);
    assert_eq!(pool.ids_of(&dest), vec![1, 3]);
    assert_eq!(pool.registered(), 2);
    pool.deregister(99);
    assert_eq!(pool.ids_of(&dest), vec![1, 3]);
}

#[test]
fn overflow_slot_is_replaced_then_freed() {
    let mut pool: ManageConnection<FakeSender> = ManageConnection::new();
    let dest = "o:1".to_string();
    pool.put_overflow(dest.clone(), FakeSender { id: 1, closed: false });
    pool.put_overflow(dest.clone(), FakeSender { id: 2, closed: false });
    assert_eq!(pool.overflow_slots(), 1);
    assert_eq!(pool.overflow_sender(&dest).unwrap().id, 2);
    pool.put_overflow("o:2".to_string(), FakeSender { id: 3, closed: false });
    assert_eq!(pool.overflow_slots(), 2);
    pool.drop_overflow(&dest);
    assert!(pool.overflow_sender(&dest).is_none());
    pool.drop_overflow(&dest);
    assert_eq!(pool.overflow_slots(), 1);
}

#[test]
fn random_id_uses_the_clock_reading() {
    assert_eq!(random_id(Some((1, 5))), 1_000_000_005);
    assert_eq!(random_id(Some((1_700_000_000, 123))), 1_700_000_000_000_000_123);
    assert_eq!(random_id(Some((0, 0))), 0);
    let _ = random_id(None);
    let _ = random_id(Some((u64::MAX, 0)));
}

#[test]
fn rollback_alone_takes_the_entry_out() {
    let mut pool: ManageConnection<FakeSender> = ManageConnection::new();
    let dest = "r:1".to_string();
    open(&mut pool, &dest, 3, 1);
    assert_eq!(pool.reserve(dest.clone(), 3, 2), Admission::Open);
    pool.rollback(2);
    assert_eq!(pool.ids_of(&dest), vec![1]);
}

#[test]
fn finish_open_handshake_failure_rolls_back() {
    let mut pool: ManageConnection<FakeSender> = ManageConnection::new();
    let dest = "hs:1".to_string();
    assert_eq!(pool.reserve(dest.clone(), 2, 9), Admission::Open);
    let opened: Result<FakeSender, PoolError> = Err(PoolError::HandshakeError { dest: dest.clone() });
    assert_eq!(pool.finish_open(9, opened), Err(PoolError::HandshakeError { dest: "hs:1".to_string() }));
    assert_eq!(pool.count(&dest), 0);
    assert!(!pool.id_in_use(9));
}

#[test]
fn every_registered_entry_is_picked_for_its_destination() {
    let mut pool: ManageConnection<FakeSender> = ManageConnection::new();
    let dest = "p:1".to_string();
    open(&mut pool, &dest, 4, 1);
    open(&mut pool, &dest, 4, 2);
    for _ in 0..20 {
        let s = pool.pick_any(&dest).expect("a registered sender");
        assert!(s.id == 1 || s.id == 2);
    }
    assert!(pool.pick_any(&"none:1".to_string()).is_none());
}
