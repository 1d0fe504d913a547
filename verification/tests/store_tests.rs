use rlap::store::{Promotion, RlapDb};
use rlap::value::RlapValue;
use std::collections::VecDeque;

const SEC: u128 = 1_000_000_000;

fn long(s: &str) -> RlapValue {
    RlapValue::LongStr(s.to_string())
}

#[test]
fn new_store_is_empty() {
    let mut db = RlapDb::new(2, 4);
    assert_eq!(db.hot_len(), 2);
    assert_eq!(db.cold_len(), 4);
    for a in 0..6 {
        assert_eq!(db.get_and_promote_at(a, 0).0, RlapValue::Empty);
        assert_eq!(db.ttl_at(a, 0), -2);
    }
}

#[test]
fn set_then_get_returns_value() {
    let mut db = RlapDb::new(2, 4);
    db.set_at(0, RlapValue::Integer(7), None, 0, true);
    db.set_at(4, long("hello"), None, 0, true);
    assert_eq!(db.get_and_promote_at(0, 5).0, RlapValue::Integer(7));
    assert_eq!(db.get_and_promote_at(4, 5).0, long("hello"));
    db.set_at(0, RlapValue::Integer(8), None, 6, true);
    assert_eq!(db.get_and_promote_at(0, 7).0, RlapValue::Integer(8));
}

#[test]
fn clock_reading_methods_work() {
    let mut db = RlapDb::new(2, 4);
    assert!(db.set(1, RlapValue::Integer(3), Some(100)));
    assert_eq!(db.get_and_promote(1), (RlapValue::Integer(3), Promotion::Stay));
    let t = db.ttl(1);
    assert!(t == 99 || t == 100);
    assert_eq!(db.expire(1, 500), Some(true));
    let t = db.ttl(1);
    assert!(t == 499 || t == 500);
    db.del(1);
    assert_eq!(db.get_and_promote(1).0, RlapValue::Empty);
    assert_eq!(db.push_list(2, RlapValue::Integer(1)), Promotion::Stay);
    assert_eq!(db.pop_list(2).0, RlapValue::Integer(1));
    assert_eq!(db.set_hash(3, "f".to_string(), RlapValue::Integer(9)), Promotion::Stay);
    assert_eq!(db.get_hash(3, "f").0, RlapValue::Integer(9));
    assert_eq!(db.get_hash_all(3).0, vec![("f".to_string(), RlapValue::Integer(9))]);
    assert!(db.clock() < 3600 * SEC);
}

#[test]
fn out_of_range_addresses_read_empty() {
    let mut db = RlapDb::new(2, 4);
    db.set_at(6, RlapValue::Integer(1), None, 0, true);
    assert_eq!(db.get_and_promote_at(6, 0).0, RlapValue::Empty);
    assert_eq!(db.pop_list_at(100, 0).0, RlapValue::Empty);
    assert_eq!(db.get_hash_at(100, "x", 0).0, RlapValue::Empty);
    assert!(db.get_hash_all_at(100, 0).0.is_empty());
    assert_eq!(db.expire_at(100, 5, 0, true), Some(false));
    assert_eq!(db.ttl_at(100, 0), -2);
}

#[test]
fn del_empties_a_slot() {
    let mut db = RlapDb::new(2, 4);
    db.set_at(3, RlapValue::Integer(1), Some(10), 0, true);
    db.del_at(3, 1);
    assert_eq!(db.get_and_promote_at(3, 1).0, RlapValue::Empty);
    assert_eq!(db.ttl_at(3, 1), -2);
}

#[test]
fn values_expire_after_their_deadline() {
    let mut db = RlapDb::new(2, 4);
    db.set_at(1, RlapValue::Integer(5), Some(2), 0, true);
    assert_eq!(db.get_and_promote_at(1, 2 * SEC).0, RlapValue::Integer(5));
    assert_eq!(db.get_and_promote_at(1, 2 * SEC + 1).0, RlapValue::Empty);
    assert_eq!(db.ttl_at(1, 2 * SEC + 1), -2);
}

#[test]
fn ttl_reports_remaining_seconds() {
    let mut db = RlapDb::new(2, 4);
    db.set_at(0, RlapValue::Integer(1), None, 0, true);
    assert_eq!(db.ttl_at(0, 0), -1);
    assert_eq!(db.expire_at(0, 30, 10 * SEC, true), Some(true));
    assert_eq!(db.ttl_at(0, 10 * SEC), 30);
    assert_eq!(db.ttl_at(0, 10 * SEC + 1), 29);
    assert_eq!(db.ttl_at(0, 40 * SEC), -2);
    db.set_at(0, RlapValue::Integer(1), Some(0), 50 * SEC, true);
    assert_eq!(db.ttl_at(0, 50 * SEC), -2);
}

#[test]
fn expire_needs_a_value() {
    let mut db = RlapDb::new(2, 4);
    assert_eq!(db.expire_at(2, 10, 0, true), Some(false));
    assert_eq!(db.ttl_at(2, 0), -2);
}

#[test]
fn lists_push_and_pop_at_the_front() {
    let mut db = RlapDb::new(2, 4);
    db.push_list_at(0, RlapValue::Integer(1), 0);
    db.push_list_at(0, RlapValue::Integer(2), 0);
    db.push_list_at(0, long("x"), 0);
    assert_eq!(
        db.get_and_promote_at(0, 0).0,
        RlapValue::List(VecDeque::from(vec![long("x"), RlapValue::Integer(2), RlapValue::Integer(1)]))
    );
    assert_eq!(db.pop_list_at(0, 0).0, long("x"));
    assert_eq!(db.pop_list_at(0, 0).0, RlapValue::Integer(2));
    assert_eq!(db.pop_list_at(0, 0).0, RlapValue::Integer(1));
    assert_eq!(db.pop_list_at(0, 0).0, RlapValue::Empty);
    assert_eq!(db.get_and_promote_at(0, 0).0, RlapValue::List(VecDeque::new()));
}

#[test]
fn push_replaces_a_non_list() {
    let mut db = RlapDb::new(2, 4);
    db.set_at(1, RlapValue::Integer(9), None, 0, true);
    assert_eq!(db.pop_list_at(1, 0).0, RlapValue::Empty);
    db.push_list_at(1, RlapValue::Integer(4), 0);
    assert_eq!(db.get_and_promote_at(1, 0).0, RlapValue::List(VecDeque::from(vec![RlapValue::Integer(4)])));
}

#[test]
fn hashes_keep_one_entry_per_field() {
    let mut db = RlapDb::new(2, 4);
    db.set_hash_at(0, "a".to_string(), RlapValue::Integer(1), 0);
    db.set_hash_at(0, "b".to_string(), long("two"), 0);
    db.set_hash_at(0, "a".to_string(), RlapValue::Integer(3), 0);
    assert_eq!(db.get_hash_at(0, "a", 0).0, RlapValue::Integer(3));
    assert_eq!(db.get_hash_at(0, "b", 0).0, long("two"));
    assert_eq!(db.get_hash_at(0, "c", 0).0, RlapValue::Empty);
    assert_eq!(
        db.get_hash_all_at(0, 0).0,
        vec![("a".to_string(), RlapValue::Integer(3)), ("b".to_string(), long("two"))]
    );
    db.set_at(1, RlapValue::Integer(1), None, 0, true);
    assert_eq!(db.get_hash_at(1, "a", 0).0, RlapValue::Empty);
    assert!(db.get_hash_all_at(1, 0).0.is_empty());
    db.set_hash_at(1, "z".to_string(), RlapValue::Integer(0), 0);
    assert_eq!(db.get_hash_all_at(1, 0).0, vec![("z".to_string(), RlapValue::Integer(0))]);
}

#[test]
fn sixth_read_of_a_cold_slot_promotes_it() {
    let mut db = RlapDb::new(2, 4);
    // Address 3 is cold; it trades with hot slot 3 % 2 = 1.
    db.set_at(3, long("cold"), Some(100), 0, true);
    db.set_at(1, long("hot"), None, 0, true);
    for _ in 0..5 {
        assert_eq!(db.get_and_promote_at(3, 0).0, long("cold"));
    }
    // The sixth read returns the value, then the slots trade values and deadlines.
    assert_eq!(db.get_and_promote_at(3, 0), (long("cold"), Promotion::Moved { addr: 3, hot: 1 }));
    assert_eq!(db.get_and_promote_at(1, 0).0, long("cold"));
    assert_eq!(db.ttl_at(1, 0), 100);
    assert_eq!(db.get_and_promote_at(3, 0).0, long("hot"));
    assert_eq!(db.ttl_at(3, 0), -1);
}

#[test]
fn hot_reads_never_move_values() {
    let mut db = RlapDb::new(2, 4);
    db.set_at(0, RlapValue::Integer(1), None, 0, true);
    for _ in 0..20 {
        assert_eq!(db.get_and_promote_at(0, 0).0, RlapValue::Integer(1));
    }
}

#[test]
fn clone_keeps_content() {
    let v = RlapValue::Hash(vec![(
        "k".to_string(),
        RlapValue::List(VecDeque::from(vec![RlapValue::ShortStr([7u8; 32], 3), RlapValue::Empty])),
    )]);
    assert_eq!(v.clone(), v);
    assert_eq!(v.duplicate(), v);
    assert!(RlapValue::Empty.is_empty());
    assert!(!v.is_empty());
}

#[test]
fn pop_undoes_push() {
    let mut db = RlapDb::new(2, 4);
    db.push_list_at(1, RlapValue::Integer(1), 0);
    let before = db.get_and_promote_at(1, 0).0;
    db.push_list_at(1, RlapValue::Integer(2), 0);
    assert_eq!(db.pop_list_at(1, 0).0, RlapValue::Integer(2));
    assert_eq!(db.get_and_promote_at(1, 0).0, before);
}

#[test]
fn store_without_hot_slots() {
    let mut db = RlapDb::new(0, 3);
    assert_eq!(db.hot_len(), 0);
    db.set_at(1, RlapValue::Integer(4), None, 0, true);
    // Reads of a value count accesses; the sixth divides by zero.
    for _ in 0..5 {
        assert_eq!(db.get_and_promote_at(1, 0), (RlapValue::Integer(4), Promotion::Stay));
    }
    assert_eq!(db.get_and_promote_at(1, 0), (RlapValue::Integer(4), Promotion::Fault));
    // The count moved past five: later accesses do not fault.
    assert_eq!(db.get_and_promote_at(1, 0), (RlapValue::Integer(4), Promotion::Stay));
    // Reads of an empty slot are not counted.
    for _ in 0..10 {
        assert_eq!(db.get_and_promote_at(2, 0), (RlapValue::Empty, Promotion::Stay));
    }
    // Set, delete, expire and ttl count no access.
    for _ in 0..10 {
        db.set_at(0, RlapValue::Integer(1), None, 0, true);
        assert_eq!(db.ttl_at(0, 0), -1);
        assert_eq!(db.expire_at(0, 5, 0, true), Some(true));
        db.del_at(0, 0);
    }
    assert_eq!(db.get_and_promote_at(0, 0), (RlapValue::Empty, Promotion::Stay));
}

#[test]
fn every_counted_access_reports_a_fault_on_the_sixth() {
    let mut db = RlapDb::new(0, 2);
    for _ in 0..5 {
        assert_eq!(db.set_hash_at(0, "f".to_string(), RlapValue::Integer(1), 0), Promotion::Stay);
    }
    assert_eq!(db.get_hash_at(0, "f", 0), (RlapValue::Integer(1), Promotion::Fault));
    let mut db = RlapDb::new(0, 2);
    for _ in 0..5 {
        assert_eq!(db.get_hash_all_at(1, 0), (vec![], Promotion::Stay));
    }
    assert_eq!(db.pop_list_at(1, 0), (RlapValue::Empty, Promotion::Fault));
    let mut db = RlapDb::new(0, 2);
    for _ in 0..5 {
        assert_eq!(db.push_list_at(1, RlapValue::Integer(2), 0), Promotion::Stay);
    }
    assert_eq!(db.push_list_at(1, RlapValue::Integer(3), 0), Promotion::Fault);
    assert_eq!(db.pop_list_at(1, 0).0, RlapValue::Integer(3));
}

#[test]
fn an_expired_slot_starts_counting_again() {
    let mut db = RlapDb::new(0, 2);
    db.set_at(1, RlapValue::Integer(4), Some(1), 0, true);
    for _ in 0..5 {
        assert_eq!(db.get_and_promote_at(1, 0).1, Promotion::Stay);
    }
    // Past the deadline the slot is emptied and its count reset.
    assert_eq!(db.push_list_at(1, RlapValue::Integer(1), 2 * SEC), Promotion::Stay);
}

#[test]
fn promotion_takes_the_current_hot_value() {
    let mut db = RlapDb::new(2, 4);
    db.set_at(3, long("cold"), None, 0, true);
    for _ in 0..5 {
        db.get_and_promote_at(3, 0);
    }
    db.set_at(1, long("hot"), None, 0, true);
    assert_eq!(db.get_and_promote_at(3, 0).1, Promotion::Moved { addr: 3, hot: 1 });
    assert_eq!(db.get_and_promote_at(1, 0).0, long("cold"));
}

#[test]
fn deadlines_the_clock_cannot_represent() {
    let mut db = RlapDb::new(2, 4);
    db.set_at(1, RlapValue::Integer(1), Some(10), 0, true);
    // The value is stored, then the deadline cannot be computed: the slot
    // keeps its old deadline and count, and the call reports it stopped.
    assert!(!db.set_at(1, RlapValue::Integer(2), Some(5), SEC, false));
    assert_eq!(db.get_and_promote_at(1, SEC).0, RlapValue::Integer(2));
    assert_eq!(db.ttl_at(1, SEC), 9);
    // Without a deadline, or without a slot, nothing stops.
    assert!(db.set_at(1, RlapValue::Integer(3), None, SEC, false));
    assert!(db.set_at(9, RlapValue::Integer(3), Some(5), SEC, false));
    assert_eq!(db.ttl_at(1, SEC), -1);
    assert_eq!(db.expire_at(1, 5, SEC, false), None);
    assert_eq!(db.ttl_at(1, SEC), -1);
    assert_eq!(db.expire_at(2, 5, SEC, false), Some(false));
}

#[test]
fn clock_readings_never_go_back() {
    let mut db = RlapDb::new(1, 1);
    let mut last = db.clock();
    for _ in 0..100 {
        let now = db.clock();
        assert!(now >= last);
        last = now;
    }
    assert!(db.set(0, RlapValue::Integer(1), Some(1000)));
    let t = db.ttl(0);
    assert!(t == 999 || t == 1000);
}
