use rlap::protocol::RespValue;
use rlap::server::{
    asked_deadline, decode_write, handle_frame, handle_frame_at, key_to_addr, replay_log, replay_log_at, BinaryReply,
    Command, Decoded,
    FrameOutcome, Reply,
};
use rlap::store::{Promotion, RlapDb};
use rlap::value::RlapValue;
use std::collections::hash_map::DefaultHasher;
use std::collections::VecDeque;
use std::hash::{Hash, Hasher};

/// A frame whose deadline, if it asks for one, the clock can represent.
fn hf(db: &mut RlapDb, f: &[u8], now: u128) -> FrameOutcome {
    handle_frame_at(db, f, now, true).0
}

fn resp(parts: &[&[u8]]) -> Vec<u8> {
    RespValue::Array(parts.iter().map(|p| RespValue::BulkString(p.to_vec())).collect()).to_bytes()
}

fn answer(v: RespValue) -> FrameOutcome {
    FrameOutcome::Resp(Reply::Resp(v))
}

fn bulk(s: &str) -> RespValue {
    RespValue::BulkString(s.as_bytes().to_vec())
}

fn frame(op: u8, addr: u32, rest: &[u8]) -> Vec<u8> {
    let mut f = vec![op];
    f.extend_from_slice(&addr.to_be_bytes());
    f.extend_from_slice(rest);
    f
}

fn set_frame(addr: u32, ttl: u32, val: i64) -> Vec<u8> {
    let mut rest = ttl.to_be_bytes().to_vec();
    rest.extend_from_slice(&val.to_be_bytes());
    frame(0x03, addr, &rest)
}

#[test]
fn key_addresses_follow_the_default_hasher() {
    for key in ["", "a", "user:1", "ключ"] {
        let mut h = DefaultHasher::new();
        key.hash(&mut h);
        let expected = (h.finish() as usize) % 7;
        assert_eq!(key_to_addr(key, 3, 4), expected);
        assert!(key_to_addr(key, 3, 4) < 7);
    }
}

#[test]
fn ping_and_command() {
    let mut db = RlapDb::new(4, 4);
    assert_eq!(hf(&mut db, &resp(&[b"PING"]), 0), answer(RespValue::SimpleString("PONG".to_string())));
    assert_eq!(hf(&mut db, &resp(&[b"ping"]), 0), answer(RespValue::SimpleString("PONG".to_string())));
    assert_eq!(hf(&mut db, &resp(&[b"COMMAND"]), 0), answer(RespValue::Array(vec![])));
    assert_eq!(
        hf(&mut db, &resp(&[b"frob", b"x"]), 0),
        answer(RespValue::Error("Unknown command: FROB".to_string()))
    );
}

#[test]
fn set_get_del_over_resp() {
    let mut db = RlapDb::new(4, 4);
    assert_eq!(hf(&mut db, &resp(&[b"SET", b"k", b"42"]), 0), answer(RespValue::SimpleString("OK".to_string())));
    assert_eq!(hf(&mut db, &resp(&[b"GET", b"k"]), 0), answer(bulk("42")));
    let addr = key_to_addr("k", 4, 4);
    assert_eq!(db.get_and_promote_at(addr, 0).0, RlapValue::Integer(42));
    assert_eq!(hf(&mut db, &resp(&[b"set", b"s", b"hi there"]), 0), answer(RespValue::SimpleString("OK".to_string())));
    assert_eq!(hf(&mut db, &resp(&[b"get", b"s"]), 0), answer(bulk("hi there")));
    assert_eq!(hf(&mut db, &resp(&[b"DEL", b"s"]), 0), answer(RespValue::Integer(1)));
    assert_eq!(hf(&mut db, &resp(&[b"GET", b"s"]), 0), answer(RespValue::Nil));
    assert_eq!(hf(&mut db, &resp(&[b"GET"]), 0), FrameOutcome::Silent);
    assert_eq!(hf(&mut db, &resp(&[b"SET", b"k"]), 0), FrameOutcome::Silent);
}

#[test]
fn expiry_over_resp() {
    let mut db = RlapDb::new(4, 4);
    hf(&mut db, &resp(&[b"SET", b"k", b"v", b"ex", b"10"]), 0);
    assert_eq!(hf(&mut db, &resp(&[b"TTL", b"k"]), 0), answer(RespValue::Integer(10)));
    assert_eq!(hf(&mut db, &resp(&[b"EXPIRE", b"k", b"3"]), 0), answer(RespValue::Integer(1)));
    assert_eq!(hf(&mut db, &resp(&[b"TTL", b"k"]), 1_000_000_000), answer(RespValue::Integer(2)));
    assert_eq!(hf(&mut db, &resp(&[b"GET", b"k"]), 4_000_000_000), answer(RespValue::Nil));
    assert_eq!(hf(&mut db, &resp(&[b"EXPIRE", b"k", b"3"]), 4_000_000_000), answer(RespValue::Integer(0)));
    assert_eq!(hf(&mut db, &resp(&[b"TTL", b"k"]), 4_000_000_000), answer(RespValue::Integer(-2)));
    hf(&mut db, &resp(&[b"SET", b"p", b"1"]), 0);
    assert_eq!(hf(&mut db, &resp(&[b"TTL", b"p"]), 0), answer(RespValue::Integer(-1)));
}

#[test]
fn deadlines_beyond_the_clock_abort() {
    let mut db = RlapDb::new(4, 4);
    let set = resp(&[b"SET", b"k", b"v", b"EX", b"5"]);
    assert_eq!(handle_frame_at(&mut db, &set, 0, false), (FrameOutcome::Abort, Promotion::Stay));
    // The value was written before the deadline was found out of range; no
    // deadline was set.
    assert_eq!(hf(&mut db, &resp(&[b"GET", b"k"]), 0), answer(bulk("v")));
    assert_eq!(hf(&mut db, &resp(&[b"TTL", b"k"]), 0), answer(RespValue::Integer(-1)));
    let expire = resp(&[b"EXPIRE", b"k", b"7"]);
    assert_eq!(handle_frame_at(&mut db, &expire, 0, false).0, FrameOutcome::Abort);
    assert_eq!(hf(&mut db, &resp(&[b"TTL", b"k"]), 0), answer(RespValue::Integer(-1)));
    // Without a value, EXPIRE never computes a deadline.
    let missing = resp(&[b"EXPIRE", b"missing", b"7"]);
    assert_eq!(handle_frame_at(&mut db, &missing, 0, false).0, answer(RespValue::Integer(0)));
    // A binary set with a deadline out of range stops too, and is not logged.
    assert_eq!(handle_frame_at(&mut db, &set_frame(1, 9, 4), 0, false).0, FrameOutcome::Abort);
    assert_eq!(db.get_and_promote_at(1, 0).0, RlapValue::Integer(4));
    // Without a deadline, `fits` plays no part.
    assert_eq!(handle_frame_at(&mut db, &set_frame(2, 0, 4), 0, false).0, FrameOutcome::Binary(BinaryReply::Done, 17));
}

#[test]
fn the_clock_decides_which_deadlines_fit() {
    let mut db = RlapDb::new(4, 4);
    assert_eq!(
        handle_frame(&mut db, &resp(&[b"SET", b"k", b"v", b"EX", b"18446744073709551615"])).0,
        FrameOutcome::Abort
    );
    assert_eq!(
        handle_frame(&mut db, &resp(&[b"SET", b"k", b"v", b"EX", b"100"])).0,
        answer(RespValue::SimpleString("OK".to_string()))
    );
    assert_eq!(handle_frame(&mut db, &resp(&[b"EXPIRE", b"k", b"18446744073709551615"])).0, FrameOutcome::Abort);
    assert_eq!(handle_frame(&mut db, &resp(&[b"EXPIRE", b"k", b"50"])).0, answer(RespValue::Integer(1)));
}

#[test]
fn asked_deadlines() {
    assert_eq!(asked_deadline(&resp(&[b"set", b"k", b"v", b"ex", b"12"])), Some(12));
    assert_eq!(asked_deadline(&resp(&[b"SET", b"k", b"v"])), None);
    assert_eq!(asked_deadline(&resp(&[b"EXPIRE", b"k", b"3"])), Some(3));
    assert_eq!(asked_deadline(&resp(&[b"EXPIRE", b"k", b"x"])), Some(0));
    assert_eq!(asked_deadline(&resp(&[b"GET", b"k"])), None);
    assert_eq!(asked_deadline(&set_frame(1, 7, 2)), Some(7));
    assert_eq!(asked_deadline(&set_frame(1, 0, 2)), None);
    assert_eq!(asked_deadline(&frame(0x06, 1, &[])), None);
}

#[test]
fn hashes_and_lists_over_resp() {
    let mut db = RlapDb::new(4, 4);
    assert_eq!(hf(&mut db, &resp(&[b"HSET", b"h", b"f", b"1"]), 0), answer(RespValue::Integer(1)));
    hf(&mut db, &resp(&[b"HSET", b"h", b"g", b"word"]), 0);
    assert_eq!(hf(&mut db, &resp(&[b"HGET", b"h", b"f"]), 0), answer(bulk("1")));
    assert_eq!(hf(&mut db, &resp(&[b"HGET", b"h", b"x"]), 0), answer(RespValue::Nil));
    assert_eq!(
        hf(&mut db, &resp(&[b"HGETALL", b"h"]), 0),
        answer(RespValue::Array(vec![bulk("f"), bulk("1"), bulk("g"), bulk("word")]))
    );
    assert_eq!(hf(&mut db, &resp(&[b"LPUSH", b"l", b"a"]), 0), answer(RespValue::Integer(1)));
    hf(&mut db, &resp(&[b"LPUSH", b"l", b"7"]), 0);
    let addr = key_to_addr("l", 4, 4);
    assert_eq!(
        hf(&mut db, &resp(&[b"GET", b"l"]), 0),
        FrameOutcome::Resp(Reply::Described(RlapValue::List(VecDeque::from(vec![
            RlapValue::Integer(7),
            RlapValue::LongStr("a".to_string())
        ]))))
    );
    assert_eq!(hf(&mut db, &resp(&[b"LPOP", b"l"]), 0), answer(bulk("7")));
    assert_eq!(hf(&mut db, &resp(&[b"LPOP", b"l"]), 0), answer(bulk("a")));
    assert_eq!(hf(&mut db, &resp(&[b"LPOP", b"l"]), 0), answer(RespValue::Nil));
    assert_eq!(db.get_and_promote_at(addr, 0).0, RlapValue::List(VecDeque::new()));
}

#[test]
fn frames_that_are_not_requests() {
    let mut db = RlapDb::new(4, 4);
    assert_eq!(hf(&mut db, b"*0\r\n", 0), FrameOutcome::Silent);
    assert_eq!(hf(&mut db, b"*1\r\n:5\r\n", 0), FrameOutcome::Silent);
    assert_eq!(hf(&mut db, b"*2\r\n$3\r\nGET", 0), FrameOutcome::Silent);
    assert_eq!(hf(&mut db, b"*-2\r\n", 0), FrameOutcome::Abort);
    assert_eq!(hf(&mut db, b"abc", 0), FrameOutcome::Silent);
    assert_eq!(hf(&mut db, &frame(0x04, 1, &[]), 0), FrameOutcome::Silent);
}

#[test]
fn binary_frames() {
    let mut db = RlapDb::new(4, 4);
    let set = set_frame(2, 0, -5);
    assert_eq!(hf(&mut db, &set, 0), FrameOutcome::Binary(BinaryReply::Done, 17));
    assert_eq!(
        hf(&mut db, &frame(0x02, 2, &[]), 0),
        FrameOutcome::Binary(BinaryReply::Result(RlapValue::Integer(-5)), 0)
    );
    assert_eq!(hf(&mut db, &set[..10], 0), FrameOutcome::Silent);
    let push = frame(0x09, 5, &9i64.to_be_bytes());
    assert_eq!(hf(&mut db, &push, 0), FrameOutcome::Binary(BinaryReply::Done, 13));
    assert_eq!(
        hf(&mut db, &frame(0x0a, 5, &[]), 0),
        FrameOutcome::Binary(BinaryReply::Popped(RlapValue::Integer(9)), 5)
    );
    let mut rest = 77u32.to_be_bytes().to_vec();
    rest.extend_from_slice(&3i64.to_be_bytes());
    assert_eq!(hf(&mut db, &frame(0x0b, 6, &rest), 0), FrameOutcome::Binary(BinaryReply::Done, 17));
    assert_eq!(db.get_hash_at(6, "77", 0).0, RlapValue::Integer(3));
    assert_eq!(hf(&mut db, &frame(0x06, 2, &[]), 0), FrameOutcome::Binary(BinaryReply::Done, 5));
    assert_eq!(db.get_and_promote_at(2, 0).0, RlapValue::Empty);
    let timed = set_frame(1, 4, 8);
    hf(&mut db, &timed, 0);
    assert_eq!(db.ttl_at(1, 0), 4);
}

#[test]
fn decoding_write_commands() {
    let set = set_frame(0x01020304, 9, i64::MIN);
    assert_eq!(
        decode_write(&set, 0),
        Decoded::Cmd(Command::SetInt { addr: 0x01020304, ttl: Some(9), val: i64::MIN }, 17)
    );
    assert_eq!(decode_write(&set[..16], 0), Decoded::Short);
    assert_eq!(decode_write(&frame(0x02, 1, &[]), 0), Decoded::Other);
    assert_eq!(decode_write(&[0x06, 0, 0, 0], 0), Decoded::Short);
}

#[test]
fn log_replay_applies_writes_in_order() {
    let mut db = RlapDb::new(4, 4);
    let mut log = Vec::new();
    log.extend(set_frame(0, 0, 1));
    log.push(0x02); // not a write command: skipped
    log.extend(frame(0x09, 1, &5i64.to_be_bytes()));
    log.extend(frame(0x09, 1, &6i64.to_be_bytes()));
    log.extend(frame(0x0a, 1, &[]));
    log.extend(set_frame(3, 0, 2));
    log.extend(frame(0x06, 3, &[]));
    log.extend(&set_frame(0, 0, 99)[..12]); // cut short: replay stops
    let r = replay_log_at(&mut db, &log, 0, true);
    assert!(r.promotions.is_empty());
    assert!(!r.faulted);
    assert_eq!(db.get_and_promote_at(0, 0).0, RlapValue::Integer(1));
    assert_eq!(db.get_and_promote_at(1, 0).0, RlapValue::List(VecDeque::from(vec![RlapValue::Integer(5)])));
    assert_eq!(db.get_and_promote_at(3, 0).0, RlapValue::Empty);
}

#[test]
fn logged_frames_replay_to_the_same_store() {
    let frames = vec![set_frame(2, 0, 11), frame(0x09, 6, &1i64.to_be_bytes()), frame(0x06, 2, &[])];
    let mut live = RlapDb::new(4, 4);
    let mut log = Vec::new();
    for f in &frames {
        if let FrameOutcome::Binary(_, n) = hf(&mut live, f, 0) {
            log.extend_from_slice(&f[..n]);
        }
    }
    let mut replayed = RlapDb::new(4, 4);
    replay_log_at(&mut replayed, &log, 0, true);
    for a in 0..8 {
        assert_eq!(live.get_and_promote_at(a, 0).0, replayed.get_and_promote_at(a, 0).0);
    }
}

#[test]
fn clock_reading_entry_points() {
    let mut db = RlapDb::new(4, 4);
    let r = replay_log(&mut db, &set_frame(1, 0, 3));
    assert!(r.promotions.is_empty());
    assert!(!r.faulted);
    assert_eq!(
        handle_frame(&mut db, &frame(0x02, 1, &[])),
        (FrameOutcome::Binary(BinaryReply::Result(RlapValue::Integer(3)), 0), Promotion::Stay)
    );
}

#[test]
fn get_answers_the_stored_reading_of_the_text() {
    let mut db = RlapDb::new(4, 4);
    hf(&mut db, &resp(&[b"SET", b"n", b"007"]), 0);
    assert_eq!(hf(&mut db, &resp(&[b"GET", b"n"]), 5), answer(bulk("7")));
    hf(&mut db, &resp(&[b"SET", b"n", b"-0"]), 0);
    assert_eq!(hf(&mut db, &resp(&[b"GET", b"n"]), 5), answer(bulk("0")));
    hf(&mut db, &resp(&[b"SET", b"n", b"99999999999999999999"]), 0);
    assert_eq!(hf(&mut db, &resp(&[b"GET", b"n"]), 5), answer(bulk("99999999999999999999")));
}

#[test]
fn store_without_hot_slots_serves_reads_and_writes() {
    let mut db = RlapDb::new(0, 4);
    assert_eq!(hf(&mut db, &resp(&[b"SET", b"k", b"5"]), 0), answer(RespValue::SimpleString("OK".to_string())));
    for _ in 0..5 {
        assert_eq!(hf(&mut db, &resp(&[b"GET", b"k"]), 0), answer(bulk("5")));
    }
    // TTL, EXPIRE, SET and DEL count no access.
    for _ in 0..10 {
        assert_eq!(hf(&mut db, &resp(&[b"TTL", b"k"]), 0), answer(RespValue::Integer(-1)));
    }
    assert_eq!(hf(&mut db, &resp(&[b"EXPIRE", b"k", b"100"]), 0), answer(RespValue::Integer(1)));
    // The sixth read of the value divides by zero.
    assert_eq!(hf(&mut db, &resp(&[b"GET", b"k"]), 0), FrameOutcome::Abort);
    assert_eq!(hf(&mut db, &resp(&[b"SET", b"k", b"6"]), 0), answer(RespValue::SimpleString("OK".to_string())));
    assert_eq!(hf(&mut db, &resp(&[b"GET", b"k"]), 0), answer(bulk("6")));
    assert_eq!(hf(&mut db, &resp(&[b"DEL", b"k"]), 0), answer(RespValue::Integer(1)));
    // Reads of an empty slot are never counted.
    for _ in 0..10 {
        assert_eq!(hf(&mut db, &resp(&[b"GET", b"k"]), 0), answer(RespValue::Nil));
    }
    assert_eq!(hf(&mut db, &resp(&[b"PING"]), 0), answer(RespValue::SimpleString("PONG".to_string())));
    assert_eq!(hf(&mut db, &frame(0x02, 3, &[]), 0), FrameOutcome::Binary(BinaryReply::Result(RlapValue::Empty), 0));
}

#[test]
fn sixth_access_to_a_cold_slot_without_hot_slots_aborts() {
    let mut db = RlapDb::new(0, 4);
    let push = frame(0x09, 2, &1i64.to_be_bytes());
    for _ in 0..5 {
        assert_eq!(handle_frame_at(&mut db, &push, 0, true), (FrameOutcome::Binary(BinaryReply::Done, 13), Promotion::Stay));
    }
    // The sixth access divides by zero: nothing is answered or logged.
    assert_eq!(handle_frame_at(&mut db, &push, 0, true), (FrameOutcome::Abort, Promotion::Fault));
    // The push itself took place before the count was checked.
    assert_eq!(db.pop_list_at(2, 0), (RlapValue::Integer(1), Promotion::Stay));
}

#[test]
fn key_commands_abort_on_a_store_without_slots() {
    let mut db = RlapDb::new(0, 0);
    assert_eq!(hf(&mut db, &resp(&[b"SET", b"k", b"5"]), 0), FrameOutcome::Abort);
    assert_eq!(hf(&mut db, &resp(&[b"GET", b"k"]), 0), FrameOutcome::Abort);
    assert_eq!(hf(&mut db, &resp(&[b"GET"]), 0), FrameOutcome::Silent);
    assert_eq!(hf(&mut db, &resp(&[b"PING"]), 0), answer(RespValue::SimpleString("PONG".to_string())));
    assert_eq!(hf(&mut db, &set_frame(0, 0, 1), 0), FrameOutcome::Binary(BinaryReply::Done, 17));
}

#[test]
fn promotions_are_reported() {
    let mut db = RlapDb::new(2, 4);
    // Address 3 is cold; its sixth access moves it to hot slot 3 % 2 = 1.
    hf(&mut db, &set_frame(3, 0, 8), 0);
    let get = frame(0x02, 3, &[]);
    for _ in 0..5 {
        assert_eq!(handle_frame_at(&mut db, &get, 0, true).1, Promotion::Stay);
    }
    assert_eq!(
        handle_frame_at(&mut db, &get, 0, true),
        (FrameOutcome::Binary(BinaryReply::Result(RlapValue::Integer(8)), 0), Promotion::Moved { addr: 3, hot: 1 })
    );
    assert_eq!(db.get_and_promote_at(1, 0).0, RlapValue::Integer(8));
}

#[test]
fn replay_reports_promotions_and_stops_at_a_fault() {
    let push = frame(0x09, 3, &1i64.to_be_bytes());
    let mut log = Vec::new();
    for _ in 0..8 {
        log.extend(&push);
    }
    let mut db = RlapDb::new(2, 4);
    let r = replay_log_at(&mut db, &log, 0, true);
    assert_eq!(r.promotions, vec![(3, 1)]);
    assert!(!r.faulted);
    let mut cold = RlapDb::new(0, 4);
    let r = replay_log_at(&mut cold, &log, 0, true);
    assert!(r.promotions.is_empty());
    assert!(r.faulted);
    // Six pushes took place; the last two records were never replayed.
    let mut n = 0;
    while let (RlapValue::Integer(1), _) = cold.pop_list_at(3, 0) {
        n += 1;
    }
    assert_eq!(n, 6);
}

#[test]
fn replay_of_concatenated_logs() {
    let mut a = Vec::new();
    a.extend(set_frame(0, 0, 1));
    a.extend(frame(0x09, 5, &2i64.to_be_bytes()));
    let mut b = Vec::new();
    b.extend(frame(0x0a, 5, &[]));
    b.push(0x7f);
    b.extend(set_frame(2, 0, 3));
    let mut whole = a.clone();
    whole.extend(&b);
    let mut one = RlapDb::new(2, 4);
    replay_log_at(&mut one, &whole, 0, true);
    let mut two = RlapDb::new(2, 4);
    replay_log_at(&mut two, &a, 0, true);
    replay_log_at(&mut two, &b, 0, true);
    for addr in 0..6 {
        assert_eq!(one.get_and_promote_at(addr, 0).0, two.get_and_promote_at(addr, 0).0);
    }
}
