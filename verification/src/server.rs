//! The command logic of the server: how a key picks its slot, what a RESP
//! command or a binary frame does to the store and what it answers, and how
//! the append-only log is replayed.

use vstd::prelude::*;
use vstd::std_specs::hash::DefaultHasherAdditionalSpecFns;
use vstd::utf8::{decode_utf8, encode_utf8, encode_utf8_decode_utf8, encode_utf8_valid_utf8, is_ascii_chars, is_ascii_chars_encode_utf8, valid_utf8};
use crate::decimal::{decimal, i64_text_value, is_digit, lemma_digits_of_shape, parse_i64, parse_u64, push_decimal_i64, push_decimal_usize, u64_text_value};
use crate::protocol::{OpCode, RespModel, RespParse, RespValue, parse_spec, append_bytes, lossy_string, lossy_text, opcode_of};
use crate::store::{DbModel, Promotion, RlapDb, deadline_fits_now, max_duration_nanos};
use crate::value::{RlapValue, ValueModel};
use std::collections::hash_map::DefaultHasher;
use std::hash::Hasher;
use vstd::string::StringExecFns;

verus! {

/// The hash that `str`'s `Hash` impl gives a key under a fresh
/// `DefaultHasher`: the key's UTF-8 bytes, then the byte 0xff.
pub open spec fn key_hash(key: Seq<char>) -> u64 {
    DefaultHasher::spec_finish(seq![encode_utf8(key), seq![0xffu8]])
}

/// The slot that a key lives in, among `hot_len + cold_len` slots.
pub fn key_to_addr(key: &str, hot_len: usize, cold_len: usize) -> (addr: usize)
    requires
        0 < hot_len + cold_len <= usize::MAX,
    ensures
        addr == (key_hash(key@) as usize) % ((hot_len + cold_len) as usize),
        addr < hot_len + cold_len,
{
    let mut s = DefaultHasher::new();
    let bytes = key.as_bytes();
    s.write(bytes);
    let end_mark: [u8; 1] = [0xffu8];
    let mark = end_mark.as_slice();
    assert(mark@ =~= seq![0xffu8]);
    s.write(mark);
    let total = hot_len + cold_len;
    assert(s@ =~= seq![encode_utf8(key@), seq![0xffu8]]);
    let h = s.finish();
    (#[verifier::truncate] (h as usize)) % total
}

/// The decimal text of `n` as characters.
pub open spec fn decimal_text(n: int) -> Seq<char> {
    decimal(n).map_values(|b: u8| b as char)
}

proof fn lemma_decimal_text_utf8(n: nat)
    ensures
        valid_utf8(decimal(n as int)),
        decode_utf8(decimal(n as int)) == decimal_text(n as int),
{
    let d = decimal(n as int);
    let c = decimal_text(n as int);
    lemma_digits_of_shape(n);
    assert(is_ascii_chars(c)) by {
        assert forall|i: int| 0 <= i < c.len() implies '\0' <= #[trigger] c[i] <= '\u{7f}' by {
            assert(is_digit(d[i]));
        }
    }
    is_ascii_chars_encode_utf8(c);
    assert(encode_utf8(c) =~= d) by {
        assert forall|i: int| 0 <= i < d.len() implies encode_utf8(c)[i] == d[i] by {
            assert(c[i] as u8 == encode_utf8(c)[i]);
            assert(is_digit(d[i]));
        }
    }
    encode_utf8_valid_utf8(c);
    encode_utf8_decode_utf8(c);
}

/// The decimal text of `n`, as `to_string` writes it.
fn decimal_string(n: u32) -> (s: String)
    ensures
        s@ == decimal_text(n as int),
{
    let mut bytes: Vec<u8> = Vec::new();
    push_decimal_usize(&mut bytes, n as usize);
    proof {
        assert(bytes@ =~= decimal(n as int));
        lemma_decimal_text_utf8(n as nat);
    }
    lossy_string(bytes.as_slice())
}

/// The big-endian `u32` in bytes `at..at + 4`.
pub open spec fn be_u32_at(b: Seq<u8>, at: int) -> u32 {
    (b[at] * 16777216 + b[at + 1] * 65536 + b[at + 2] * 256 + b[at + 3]) as u32
}

/// The big-endian `i64` (two's complement) in bytes `at..at + 8`.
pub open spec fn be_i64_at(b: Seq<u8>, at: int) -> i64 {
    ((be_u32_at(b, at) * 4294967296 + be_u32_at(b, at + 4)) as u64) as i64
}

/// Reads the big-endian `u32` at `at`.
fn read_u32(b: &[u8], at: usize) -> (v: u32)
    requires
        at + 4 <= b.len(),
    ensures
        v == be_u32_at(b@, at as int),
{
    (b[at] as u32) * 16777216 + (b[at + 1] as u32) * 65536 + (b[at + 2] as u32) * 256 + (b[at + 3] as u32)
}

/// Reads the big-endian `i64` at `at`.
fn read_i64(b: &[u8], at: usize) -> (v: i64)
    requires
        at + 8 <= b.len(),
    ensures
        v == be_i64_at(b@, at as int),
{
    let hi = read_u32(b, at) as u64;
    let lo = read_u32(b, at + 4) as u64;
    let u: u64 = hi * 4294967296 + lo;
    #[verifier::truncate]
    (u as i64)
}

/// A write command of the binary protocol.
#[derive(Debug, Clone, Copy, PartialEq, Eq, Structural)]
pub enum Command {
    /// Stores an integer, with a time-to-live in seconds if one is given.
    SetInt { addr: usize, ttl: Option<u64>, val: i64 },
    /// Empties a slot.
    Del { addr: usize },
    /// Pushes an integer to the front of a list.
    PushInt { addr: usize, val: i64 },
    /// Pops the front of a list.
    Pop { addr: usize },
    /// Sets a hash field, named by the decimal text of a number, to an integer.
    HSetInt { addr: usize, field: u32, val: i64 },
}

/// What a binary frame at some position holds: a write command and its
/// length, too few bytes for the command its opcode names, or no write
/// command.
#[derive(Debug, Clone, Copy, PartialEq, Eq, Structural)]
pub enum Decoded {
    Cmd(Command, usize),
    Short,
    Other,
}

/// The write command in `b` at `pos`.
pub open spec fn decode_spec(b: Seq<u8>, pos: int) -> Decoded {
    let left = b.len() - pos;
    match opcode_of(b[pos]) {
        Some(OpCode::SetValue) => if left >= 17 {
            let t = be_u32_at(b, pos + 5);
            Decoded::Cmd(
                Command::SetInt {
                    addr: be_u32_at(b, pos + 1) as usize,
                    ttl: if t > 0 { Some(t as u64) } else { None },
                    val: be_i64_at(b, pos + 9),
                },
                17,
            )
        } else {
            Decoded::Short
        },
        Some(OpCode::Del) => if left >= 5 {
            Decoded::Cmd(Command::Del { addr: be_u32_at(b, pos + 1) as usize }, 5)
        } else {
            Decoded::Short
        },
        Some(OpCode::LPush) => if left >= 13 {
            Decoded::Cmd(Command::PushInt { addr: be_u32_at(b, pos + 1) as usize, val: be_i64_at(b, pos + 5) }, 13)
        } else {
            Decoded::Short
        },
        Some(OpCode::LPop) => if left >= 5 {
            Decoded::Cmd(Command::Pop { addr: be_u32_at(b, pos + 1) as usize }, 5)
        } else {
            Decoded::Short
        },
        Some(OpCode::HSet) => if left >= 17 {
            Decoded::Cmd(
                Command::HSetInt {
                    addr: be_u32_at(b, pos + 1) as usize,
                    field: be_u32_at(b, pos + 5),
                    val: be_i64_at(b, pos + 9),
                },
                17,
            )
        } else {
            Decoded::Short
        },
        _ => Decoded::Other,
    }
}

/// Decodes the write command in `b` at `pos`.
pub fn decode_write(b: &[u8], pos: usize) -> (r: Decoded)
    requires
        pos < b@.len(),
    ensures
        r == decode_spec(b@, pos as int),
        r matches Decoded::Cmd(_, n) ==> pos + n <= b@.len() && n > 0,
{
    let left = b.len() - pos;
    match OpCode::from_u8(b[pos]) {
        Some(OpCode::SetValue) => {
            if left >= 17 {
                let t = read_u32(b, pos + 5);
                Decoded::Cmd(
                    Command::SetInt {
                        addr: read_u32(b, pos + 1) as usize,
                        ttl: if t > 0 { Some(t as u64) } else { None },
                        val: read_i64(b, pos + 9),
                    },
                    17,
                )
            } else {
                Decoded::Short
            }
        },
        Some(OpCode::Del) => {
            if left >= 5 {
                Decoded::Cmd(Command::Del { addr: read_u32(b, pos + 1) as usize }, 5)
            } else {
                Decoded::Short
            }
        },
        Some(OpCode::LPush) => {
            if left >= 13 {
                Decoded::Cmd(Command::PushInt { addr: read_u32(b, pos + 1) as usize, val: read_i64(b, pos + 5) }, 13)
            } else {
                Decoded::Short
            }
        },
        Some(OpCode::LPop) => {
            if left >= 5 {
                Decoded::Cmd(Command::Pop { addr: read_u32(b, pos + 1) as usize }, 5)
            } else {
                Decoded::Short
            }
        },
        Some(OpCode::HSet) => {
            if left >= 17 {
                Decoded::Cmd(
                    Command::HSetInt {
                        addr: read_u32(b, pos + 1) as usize,
                        field: read_u32(b, pos + 5),
                        val: read_i64(b, pos + 9),
                    },
                    17,
                )
            } else {
                Decoded::Short
            }
        },
        _ => Decoded::Other,
    }
}

/// The store after a write command at time `now`, and the value a `Pop`
/// returns (the empty value for the other commands); `fits` tells whether
/// the clock can represent the deadline a `SetInt` asks for.
pub open spec fn apply_spec(d: DbModel, c: Command, now: u128, fits: bool) -> (ValueModel, DbModel) {
    match c {
        Command::SetInt { addr, ttl, val } => (
            ValueModel::Empty,
            d.set_outcome(addr as int, ValueModel::Integer(val), ttl, now, fits).1,
        ),
        Command::Del { addr } => (ValueModel::Empty, d.del_op(addr as int, now)),
        Command::PushInt { addr, val } => (ValueModel::Empty, d.push_op(addr as int, ValueModel::Integer(val), now)),
        Command::Pop { addr } => d.pop_op(addr as int, now),
        Command::HSetInt { addr, field, val } => (
            ValueModel::Empty,
            d.hset_op(addr as int, decimal_text(field as int), ValueModel::Integer(val), now),
        ),
    }
}

/// What counting the access of a write command reports: `SetInt` and `Del`
/// count no access.
pub open spec fn apply_event(d: DbModel, c: Command, now: u128) -> Promotion {
    match c {
        Command::PushInt { addr, .. } => d.access_event(addr as int, now),
        Command::Pop { addr } => d.access_event(addr as int, now),
        Command::HSetInt { addr, .. } => d.access_event(addr as int, now),
        _ => Promotion::Stay,
    }
}

/// Whether a write command stops short: its access divides by zero, or it
/// asks a deadline the clock cannot represent.
pub open spec fn apply_halts(d: DbModel, c: Command, now: u128, fits: bool) -> bool {
    ||| apply_event(d, c, now) is Fault
    ||| (c matches Command::SetInt { addr, ttl, val } && !d.set_outcome(addr as int, ValueModel::Integer(val), ttl, now, fits).0)
}

/// Carries out a write command at clock reading `now` (`fits` tells whether
/// the clock can represent the deadline it asks for), and tells what
/// counting its access reported and whether it completed.
pub fn apply_at(db: &mut RlapDb, c: Command, now: u128, fits: bool) -> (r: (RlapValue, Promotion, bool))
    requires
        now <= max_duration_nanos(),
    ensures
        final(db).latest() == old(db).latest(),
        (r.0.model(), final(db)@) == apply_spec(old(db)@, c, now, fits),
        r.1 == apply_event(old(db)@, c, now),
        r.2 == !apply_halts(old(db)@, c, now, fits),
{
    match c {
        Command::SetInt { addr, ttl, val } => {
            let done = db.set_at(addr, RlapValue::Integer(val), ttl, now, fits);
            (RlapValue::Empty, Promotion::Stay, done)
        },
        Command::Del { addr } => {
            db.del_at(addr, now);
            (RlapValue::Empty, Promotion::Stay, true)
        },
        Command::PushInt { addr, val } => {
            let ev = db.push_list_at(addr, RlapValue::Integer(val), now);
            (RlapValue::Empty, ev, !ev.is_fault())
        },
        Command::Pop { addr } => {
            let (v, ev) = db.pop_list_at(addr, now);
            (v, ev, !ev.is_fault())
        },
        Command::HSetInt { addr, field, val } => {
            let name = decimal_string(field);
            let ev = db.set_hash_at(addr, name, RlapValue::Integer(val), now);
            (RlapValue::Empty, ev, !ev.is_fault())
        },
    }
}

/// The move that a promotion made, if any.
pub open spec fn moves_of(p: Promotion) -> Seq<(usize, usize)> {
    match p {
        Promotion::Moved { addr, hot } => seq![(addr, hot)],
        _ => Seq::empty(),
    }
}

/// What replaying the log `b` from position `pos` comes to: the store, the
/// (cold address, hot slot) of each promotion in order, and whether a
/// command stopped short. `at(p)` is the clock reading for the command at
/// position `p`, with whether the clock can represent the deadline it asks
/// for. Each write command is applied in turn, bytes that start no write
/// command are skipped one at a time, and a command cut short, or one that
/// stops short, ends the replay.
pub open spec fn replay_spec(d: DbModel, b: Seq<u8>, pos: int, at: spec_fn(int) -> (u128, bool)) -> (DbModel, Seq<(usize, usize)>, bool)
    decreases b.len() - pos,
{
    if pos < 0 || pos >= b.len() {
        (d, Seq::empty(), false)
    } else {
        match decode_spec(b, pos) {
            Decoded::Cmd(c, n) => if n > 0 {
                let (now, fits) = at(pos);
                let e = apply_spec(d, c, now, fits).1;
                if apply_halts(d, c, now, fits) {
                    (e, Seq::empty(), true)
                } else {
                    let r = replay_spec(e, b, pos + n, at);
                    (r.0, moves_of(apply_event(d, c, now)) + r.1, r.2)
                }
            } else {
                (d, Seq::empty(), false)
            },
            Decoded::Short => (d, Seq::empty(), false),
            Decoded::Other => replay_spec(d, b, pos + 1, at),
        }
    }
}

/// The same reading at every position.
pub open spec fn steady(now: u128, fits: bool) -> spec_fn(int) -> (u128, bool) {
    |p: int| (now, fits)
}

/// Whether two sets of readings agree before position `pos`.
pub open spec fn agree_before(a: spec_fn(int) -> (u128, bool), b: spec_fn(int) -> (u128, bool), pos: int) -> bool {
    forall|q: int| 0 <= q < pos ==> #[trigger] a(q) == b(q)
}

/// What replaying a log came to.
#[derive(Debug, PartialEq)]
pub struct Replay {
    /// The (cold address, hot slot) of each promotion, in order.
    pub promotions: Vec<(usize, usize)>,
    /// Whether a command stopped short (it divided by zero, or asked a
    /// deadline the clock cannot represent); the replay stopped after it.
    pub faulted: bool,
}

/// Replays the append-only log `log` into the store with clock reading
/// `now` for every command (`fits` telling whether the clock can represent
/// each deadline asked for).
pub fn replay_log_at(db: &mut RlapDb, log: &[u8], now: u128, fits: bool) -> (r: Replay)
    requires
        now <= max_duration_nanos(),
    ensures
        final(db).latest() == old(db).latest(),
        final(db)@ == replay_spec(old(db)@, log@, 0, steady(now, fits)).0,
        r.promotions@ == replay_spec(old(db)@, log@, 0, steady(now, fits)).1,
        r.faulted == replay_spec(old(db)@, log@, 0, steady(now, fits)).2,
{
    let mut pos: usize = 0;
    let mut moves: Vec<(usize, usize)> = Vec::new();
    let mut faulted = false;
    let ghost at = steady(now, fits);
    let ghost whole = replay_spec(old(db)@, log@, 0, at);
    while pos < log.len()
        invariant_except_break
            !faulted,
            whole.0 == replay_spec(db@, log@, pos as int, at).0,
            whole.1 == moves@ + replay_spec(db@, log@, pos as int, at).1,
            whole.2 == replay_spec(db@, log@, pos as int, at).2,
        invariant
            pos <= log@.len(),
            now <= max_duration_nanos(),
            at == steady(now, fits),
            whole == replay_spec(old(db)@, log@, 0, at),
            db.latest() == old(db).latest(),
        ensures
            db@ == whole.0,
            moves@ == whole.1,
            faulted == whole.2,
            db.latest() == old(db).latest(),
        decreases log@.len() - pos,
    {
        match decode_write(log, pos) {
            Decoded::Cmd(c, n) => {
                let ghost before = moves@;
                assert(at(pos as int) == (now, fits));
                let (_, ev, done) = apply_at(db, c, now, fits);
                if !done {
                    faulted = true;
                    assert(moves@ + Seq::<(usize, usize)>::empty() =~= moves@);
                    break;
                }
                let ghost rest = replay_spec(db@, log@, pos + n, at).1;
                match ev {
                    Promotion::Moved { addr, hot } => {
                        moves.push((addr, hot));
                        assert(before + (seq![(addr, hot)] + rest) =~= moves@ + rest);
                    },
                    _ => {
                        assert(Seq::<(usize, usize)>::empty() + rest =~= rest);
                    },
                }
                pos = pos + n;
            },
            Decoded::Short => {
                assert(moves@ + Seq::<(usize, usize)>::empty() =~= moves@);
                break;
            },
            Decoded::Other => {
                pos = pos + 1;
            },
        }
    }
    Replay { promotions: moves, faulted }
}

/// Names the text that `str::to_uppercase` makes of a string.
pub uninterp spec fn unicode_upper(s: Seq<char>) -> Seq<char>;

/// Calls `str::to_uppercase`; the result is named, as the Unicode case
/// mapping takes tables to state.
#[verifier::external_body]
fn to_upper(s: &str) -> (r: String)
    ensures
        r@ == unicode_upper(s@),
{
    s.to_uppercase()
}

/// An answer to a RESP command: a RESP value, or a simple string that
/// carries the `Debug` text of a stored value (which the server renders).
#[derive(Debug, PartialEq)]
pub enum Reply {
    Resp(RespValue),
    Described(RlapValue),
}

/// The content of an answer.
pub enum ReplyModel {
    Resp(RespModel),
    Described(ValueModel),
}

impl Reply {
    /// The content of this answer.
    pub open spec fn model(self) -> ReplyModel {
        match self {
            Reply::Resp(v) => ReplyModel::Resp(v.model()),
            Reply::Described(v) => ReplyModel::Described(v.model()),
        }
    }
}

/// What handling a RESP command comes to: no answer, a request the server
/// cannot carry out (its connection task gives up there), or an answer.
#[derive(Debug, PartialEq)]
pub enum Step {
    Silent,
    Abort,
    Answer(Reply),
}

/// The content of a step.
pub enum StepModel {
    Silent,
    Abort,
    Answer(ReplyModel),
}

impl Step {
    /// The content of this step.
    pub open spec fn model(self) -> StepModel {
        match self {
            Step::Silent => StepModel::Silent,
            Step::Abort => StepModel::Abort,
            Step::Answer(r) => StepModel::Answer(r.model()),
        }
    }
}

/// The text of an argument: its bytes converted lossily, or the empty text
/// for an argument that is no bulk string.
pub open spec fn arg_text(a: RespModel) -> Seq<char> {
    match a {
        RespModel::BulkString(b) => lossy_text(b),
        _ => Seq::empty(),
    }
}

/// The bytes of an argument, or none for an argument that is no bulk string.
pub open spec fn arg_bytes(a: RespModel) -> Seq<u8> {
    match a {
        RespModel::BulkString(b) => b,
        _ => Seq::empty(),
    }
}

/// The value that text stores as: an integer when it reads as an `i64`,
/// otherwise a long string.
pub open spec fn text_value(b: Seq<u8>) -> ValueModel {
    match i64_text_value(b) {
        Some(i) => ValueModel::Integer(i),
        None => ValueModel::LongStr(lossy_text(b)),
    }
}

/// The answer that carries a read value.
pub open spec fn value_reply(v: ValueModel) -> ReplyModel {
    match v {
        ValueModel::Integer(i) => ReplyModel::Resp(RespModel::BulkString(decimal(i as int))),
        ValueModel::LongStr(t) => ReplyModel::Resp(RespModel::BulkString(encode_utf8(t))),
        ValueModel::Empty => ReplyModel::Resp(RespModel::Nil),
        _ => ReplyModel::Described(v),
    }
}

/// How a hash field's value is answered in `HGETALL`.
pub open spec fn field_value_reply(v: ValueModel) -> RespModel {
    match v {
        ValueModel::Integer(i) => RespModel::BulkString(decimal(i as int)),
        ValueModel::LongStr(t) => RespModel::BulkString(encode_utf8(t)),
        _ => RespModel::Nil,
    }
}

/// The `HGETALL` answer items: each field name, then its value.
pub open spec fn fields_reply(h: Seq<(Seq<char>, ValueModel)>) -> Seq<RespModel>
    decreases h.len(),
{
    if h.len() == 0 {
        Seq::empty()
    } else {
        fields_reply(h.drop_last()) + seq![
            RespModel::BulkString(encode_utf8(h.last().0)),
            field_value_reply(h.last().1),
        ]
    }
}

/// The slot of the key that argument `a` names.
pub open spec fn arg_addr(a: RespModel, d: DbModel) -> int {
    ((key_hash(arg_text(a)) as usize) % (d.slots.len() as usize)) as int
}

/// The time-to-live that `SET key value EX seconds` asks for.
pub open spec fn set_ttl(args: Seq<RespModel>) -> Option<u64> {
    if args.len() >= 5 {
        match (args[3], args[4]) {
            (RespModel::BulkString(opt), RespModel::BulkString(secs)) => if unicode_upper(lossy_text(opt)) == "EX"@ {
                u64_text_value(secs)
            } else {
                None
            },
            _ => None,
        }
    } else {
        None
    }
}

/// The seconds that `EXPIRE key seconds` asks for (0 when they do not read
/// as a `u64`).
pub open spec fn expire_secs(a: RespModel) -> u64 {
    match a {
        RespModel::BulkString(b) => match u64_text_value(b) {
            Some(v) => v,
            None => 0,
        },
        _ => 0,
    }
}

/// The `OK` answer.
pub open spec fn ok_reply() -> StepModel {
    StepModel::Answer(ReplyModel::Resp(RespModel::SimpleString("OK"@)))
}

/// An integer answer.
pub open spec fn int_reply(i: i64) -> StepModel {
    StepModel::Answer(ReplyModel::Resp(RespModel::Integer(i)))
}

/// Whether keys can be sent to slots: the store has a slot, and the number
/// of its slots fits in `usize`.
pub open spec fn keyed(d: DbModel) -> bool {
    0 < d.slots.len() <= usize::MAX
}

/// An outcome that counts no access.
pub open spec fn quiet(step: StepModel, d: DbModel) -> (StepModel, DbModel, Promotion) {
    (step, d, Promotion::Stay)
}

/// The outcome of a command whose access reported `ev`: its answer, unless
/// the access divided by zero.
pub open spec fn counted(answer: StepModel, e: DbModel, ev: Promotion) -> (StepModel, DbModel, Promotion) {
    if ev is Fault {
        (StepModel::Abort, e, ev)
    } else {
        (answer, e, ev)
    }
}

/// What the RESP command with arguments `args` does at time `now`: its
/// answer, the store after it, and what counting its access reported; `cmd`
/// is the upper-cased name, and `fits` tells whether the clock can represent
/// the deadline it asks for. A command that names a key aborts, with the
/// store unchanged, when keys cannot be sent to slots.
pub open spec fn command_spec(d: DbModel, cmd: Seq<char>, args: Seq<RespModel>, now: u128, fits: bool) -> (StepModel, DbModel, Promotion) {
    if cmd == "PING"@ {
        quiet(StepModel::Answer(ReplyModel::Resp(RespModel::SimpleString("PONG"@))), d)
    } else if cmd == "SET"@ {
        if args.len() < 3 {
            quiet(StepModel::Silent, d)
        } else if !keyed(d) {
            quiet(StepModel::Abort, d)
        } else {
            let addr = arg_addr(args[1], d);
            let (done, e) = d.set_outcome(addr, text_value(arg_bytes(args[2])), set_ttl(args), now, fits);
            quiet(if done { ok_reply() } else { StepModel::Abort }, e)
        }
    } else if cmd == "GET"@ {
        if args.len() < 2 {
            quiet(StepModel::Silent, d)
        } else if !keyed(d) {
            quiet(StepModel::Abort, d)
        } else {
            let addr = arg_addr(args[1], d);
            let (v, e) = d.get_op(addr, now);
            counted(StepModel::Answer(value_reply(v)), e, d.read_event(addr, now))
        }
    } else if cmd == "DEL"@ {
        if args.len() < 2 {
            quiet(StepModel::Silent, d)
        } else if !keyed(d) {
            quiet(StepModel::Abort, d)
        } else {
            quiet(int_reply(1), d.del_op(arg_addr(args[1], d), now))
        }
    } else if cmd == "EXPIRE"@ {
        if args.len() < 3 {
            quiet(StepModel::Silent, d)
        } else if !keyed(d) {
            quiet(StepModel::Abort, d)
        } else {
            let (r, e) = d.expire_outcome(arg_addr(args[1], d), expire_secs(args[2]), now, fits);
            quiet(
                match r {
                    Some(ok) => int_reply(if ok { 1 } else { 0 }),
                    None => StepModel::Abort,
                },
                e,
            )
        }
    } else if cmd == "TTL"@ {
        if args.len() < 2 {
            quiet(StepModel::Silent, d)
        } else if !keyed(d) {
            quiet(StepModel::Abort, d)
        } else {
            let (t, e) = d.ttl_op(arg_addr(args[1], d), now);
            quiet(int_reply(t), e)
        }
    } else if cmd == "HSET"@ {
        if args.len() < 4 {
            quiet(StepModel::Silent, d)
        } else if !keyed(d) {
            quiet(StepModel::Abort, d)
        } else {
            let addr = arg_addr(args[1], d);
            counted(
                int_reply(1),
                d.hset_op(addr, arg_text(args[2]), text_value(arg_bytes(args[3])), now),
                d.access_event(addr, now),
            )
        }
    } else if cmd == "HGET"@ {
        if args.len() < 3 {
            quiet(StepModel::Silent, d)
        } else if !keyed(d) {
            quiet(StepModel::Abort, d)
        } else {
            let addr = arg_addr(args[1], d);
            let (v, e) = d.hget_op(addr, arg_text(args[2]), now);
            counted(StepModel::Answer(value_reply(v)), e, d.access_event(addr, now))
        }
    } else if cmd == "HGETALL"@ {
        if args.len() < 2 {
            quiet(StepModel::Silent, d)
        } else if !keyed(d) {
            quiet(StepModel::Abort, d)
        } else {
            let addr = arg_addr(args[1], d);
            let (h, e) = d.hgetall_op(addr, now);
            counted(StepModel::Answer(ReplyModel::Resp(RespModel::Array(fields_reply(h)))), e, d.access_event(addr, now))
        }
    } else if cmd == "LPUSH"@ {
        if args.len() < 3 {
            quiet(StepModel::Silent, d)
        } else if !keyed(d) {
            quiet(StepModel::Abort, d)
        } else {
            let addr = arg_addr(args[1], d);
            counted(int_reply(1), d.push_op(addr, text_value(arg_bytes(args[2])), now), d.access_event(addr, now))
        }
    } else if cmd == "LPOP"@ {
        if args.len() < 2 {
            quiet(StepModel::Silent, d)
        } else if !keyed(d) {
            quiet(StepModel::Abort, d)
        } else {
            let addr = arg_addr(args[1], d);
            let (v, e) = d.pop_op(addr, now);
            counted(StepModel::Answer(value_reply(v)), e, d.access_event(addr, now))
        }
    } else if cmd == "COMMAND"@ {
        quiet(StepModel::Answer(ReplyModel::Resp(RespModel::Array(Seq::empty()))), d)
    } else {
        quiet(StepModel::Answer(ReplyModel::Resp(RespModel::Error("Unknown command: "@ + cmd))), d)
    }
}

/// What a RESP request (an array whose first item names the command) does.
pub open spec fn request_spec(d: DbModel, args: Seq<RespModel>, now: u128, fits: bool) -> (StepModel, DbModel, Promotion) {
    if args.len() == 0 {
        quiet(StepModel::Silent, d)
    } else {
        match args[0] {
            RespModel::BulkString(name) => command_spec(d, unicode_upper(lossy_text(name)), args, now, fits),
            _ => quiet(StepModel::Silent, d),
        }
    }
}

/// The content of a sequence of RESP values.
pub open spec fn resp_models(v: Seq<RespValue>) -> Seq<RespModel> {
    Seq::new(v.len(), |i: int| v[i].model())
}

/// The text of an argument.
fn arg_string(a: &RespValue) -> (s: String)
    ensures
        s@ == arg_text(a.model()),
{
    match a {
        RespValue::BulkString(b) => lossy_string(b.as_slice()),
        _ => String::new(),
    }
}

/// The value that an argument's text stores as.
fn arg_value(a: &RespValue) -> (v: RlapValue)
    ensures
        v.model() == text_value(arg_bytes(a.model())),
{
    let empty: Vec<u8> = Vec::new();
    let bytes: &[u8] = match a {
        RespValue::BulkString(b) => b.as_slice(),
        _ => empty.as_slice(),
    };
    match parse_i64(bytes) {
        Some(i) => RlapValue::Integer(i),
        None => RlapValue::LongStr(lossy_string(bytes)),
    }
}

/// The slot of the key that an argument names.
fn arg_slot(db: &RlapDb, a: &RespValue) -> (addr: usize)
    requires
        0 < db@.slots.len() <= usize::MAX,
    ensures
        addr == arg_addr(a.model(), db@),
{
    let key = arg_string(a);
    key_to_addr(key.as_str(), db.hot_len(), db.cold_len())
}

/// The answer that carries a read value.
fn reply_for(v: RlapValue) -> (r: Reply)
    ensures
        r.model() == value_reply(v.model()),
{
    match v {
        RlapValue::Integer(i) => {
            let mut b: Vec<u8> = Vec::new();
            push_decimal_i64(&mut b, i);
            assert(b@ =~= decimal(i as int));
            Reply::Resp(RespValue::BulkString(b))
        },
        RlapValue::LongStr(t) => {
            let mut b: Vec<u8> = Vec::new();
            append_bytes(&mut b, t.as_str().as_bytes());
            assert(b@ =~= encode_utf8(t@));
            Reply::Resp(RespValue::BulkString(b))
        },
        RlapValue::Empty => Reply::Resp(RespValue::Nil),
        other => Reply::Described(other),
    }
}

/// How a hash field's value is answered in `HGETALL`.
fn field_value_resp(v: RlapValue) -> (r: RespValue)
    ensures
        r.model() == field_value_reply(v.model()),
{
    match v {
        RlapValue::Integer(i) => {
            let mut b: Vec<u8> = Vec::new();
            push_decimal_i64(&mut b, i);
            assert(b@ =~= decimal(i as int));
            RespValue::BulkString(b)
        },
        RlapValue::LongStr(t) => {
            let mut b: Vec<u8> = Vec::new();
            append_bytes(&mut b, t.as_str().as_bytes());
            assert(b@ =~= encode_utf8(t@));
            RespValue::BulkString(b)
        },
        _ => RespValue::Nil,
    }
}

/// The `HGETALL` answer for some fields.
fn fields_resp(fields: Vec<(String, RlapValue)>) -> (r: RespValue)
    ensures
        r.model() == RespModel::Array(fields_reply(crate::value::fields_model(fields@))),
{
    let ghost fv = fields@;
    let ghost fm = crate::value::fields_model(fv);
    let mut items: Vec<RespValue> = Vec::new();
    let mut i: usize = 0;
    let n = fields.len();
    let mut rest = fields;
    let mut pending: Vec<(String, RlapValue)> = Vec::new();
    // Take the fields in order: reverse into `pending`, then pop from it.
    while rest.len() > 0
        invariant
            rest@.len() + pending@.len() == n,
            n == fm.len(),
            forall|k: int| 0 <= k < rest@.len() ==> #[trigger] rest@[k] == fv[k],
            forall|k: int| 0 <= k < pending@.len() ==> #[trigger] pending@[k] == fv[n - 1 - k],
        decreases rest@.len(),
    {
        let e = rest.pop().unwrap();
        pending.push(e);
    }
    while i < n
        invariant
            i <= n,
            n == fm.len(),
            fm == crate::value::fields_model(fv),
            pending@.len() == n - i,
            forall|k: int| 0 <= k < pending@.len() ==> #[trigger] pending@[k] == fv[n - 1 - k],
            resp_models(items@) == fields_reply(fm.subrange(0, i as int)),
        decreases n - i,
    {
        let (name, value) = pending.pop().unwrap();
        let ghost before = items@;
        let mut nb: Vec<u8> = Vec::new();
        append_bytes(&mut nb, name.as_str().as_bytes());
        let vr = field_value_resp(value);
        items.push(RespValue::BulkString(nb));
        items.push(vr);
        proof {
            let sub = fm.subrange(0, i + 1);
            assert(sub.drop_last() =~= fm.subrange(0, i as int));
            assert(sub.last() == fm[i as int]);
            assert(fm[i as int] == (fv[i as int].0@, fv[i as int].1.model()));
            assert(resp_models(items@) =~= fields_reply(sub));
        }
        i = i + 1;
    }
    assert(fm.subrange(0, n as int) =~= fm);
    let r = RespValue::Array(items);
    proof {
        if let RespModel::Array(x) = r.model() {
            assert(x =~= resp_models(items@));
        }
    }
    r
}

/// The time-to-live that `SET key value EX seconds` asks for.
fn set_ttl_of(args: &Vec<RespValue>) -> (t: Option<u64>)
    ensures
        t == set_ttl(resp_models(args@)),
{
    if args.len() >= 5 {
        if let RespValue::BulkString(opt) = &args[3] {
            let word = to_upper(lossy_string(opt.as_slice()).as_str());
            if word == "EX".to_owned() {
                if let RespValue::BulkString(secs) = &args[4] {
                    return parse_u64(secs.as_slice());
                }
            }
        }
    }
    None
}

/// The seconds that `EXPIRE key seconds` asks for.
fn expire_secs_of(a: &RespValue) -> (s: u64)
    ensures
        s == expire_secs(a.model()),
{
    match a {
        RespValue::BulkString(b) => match parse_u64(b.as_slice()) {
            Some(v) => v,
            None => 0,
        },
        _ => 0,
    }
}

/// Whether `cmd` is the command name `name`.
fn is_command(cmd: &String, name: &str) -> (b: bool)
    ensures
        b == (cmd@ == name@),
{
    *cmd == name.to_owned()
}

/// Whether keys can be sent to slots in this store.
fn can_key(db: &RlapDb) -> (b: bool)
    ensures
        b == keyed(db@),
{
    proof {
        crate::store::lemma_view_shape(db);
    }
    match db.hot_len().checked_add(db.cold_len()) {
        Some(total) => total > 0,
        None => false,
    }
}

/// The step for an access that reported `ev`: `answer`, unless the access
/// divided by zero.
fn counted_step(answer: Reply, ev: Promotion) -> (r: (Step, Promotion))
    ensures
        r.1 == ev,
        r.0.model() == (if ev is Fault { StepModel::Abort } else { StepModel::Answer(answer.model()) }),
{
    match ev {
        Promotion::Fault => (Step::Abort, ev),
        _ => (Step::Answer(answer), ev),
    }
}

/// Carries out the RESP command named `cmd` (upper-cased) with arguments
/// `args` at clock reading `now`, where `fits` tells whether the clock can
/// represent the deadline it asks for, and tells what counting its access
/// reported.
pub fn run_command(db: &mut RlapDb, cmd: &String, args: &Vec<RespValue>, now: u128, fits: bool) -> (r: (Step, Promotion))
    requires
        now <= max_duration_nanos(),
    ensures
        final(db).latest() == old(db).latest(),
        (r.0.model(), final(db)@, r.1) == command_spec(old(db)@, cmd@, resp_models(args@), now, fits),
{
    let ghost a = resp_models(args@);
    if is_command(cmd, "PING") {
        return (Step::Answer(Reply::Resp(RespValue::SimpleString("PONG".to_owned()))), Promotion::Stay);
    }
    if is_command(cmd, "SET") {
        if args.len() < 3 {
            return (Step::Silent, Promotion::Stay);
        }
        if !can_key(db) {
            return (Step::Abort, Promotion::Stay);
        }
        let addr = arg_slot(db, &args[1]);
        let val = arg_value(&args[2]);
        let ttl = set_ttl_of(args);
        assert(a[1] == args@[1].model() && a[2] == args@[2].model());
        if !db.set_at(addr, val, ttl, now, fits) {
            return (Step::Abort, Promotion::Stay);
        }
        return (Step::Answer(Reply::Resp(RespValue::SimpleString("OK".to_owned()))), Promotion::Stay);
    }
    if is_command(cmd, "GET") {
        if args.len() < 2 {
            return (Step::Silent, Promotion::Stay);
        }
        if !can_key(db) {
            return (Step::Abort, Promotion::Stay);
        }
        let addr = arg_slot(db, &args[1]);
        assert(a[1] == args@[1].model());
        let (v, ev) = db.get_and_promote_at(addr, now);
        return counted_step(reply_for(v), ev);
    }
    if is_command(cmd, "DEL") {
        if args.len() < 2 {
            return (Step::Silent, Promotion::Stay);
        }
        if !can_key(db) {
            return (Step::Abort, Promotion::Stay);
        }
        let addr = arg_slot(db, &args[1]);
        assert(a[1] == args@[1].model());
        db.del_at(addr, now);
        return (Step::Answer(Reply::Resp(RespValue::Integer(1))), Promotion::Stay);
    }
    if is_command(cmd, "EXPIRE") {
        if args.len() < 3 {
            return (Step::Silent, Promotion::Stay);
        }
        if !can_key(db) {
            return (Step::Abort, Promotion::Stay);
        }
        let addr = arg_slot(db, &args[1]);
        let secs = expire_secs_of(&args[2]);
        assert(a[1] == args@[1].model() && a[2] == args@[2].model());
        return match db.expire_at(addr, secs, now, fits) {
            Some(ok) => (Step::Answer(Reply::Resp(RespValue::Integer(if ok { 1 } else { 0 }))), Promotion::Stay),
            None => (Step::Abort, Promotion::Stay),
        };
    }
    if is_command(cmd, "TTL") {
        if args.len() < 2 {
            return (Step::Silent, Promotion::Stay);
        }
        if !can_key(db) {
            return (Step::Abort, Promotion::Stay);
        }
        let addr = arg_slot(db, &args[1]);
        assert(a[1] == args@[1].model());
        let t = db.ttl_at(addr, now);
        return (Step::Answer(Reply::Resp(RespValue::Integer(t))), Promotion::Stay);
    }
    if is_command(cmd, "HSET") {
        if args.len() < 4 {
            return (Step::Silent, Promotion::Stay);
        }
        if !can_key(db) {
            return (Step::Abort, Promotion::Stay);
        }
        let addr = arg_slot(db, &args[1]);
        let field = arg_string(&args[2]);
        let val = arg_value(&args[3]);
        assert(a[1] == args@[1].model() && a[2] == args@[2].model() && a[3] == args@[3].model());
        let ev = db.set_hash_at(addr, field, val, now);
        return counted_step(Reply::Resp(RespValue::Integer(1)), ev);
    }
    if is_command(cmd, "HGET") {
        if args.len() < 3 {
            return (Step::Silent, Promotion::Stay);
        }
        if !can_key(db) {
            return (Step::Abort, Promotion::Stay);
        }
        let addr = arg_slot(db, &args[1]);
        let field = arg_string(&args[2]);
        assert(a[1] == args@[1].model() && a[2] == args@[2].model());
        let (v, ev) = db.get_hash_at(addr, field.as_str(), now);
        return counted_step(reply_for(v), ev);
    }
    if is_command(cmd, "HGETALL") {
        if args.len() < 2 {
            return (Step::Silent, Promotion::Stay);
        }
        if !can_key(db) {
            return (Step::Abort, Promotion::Stay);
        }
        let addr = arg_slot(db, &args[1]);
        assert(a[1] == args@[1].model());
        let (fields, ev) = db.get_hash_all_at(addr, now);
        return counted_step(Reply::Resp(fields_resp(fields)), ev);
    }
    if is_command(cmd, "LPUSH") {
        if args.len() < 3 {
            return (Step::Silent, Promotion::Stay);
        }
        if !can_key(db) {
            return (Step::Abort, Promotion::Stay);
        }
        let addr = arg_slot(db, &args[1]);
        let val = arg_value(&args[2]);
        assert(a[1] == args@[1].model() && a[2] == args@[2].model());
        let ev = db.push_list_at(addr, val, now);
        return counted_step(Reply::Resp(RespValue::Integer(1)), ev);
    }
    if is_command(cmd, "LPOP") {
        if args.len() < 2 {
            return (Step::Silent, Promotion::Stay);
        }
        if !can_key(db) {
            return (Step::Abort, Promotion::Stay);
        }
        let addr = arg_slot(db, &args[1]);
        assert(a[1] == args@[1].model());
        let (v, ev) = db.pop_list_at(addr, now);
        return counted_step(reply_for(v), ev);
    }
    if is_command(cmd, "COMMAND") {
        let none: Vec<RespValue> = Vec::new();
        let r = RespValue::Array(none);
        proof {
            if let RespModel::Array(x) = r.model() {
                assert(x =~= Seq::<RespModel>::empty());
            }
        }
        return (Step::Answer(Reply::Resp(r)), Promotion::Stay);
    }
    let mut msg = "Unknown command: ".to_owned();
    msg.append(cmd.as_str());
    (Step::Answer(Reply::Resp(RespValue::Error(msg))), Promotion::Stay)
}

/// Carries out the RESP request `args` at clock reading `now`, where `fits`
/// tells whether the clock can represent the deadline it asks for, and
/// tells what counting its access reported.
pub fn execute_at(db: &mut RlapDb, args: &Vec<RespValue>, now: u128, fits: bool) -> (r: (Step, Promotion))
    requires
        now <= max_duration_nanos(),
    ensures
        final(db).latest() == old(db).latest(),
        (r.0.model(), final(db)@, r.1) == request_spec(old(db)@, resp_models(args@), now, fits),
{
    if args.len() == 0 {
        return (Step::Silent, Promotion::Stay);
    }
    match &args[0] {
        RespValue::BulkString(name) => {
            let cmd = to_upper(lossy_string(name.as_slice()).as_str());
            run_command(db, &cmd, args, now, fits)
        },
        _ => (Step::Silent, Promotion::Stay),
    }
}

/// An answer to a binary frame: `OK`, a read value (`Result: ...`), or a
/// popped value (`Pop: ...`).
#[derive(Debug, PartialEq)]
pub enum BinaryReply {
    Done,
    Result(RlapValue),
    Popped(RlapValue),
}

/// What the server does with the bytes of one read.
#[derive(Debug, PartialEq)]
pub enum FrameOutcome {
    /// No answer.
    Silent,
    /// A request the server cannot carry out; its connection task gives up.
    Abort,
    /// A RESP answer.
    Resp(Reply),
    /// A binary answer, sent after the first `n` bytes of the frame are
    /// appended to the log (nothing is logged when `n` is 0).
    Binary(BinaryReply, usize),
}

/// The content of a binary answer.
pub enum BinaryReplyModel {
    Done,
    Result(ValueModel),
    Popped(ValueModel),
}

/// The content of a frame outcome.
pub enum FrameModel {
    Silent,
    Abort,
    Resp(ReplyModel),
    Binary(BinaryReplyModel, int),
}

impl FrameOutcome {
    /// The content of this outcome.
    pub open spec fn model(self) -> FrameModel {
        match self {
            FrameOutcome::Silent => FrameModel::Silent,
            FrameOutcome::Abort => FrameModel::Abort,
            FrameOutcome::Resp(r) => FrameModel::Resp(r.model()),
            FrameOutcome::Binary(b, n) => FrameModel::Binary(
                match b {
                    BinaryReply::Done => BinaryReplyModel::Done,
                    BinaryReply::Result(v) => BinaryReplyModel::Result(v.model()),
                    BinaryReply::Popped(v) => BinaryReplyModel::Popped(v.model()),
                },
                n as int,
            ),
        }
    }
}

/// What a binary frame does at time `now`: its outcome, the store after
/// it, and what counting its access reported; `fits` tells whether the
/// clock can represent the deadline it asks for.
pub open spec fn binary_spec(d: DbModel, f: Seq<u8>, now: u128, fits: bool) -> (FrameModel, DbModel, Promotion) {
    if opcode_of(f[0]) == Some(OpCode::Get) {
        let addr = be_u32_at(f, 1) as usize as int;
        let (v, e) = d.get_op(addr, now);
        let ev = d.read_event(addr, now);
        (if ev is Fault { FrameModel::Abort } else { FrameModel::Binary(BinaryReplyModel::Result(v), 0) }, e, ev)
    } else {
        match decode_spec(f, 0) {
            Decoded::Cmd(c, n) => {
                let (v, e) = apply_spec(d, c, now, fits);
                (
                    if apply_halts(d, c, now, fits) {
                        FrameModel::Abort
                    } else {
                        FrameModel::Binary(
                            if c is Pop {
                                BinaryReplyModel::Popped(v)
                            } else {
                                BinaryReplyModel::Done
                            },
                            n as int,
                        )
                    },
                    e,
                    apply_event(d, c, now),
                )
            },
            _ => (FrameModel::Silent, d, Promotion::Stay),
        }
    }
}

/// What the bytes of one read do at time `now`: a RESP request when they
/// start with `*`, otherwise a binary frame when there are at least five;
/// `fits` tells whether the clock can represent the deadline they ask for.
pub open spec fn frame_spec(d: DbModel, f: Seq<u8>, now: u128, fits: bool) -> (FrameModel, DbModel, Promotion) {
    if f.len() > 0 && f[0] == 42u8 {
        match parse_spec(f) {
            RespParse::NegativeLength => (FrameModel::Abort, d, Promotion::Stay),
            RespParse::Complete(RespModel::Array(args), _) => {
                let (step, e, ev) = request_spec(d, args, now, fits);
                (
                    match step {
                        StepModel::Silent => FrameModel::Silent,
                        StepModel::Abort => FrameModel::Abort,
                        StepModel::Answer(r) => FrameModel::Resp(r),
                    },
                    e,
                    ev,
                )
            },
            _ => (FrameModel::Silent, d, Promotion::Stay),
        }
    } else if f.len() >= 5 {
        binary_spec(d, f, now, fits)
    } else {
        (FrameModel::Silent, d, Promotion::Stay)
    }
}

/// The seconds of the deadline that a RESP request asks for, if any:
/// `SET key value EX seconds` and `EXPIRE key seconds`.
pub open spec fn request_deadline(args: Seq<RespModel>) -> Option<u64> {
    if args.len() >= 3 {
        match args[0] {
            RespModel::BulkString(name) => {
                let cmd = unicode_upper(lossy_text(name));
                if cmd == "SET"@ {
                    set_ttl(args)
                } else if cmd == "EXPIRE"@ {
                    Some(expire_secs(args[2]))
                } else {
                    None
                }
            },
            _ => None,
        }
    } else {
        None
    }
}

/// The seconds of the deadline that the bytes of one read ask for, if any.
pub open spec fn frame_deadline(f: Seq<u8>) -> Option<u64> {
    if f.len() > 0 && f[0] == 42u8 {
        match parse_spec(f) {
            RespParse::Complete(RespModel::Array(args), _) => request_deadline(args),
            _ => None,
        }
    } else if f.len() >= 5 {
        match decode_spec(f, 0) {
            Decoded::Cmd(Command::SetInt { ttl, .. }, _) => ttl,
            _ => None,
        }
    } else {
        None
    }
}

/// The seconds of the deadline that a RESP request asks for, if any.
fn request_deadline_of(args: &Vec<RespValue>) -> (r: Option<u64>)
    ensures
        r == request_deadline(resp_models(args@)),
{
    let ghost a = resp_models(args@);
    if args.len() < 3 {
        return None;
    }
    assert(a[0] == args@[0].model() && a[2] == args@[2].model());
    match &args[0] {
        RespValue::BulkString(name) => {
            let cmd = to_upper(lossy_string(name.as_slice()).as_str());
            if is_command(&cmd, "SET") {
                set_ttl_of(args)
            } else if is_command(&cmd, "EXPIRE") {
                Some(expire_secs_of(&args[2]))
            } else {
                None
            }
        },
        _ => None,
    }
}

/// The seconds of the deadline that the bytes of one read ask for, if any.
pub fn asked_deadline(frame: &[u8]) -> (r: Option<u64>)
    ensures
        r == frame_deadline(frame@),
{
    if frame.len() > 0 && frame[0] == 42u8 {
        match RespValue::try_parse(frame) {
            Ok(Some((RespValue::Array(args), _))) => {
                proof {
                    if let RespModel::Array(x) = RespValue::Array(args).model() {
                        assert(x =~= resp_models(args@));
                    }
                }
                request_deadline_of(&args)
            },
            _ => None,
        }
    } else if frame.len() >= 5 {
        match decode_write(frame, 0) {
            Decoded::Cmd(Command::SetInt { ttl, .. }, _) => ttl,
            _ => None,
        }
    } else {
        None
    }
}

/// Handles the bytes of one read at clock reading `now`, where `fits` tells
/// whether the clock can represent the deadline they ask for, and tells
/// what counting its access reported.
pub fn handle_frame_at(db: &mut RlapDb, frame: &[u8], now: u128, fits: bool) -> (r: (FrameOutcome, Promotion))
    requires
        now <= max_duration_nanos(),
    ensures
        final(db).latest() == old(db).latest(),
        (r.0.model(), final(db)@, r.1) == frame_spec(old(db)@, frame@, now, fits),
{
    if frame.len() > 0 && frame[0] == 42u8 {
        match RespValue::try_parse(frame) {
            Err(_) => (FrameOutcome::Abort, Promotion::Stay),
            Ok(Some((RespValue::Array(args), _))) => {
                proof {
                    if let RespModel::Array(x) = RespValue::Array(args).model() {
                        assert(x =~= resp_models(args@));
                    }
                }
                let (step, ev) = execute_at(db, &args, now, fits);
                match step {
                    Step::Silent => (FrameOutcome::Silent, ev),
                    Step::Abort => (FrameOutcome::Abort, ev),
                    Step::Answer(r) => (FrameOutcome::Resp(r), ev),
                }
            },
            Ok(_) => (FrameOutcome::Silent, Promotion::Stay),
        }
    } else if frame.len() >= 5 {
        match OpCode::from_u8(frame[0]) {
            Some(OpCode::Get) => {
                let addr = read_u32(frame, 1) as usize;
                let (v, ev) = db.get_and_promote_at(addr, now);
                match ev {
                    Promotion::Fault => (FrameOutcome::Abort, ev),
                    _ => (FrameOutcome::Binary(BinaryReply::Result(v), 0), ev),
                }
            },
            _ => match decode_write(frame, 0) {
                Decoded::Cmd(c, n) => {
                    let (v, ev, done) = apply_at(db, c, now, fits);
                    if !done {
                        (FrameOutcome::Abort, ev)
                    } else {
                        match c {
                            Command::Pop { .. } => (FrameOutcome::Binary(BinaryReply::Popped(v), n), ev),
                            _ => (FrameOutcome::Binary(BinaryReply::Done, n), ev),
                        }
                    }
                },
                _ => (FrameOutcome::Silent, Promotion::Stay),
            },
        }
    } else {
        (FrameOutcome::Silent, Promotion::Stay)
    }
}

/// Handles the bytes of one read, as `handle_frame_at` does at the current
/// clock reading, asking the clock whether it can represent the deadline
/// they ask for.
pub fn handle_frame(db: &mut RlapDb, frame: &[u8]) -> (r: (FrameOutcome, Promotion))
    ensures
        exists|now: u128, fits: bool|
            old(db).latest() <= now <= max_duration_nanos() && final(db).latest() == now
                && (frame_deadline(frame@) is None ==> fits)
                && (r.0.model(), final(db)@, r.1) == frame_spec(old(db)@, frame@, now, fits),
{
    let now = db.clock();
    let fits = match asked_deadline(frame) {
        Some(secs) => deadline_fits_now(secs),
        None => true,
    };
    handle_frame_at(db, frame, now, fits)
}

/// Replays the append-only log `log`, reading the clock for each command and
/// asking it whether it can represent the deadline the command asks for.
pub fn replay_log(db: &mut RlapDb, log: &[u8]) -> (r: Replay)
    ensures
        old(db).latest() <= final(db).latest(),
        exists|at: spec_fn(int) -> (u128, bool)|
            (forall|p: int| (#[trigger] at(p)).0 <= max_duration_nanos())
                && final(db)@ == replay_spec(old(db)@, log@, 0, at).0
                && r.promotions@ == replay_spec(old(db)@, log@, 0, at).1
                && r.faulted == replay_spec(old(db)@, log@, 0, at).2,
{
    let mut pos: usize = 0;
    let mut moves: Vec<(usize, usize)> = Vec::new();
    let mut faulted = false;
    let ghost mut at: spec_fn(int) -> (u128, bool) = steady(0, true);
    let ghost start = old(db)@;
    assert forall|at2: spec_fn(int) -> (u128, bool)| agree_before(at2, at, 0) implies ({
        let w = #[trigger] replay_spec(start, log@, 0, at2);
        let x = replay_spec(db@, log@, 0, at2);
        w.0 == x.0 && w.1 == moves@ + x.1 && w.2 == x.2
    }) by {
        let x = replay_spec(db@, log@, 0, at2);
        assert(moves@ + x.1 =~= x.1);
    }
    while pos < log.len()
        invariant_except_break
            !faulted,
            forall|at2: spec_fn(int) -> (u128, bool)| agree_before(at2, at, pos as int) ==> ({
                let w = #[trigger] replay_spec(start, log@, 0, at2);
                let x = replay_spec(db@, log@, pos as int, at2);
                w.0 == x.0 && w.1 == moves@ + x.1 && w.2 == x.2
            }),
        invariant
            pos <= log@.len(),
            start == old(db)@,
            old(db).latest() <= db.latest(),
            forall|p: int| (#[trigger] at(p)).0 <= max_duration_nanos(),
        ensures
            old(db).latest() <= db.latest(),
            forall|p: int| (#[trigger] at(p)).0 <= max_duration_nanos(),
            ({
                let w = replay_spec(start, log@, 0, at);
                db@ == w.0 && moves@ == w.1 && faulted == w.2
            }),
        decreases log@.len() - pos,
    {
        match decode_write(log, pos) {
            Decoded::Cmd(c, n) => {
                let now = db.clock();
                let fits = match c {
                    Command::SetInt { ttl: Some(t), .. } => deadline_fits_now(t),
                    _ => true,
                };
                let ghost before = moves@;
                let ghost d0 = db@;
                let ghost prev = at;
                proof {
                    at = |q: int| if q == pos as int { (now, fits) } else { prev(q) };
                }
                let (_, ev, done) = apply_at(db, c, now, fits);
                if !done {
                    faulted = true;
                    proof {
                        assert(agree_before(at, prev, pos as int));
                        assert(at(pos as int) == (now, fits));
                        assert(moves@ + Seq::<(usize, usize)>::empty() =~= moves@);
                    }
                    break;
                }
                match ev {
                    Promotion::Moved { addr, hot } => {
                        moves.push((addr, hot));
                    },
                    _ => {},
                }
                proof {
                    assert forall|at2: spec_fn(int) -> (u128, bool)| agree_before(at2, at, pos + n) implies ({
                        let w = #[trigger] replay_spec(start, log@, 0, at2);
                        let x = replay_spec(db@, log@, pos + n, at2);
                        w.0 == x.0 && w.1 == moves@ + x.1 && w.2 == x.2
                    }) by {
                        assert(agree_before(at2, prev, pos as int)) by {
                            assert forall|q: int| 0 <= q < pos implies #[trigger] at2(q) == prev(q) by {
                                assert(at2(q) == at(q));
                            }
                        }
                        assert(at2(pos as int) == at(pos as int));
                        let x = replay_spec(db@, log@, pos + n, at2);
                        assert(before + (moves_of(ev) + x.1) =~= moves@ + x.1);
                    }
                }
                pos = pos + n;
            },
            Decoded::Short => {
                assert(moves@ + Seq::<(usize, usize)>::empty() =~= moves@);
                break;
            },
            Decoded::Other => {
                proof {
                    assert forall|at2: spec_fn(int) -> (u128, bool)| agree_before(at2, at, pos + 1) implies ({
                        let w = #[trigger] replay_spec(start, log@, 0, at2);
                        let x = replay_spec(db@, log@, pos + 1, at2);
                        w.0 == x.0 && w.1 == moves@ + x.1 && w.2 == x.2
                    }) by {
                        assert(agree_before(at2, at, pos as int));
                    }
                }
                pos = pos + 1;
            },
        }
    }
    Replay { promotions: moves, faulted }
}

/// What the server appends to the log for a binary write frame replays, at
/// the same clock reading, to exactly the change the frame made to the
/// store, with the same promotion.
pub proof fn lemma_logged_frame_replays(d: DbModel, f: Seq<u8>, now: u128, fits: bool)
    requires
        f.len() >= 5,
        f[0] != 42u8,
        frame_spec(d, f, now, fits).0 matches FrameModel::Binary(_, n) && n > 0,
    ensures
        ({
            let n = frame_spec(d, f, now, fits).0->Binary_1;
            replay_spec(d, f.subrange(0, n), 0, steady(now, fits))
                == (frame_spec(d, f, now, fits).1, moves_of(frame_spec(d, f, now, fits).2), false)
        }),
{
    let n = frame_spec(d, f, now, fits).0->Binary_1;
    let g = f.subrange(0, n);
    if let Decoded::Cmd(c, k) = decode_spec(f, 0) {
        assert(k as int == n);
        assert(g[0] == f[0]);
        assert(forall|i: int| 0 <= i < n ==> g[i] == f[i]);
        assert(decode_spec(g, 0) == decode_spec(f, 0));
        let e = apply_spec(d, c, now, fits).1;
        let ev = apply_event(d, c, now);
        assert(steady(now, fits)(0) == (now, fits));
        assert(replay_spec(e, g, n, steady(now, fits)) == (e, Seq::<(usize, usize)>::empty(), false));
        assert(moves_of(ev) + Seq::<(usize, usize)>::empty() =~= moves_of(ev));
    }
}

/// Over RESP, `GET key` answers what `SET key value` stored (as the value's
/// text reads: an integer, or the text itself), until the value is changed.
pub proof fn lemma_resp_get_after_set(
    d: DbModel,
    name: RespModel,
    key: RespModel,
    value: Seq<u8>,
    t: u128,
    later: u128,
    fits: bool,
)
    requires
        keyed(d),
        t <= later,
    ensures
        ({
            let e = command_spec(d, "SET"@, seq![name, key, RespModel::BulkString(value)], t, fits).1;
            command_spec(e, "GET"@, seq![name, key], later, fits).0 == StepModel::Answer(value_reply(text_value(value)))
        }),
{
    reveal_strlit("SET");
    reveal_strlit("GET");
    reveal_strlit("PING");
    let args = seq![name, key, RespModel::BulkString(value)];
    let addr = arg_addr(key, d);
    let v = text_value(value);
    assert(set_ttl(args) is None);
    let e = d.set_op(addr, v, None, t);
    crate::store::lemma_ops_keep_shape(d, addr, Seq::empty(), v, None, 0, t);
    assert(arg_addr(key, e) == addr);
    assert(0 <= addr < d.slots.len());
    crate::store::lemma_get_after_set(d, addr, v, None, t, later);
    assert(e.touch(addr, later).slots[addr].access_count == 0);
    assert(!(e.read_event(addr, later) is Fault));
    assert("SET"@.len() == 3);
    assert("PING"@.len() == 4);
    assert("SET"@ != "PING"@);
    assert("GET"@ != "PING"@);
    assert("GET"@[0] != "SET"@[0]);
    assert("GET"@ != "SET"@);
    assert(command_spec(d, "SET"@, args, t, fits).1 == e);
    assert(command_spec(e, "GET"@, seq![name, key], later, fits).0 == StepModel::Answer(value_reply(e.get_op(addr, later).0)));
}

proof fn lemma_decode_shift(p: Seq<u8>, q: Seq<u8>, i: int)
    requires
        0 <= i < q.len(),
    ensures
        decode_spec(p + q, p.len() + i) == decode_spec(q, i),
{
    let b = p + q;
    assert forall|j: int| p.len() <= j < b.len() implies #[trigger] b[j] == q[j - p.len()] by {}
    assert(b[p.len() + i] == q[i]);
}

proof fn lemma_decode_prefix(a: Seq<u8>, b: Seq<u8>)
    requires
        a.len() > 0,
        decode_spec(a, 0) matches Decoded::Cmd(_, n) && n <= a.len(),
    ensures
        decode_spec(a + b, 0) == decode_spec(a, 0),
{
    let s = a + b;
    assert forall|k: int| 0 <= k < a.len() implies #[trigger] s[k] == a[k] by {}
    assert(s[0] == a[0]);
}

proof fn lemma_replay_shift(x: DbModel, p: Seq<u8>, q: Seq<u8>, i: int, at: spec_fn(int) -> (u128, bool))
    requires
        0 <= i,
    ensures
        replay_spec(x, p + q, p.len() + i, at) == replay_spec(x, q, i, shifted(at, p.len() as int)),
    decreases q.len() - i,
{
    if i < q.len() {
        lemma_decode_shift(p, q, i);
        assert(shifted(at, p.len() as int)(i) == at(p.len() + i));
        match decode_spec(q, i) {
            Decoded::Cmd(c, n) => {
                if n > 0 {
                    let (now, fits) = at(p.len() + i);
                    lemma_replay_shift(apply_spec(x, c, now, fits).1, p, q, i + n, at);
                }
            },
            Decoded::Other => {
                lemma_replay_shift(x, p, q, i + 1, at);
            },
            Decoded::Short => {},
        }
    }
}

/// Readings `at` seen from `k` bytes further on.
pub open spec fn shifted(at: spec_fn(int) -> (u128, bool), k: int) -> spec_fn(int) -> (u128, bool) {
    |p: int| at(p + k)
}

/// Whether `a` is a sequence of whole write commands, one after another.
pub open spec fn whole_records(a: Seq<u8>) -> bool
    decreases a.len(),
{
    if a.len() == 0 {
        true
    } else {
        match decode_spec(a, 0) {
            Decoded::Cmd(_, n) => 0 < n <= a.len() && whole_records(a.subrange(n as int, a.len() as int)),
            _ => false,
        }
    }
}

/// Replaying `b` with readings `at` after a replay that came to `r`: nothing
/// more happens once a command has stopped short, and the promotions add up.
pub open spec fn then_replay(r: (DbModel, Seq<(usize, usize)>, bool), b: Seq<u8>, at: spec_fn(int) -> (u128, bool)) -> (DbModel, Seq<(usize, usize)>, bool) {
    if r.2 {
        r
    } else {
        let s = replay_spec(r.0, b, 0, at);
        (s.0, r.1 + s.1, s.2)
    }
}

/// Replaying a log that starts with whole write commands `a` is replaying
/// `a` and then replaying the rest of the log into the store that came out,
/// whatever the clock readings of its commands.
#[verifier::spinoff_prover]
#[verifier::rlimit(40)]
pub proof fn lemma_replay_concat(d: DbModel, a: Seq<u8>, b: Seq<u8>, at: spec_fn(int) -> (u128, bool))
    requires
        whole_records(a),
    ensures
        replay_spec(d, a + b, 0, at) == then_replay(replay_spec(d, a, 0, at), b, shifted(at, a.len() as int)),
    decreases a.len(),
{
    if a.len() == 0 {
        assert(a + b =~= b);
        let s = replay_spec(d, b, 0, at);
        assert(shifted(at, 0) =~= at);
        assert(Seq::<(usize, usize)>::empty() + s.1 =~= s.1);
    } else if let Decoded::Cmd(c, n) = decode_spec(a, 0) {
        let k = n as int;
        let a1 = a.subrange(0, k);
        let rest = a.subrange(k, a.len() as int);
        assert(a1 + rest =~= a);
        assert(a1 + (rest + b) =~= a + b);
        lemma_decode_prefix(a, b);
        let (now, fits) = at(0);
        let e = apply_spec(d, c, now, fits).1;
        let ev = apply_event(d, c, now);
        if !apply_halts(d, c, now, fits) {
            let sh = shifted(at, k);
            lemma_replay_shift(e, a1, rest + b, 0, at);
            lemma_replay_shift(e, a1, rest, 0, at);
            lemma_replay_concat(e, rest, b, sh);
            assert(shifted(sh, rest.len() as int) =~= shifted(at, a.len() as int));
            let q = replay_spec(e, rest, 0, sh);
            if !q.2 {
                let t = replay_spec(q.0, b, 0, shifted(at, a.len() as int));
                assert((moves_of(ev) + q.1) + t.1 =~= moves_of(ev) + (q.1 + t.1));
            }
        }
    }
}

/// A replay reads the clock readings of positions inside the log only.
proof fn lemma_replay_readings(d: DbModel, b: Seq<u8>, pos: int, at1: spec_fn(int) -> (u128, bool), at2: spec_fn(int) -> (u128, bool))
    requires
        0 <= pos,
        forall|q: int| pos <= q < b.len() ==> #[trigger] at1(q) == at2(q),
    ensures
        replay_spec(d, b, pos, at1) == replay_spec(d, b, pos, at2),
    decreases b.len() - pos,
{
    if pos < b.len() {
        assert(at1(pos) == at2(pos));
        match decode_spec(b, pos) {
            Decoded::Cmd(c, n) => {
                if n > 0 {
                    let (now, fits) = at1(pos);
                    lemma_replay_readings(apply_spec(d, c, now, fits).1, b, pos + n, at1, at2);
                }
            },
            Decoded::Other => {
                lemma_replay_readings(d, b, pos + 1, at1, at2);
            },
            Decoded::Short => {},
        }
    }
}

/// The readings `first` for the `k` bytes of one log, then `second` for
/// the log that follows it.
pub open spec fn joined(first: spec_fn(int) -> (u128, bool), k: int, second: spec_fn(int) -> (u128, bool)) -> spec_fn(int) -> (u128, bool) {
    |p: int| if p < k { first(p) } else { second(p - k) }
}

/// Loading a log `a` of whole write commands and then a log `b`, with the
/// clock readings each load took, leaves the store, the promotions and the
/// outcome that loading `a + b` with those readings gives.
pub proof fn lemma_load_in_two(d: DbModel, a: Seq<u8>, b: Seq<u8>, first: spec_fn(int) -> (u128, bool), second: spec_fn(int) -> (u128, bool))
    requires
        whole_records(a),
    ensures
        then_replay(replay_spec(d, a, 0, first), b, second) == replay_spec(d, a + b, 0, joined(first, a.len() as int, second)),
{
    let k = a.len() as int;
    let j = joined(first, k, second);
    lemma_replay_concat(d, a, b, j);
    lemma_replay_readings(d, a, 0, first, j);
    let r = replay_spec(d, a, 0, first);
    assert forall|q: int| 0 <= q < b.len() implies #[trigger] shifted(j, k)(q) == second(q) by {}
    lemma_replay_readings(r.0, b, 0, shifted(j, k), second);
}

/// A key's slot is decided by its whole text: its hash is what a fresh
/// `DefaultHasher` finishes with after `str`'s `Hash` impl feeds it every
/// UTF-8 byte of the key and then the byte 0xff, so two keys whose text
/// differs anywhere are hashed from different inputs.
pub proof fn lemma_key_hash_reads_whole_key(k1: Seq<char>, k2: Seq<char>)
    ensures
        key_hash(k1) == DefaultHasher::spec_finish(seq![encode_utf8(k1), seq![0xffu8]]),
        k1 != k2 ==> seq![encode_utf8(k1), seq![0xffu8]] != seq![encode_utf8(k2), seq![0xffu8]],
{
    if k1 != k2 && seq![encode_utf8(k1), seq![0xffu8]] == seq![encode_utf8(k2), seq![0xffu8]] {
        assert(seq![encode_utf8(k1), seq![0xffu8]][0] == seq![encode_utf8(k2), seq![0xffu8]][0]);
        vstd::utf8::encode_utf8_decode_utf8(k1);
        vstd::utf8::encode_utf8_decode_utf8(k2);
    }
}

/// The answer to a read carries the value's text so that it reads back as
/// the value: an integer's bulk string parses (as `str::parse::<i64>` does)
/// to that integer, negative ones included; a string's bulk string decodes
/// to that string; the empty value is answered with the nil bulk string.
/// The same holds of each field value in `HGETALL`.
pub proof fn lemma_replies_read_back(v: ValueModel)
    ensures
        v matches ValueModel::Integer(i) ==> (value_reply(v) matches ReplyModel::Resp(RespModel::BulkString(b))
            && i64_text_value(b) == Some(i)),
        v matches ValueModel::Integer(i) ==> (field_value_reply(v) matches RespModel::BulkString(b)
            && i64_text_value(b) == Some(i)),
        v matches ValueModel::LongStr(t) ==> (value_reply(v) matches ReplyModel::Resp(RespModel::BulkString(b))
            && valid_utf8(b) && decode_utf8(b) == t),
        v matches ValueModel::LongStr(t) ==> (field_value_reply(v) matches RespModel::BulkString(b)
            && valid_utf8(b) && decode_utf8(b) == t),
        v is Empty ==> value_reply(v) == ReplyModel::Resp(RespModel::Nil),
{
    match v {
        ValueModel::Integer(i) => {
            crate::decimal::lemma_i64_decimal_roundtrip(i);
        },
        ValueModel::LongStr(t) => {
            encode_utf8_valid_utf8(t);
            encode_utf8_decode_utf8(t);
        },
        _ => {},
    }
}

} // verus!
