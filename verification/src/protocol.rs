//! Opcodes of the binary protocol and the RESP values of the text protocol:
//! their wire encoding and their parser.

use vstd::prelude::*;
use vstd::utf8::{decode_utf8, encode_utf8, encode_utf8_decode_utf8, encode_utf8_valid_utf8, valid_utf8};
use crate::decimal::{decimal, lemma_digits_of_shape, lemma_i64_decimal_roundtrip, lemma_isize_decimal_roundtrip, i64_text_value, isize_text_value, parse_i64, parse_isize, push_decimal_i64, push_decimal_usize};

verus! {

/// Operation codes of the binary protocol; each has a one-byte wire code.
#[derive(Debug, Clone, Copy, PartialEq, Eq, Structural)]
pub enum OpCode {
    Push,
    Get,
    SetValue,
    Calc,
    Migrate,
    Del,
    Sync,
    Ret,
    LPush,
    LPop,
    HSet,
    Halt,
}

/// The wire byte of each opcode.
pub open spec fn opcode_byte(op: OpCode) -> u8 {
    match op {
        OpCode::Push => 0x01,
        OpCode::Get => 0x02,
        OpCode::SetValue => 0x03,
        OpCode::Calc => 0x04,
        OpCode::Migrate => 0x05,
        OpCode::Del => 0x06,
        OpCode::Sync => 0x07,
        OpCode::Ret => 0x08,
        OpCode::LPush => 0x09,
        OpCode::LPop => 0x0a,
        OpCode::HSet => 0x0b,
        OpCode::Halt => 0xff,
    }
}

/// The opcode whose wire byte is `b`, if any.
pub open spec fn opcode_of(b: u8) -> Option<OpCode> {
    if b == 0x01 {
        Some(OpCode::Push)
    } else if b == 0x02 {
        Some(OpCode::Get)
    } else if b == 0x03 {
        Some(OpCode::SetValue)
    } else if b == 0x04 {
        Some(OpCode::Calc)
    } else if b == 0x05 {
        Some(OpCode::Migrate)
    } else if b == 0x06 {
        Some(OpCode::Del)
    } else if b == 0x07 {
        Some(OpCode::Sync)
    } else if b == 0x08 {
        Some(OpCode::Ret)
    } else if b == 0x09 {
        Some(OpCode::LPush)
    } else if b == 0x0a {
        Some(OpCode::LPop)
    } else if b == 0x0b {
        Some(OpCode::HSet)
    } else if b == 0xff {
        Some(OpCode::Halt)
    } else {
        None
    }
}

impl OpCode {
    /// Decodes a wire byte.
    pub fn from_u8(b: u8) -> (r: Option<Self>)
        ensures
            r == opcode_of(b),
    {
        match b {
            0x01 => Some(OpCode::Push),
            0x02 => Some(OpCode::Get),
            0x03 => Some(OpCode::SetValue),
            0x04 => Some(OpCode::Calc),
            0x05 => Some(OpCode::Migrate),
            0x06 => Some(OpCode::Del),
            0x07 => Some(OpCode::Sync),
            0x08 => Some(OpCode::Ret),
            0x09 => Some(OpCode::LPush),
            0x0a => Some(OpCode::LPop),
            0x0b => Some(OpCode::HSet),
            0xff => Some(OpCode::Halt),
            _ => None,
        }
    }

    /// The wire byte of this opcode.
    pub fn code(&self) -> (b: u8)
        ensures
            b == opcode_byte(*self),
    {
        match self {
            OpCode::Push => 0x01,
            OpCode::Get => 0x02,
            OpCode::SetValue => 0x03,
            OpCode::Calc => 0x04,
            OpCode::Migrate => 0x05,
            OpCode::Del => 0x06,
            OpCode::Sync => 0x07,
            OpCode::Ret => 0x08,
            OpCode::LPush => 0x09,
            OpCode::LPop => 0x0a,
            OpCode::HSet => 0x0b,
            OpCode::Halt => 0xff,
        }
    }
}

/// Decoding a wire byte and encoding an opcode are inverse to each other.
pub proof fn lemma_opcode_roundtrip(op: OpCode, b: u8)
    ensures
        opcode_of(opcode_byte(op)) == Some(op),
        opcode_of(b) == Some(op) <==> opcode_byte(op) == b,
{
}

/// Arithmetic sub-operations of the `Calc` opcode.
#[derive(Debug, Clone, Copy, PartialEq, Eq, Structural)]
pub enum CalcOp {
    Add,
    Sub,
    Max,
    Min,
}

impl CalcOp {
    /// The wire byte of this sub-operation.
    pub fn code(&self) -> (b: u8)
        ensures
            b == (match *self {
                CalcOp::Add => 0x01u8,
                CalcOp::Sub => 0x02u8,
                CalcOp::Max => 0x03u8,
                CalcOp::Min => 0x04u8,
            }),
    {
        match self {
            CalcOp::Add => 0x01,
            CalcOp::Sub => 0x02,
            CalcOp::Max => 0x03,
            CalcOp::Min => 0x04,
        }
    }
}

/// A value of the RESP text protocol.
#[derive(Debug, PartialEq)]
pub enum RespValue {
    SimpleString(String),
    Error(String),
    Integer(i64),
    BulkString(Vec<u8>),
    Array(Vec<RespValue>),
    Nil,
}

/// The mathematical content of a RESP value.
pub enum RespModel {
    SimpleString(Seq<char>),
    Error(Seq<char>),
    Integer(i64),
    BulkString(Seq<u8>),
    Array(Seq<RespModel>),
    Nil,
}

impl RespValue {
    /// The content of this value.
    pub open spec fn model(self) -> RespModel
        decreases self,
    {
        match self {
            RespValue::SimpleString(s) => RespModel::SimpleString(s@),
            RespValue::Error(s) => RespModel::Error(s@),
            RespValue::Integer(i) => RespModel::Integer(i),
            RespValue::BulkString(b) => RespModel::BulkString(b@),
            RespValue::Array(a) => RespModel::Array(
                Seq::new(a@.len(), |i: int| if 0 <= i < a@.len() { a@[i].model() } else { RespModel::Nil }),
            ),
            RespValue::Nil => RespModel::Nil,
        }
    }
}

impl RespValue {
    /// A value with the same content.
    pub fn duplicate(&self) -> (r: RespValue)
        ensures
            r.model() == self.model(),
        decreases self,
    {
        match self {
            RespValue::SimpleString(t) => RespValue::SimpleString(t.clone()),
            RespValue::Error(t) => RespValue::Error(t.clone()),
            RespValue::Integer(i) => RespValue::Integer(*i),
            RespValue::BulkString(b) => RespValue::BulkString(b.clone()),
            RespValue::Array(a) => {
                let mut out: Vec<RespValue> = Vec::new();
                let mut i: usize = 0;
                while i < a.len()
                    invariant
                        i <= a@.len(),
                        *self == RespValue::Array(*a),
                        out@.len() == i,
                        forall|k: int| 0 <= k < i ==> #[trigger] out@[k].model() == a@[k].model(),
                    decreases a@.len() - i,
                {
                    proof {
                        vstd::std_specs::vec::axiom_vec_index_decreases(*a, i as int);
                        assert(decreases_to!(*self => (*self)->Array_0));
                    }
                    let item = a[i].duplicate();
                    out.push(item);
                    i = i + 1;
                }
                let ghost o = out@;
                let r = RespValue::Array(out);
                proof {
                    if let (RespModel::Array(x), RespModel::Array(y)) = (r.model(), self.model()) {
                        assert forall|k: int| 0 <= k < x.len() implies x[k] == y[k] by {
                            assert(x[k] == o[k].model());
                            assert(y[k] == a@[k].model());
                        }
                        assert(x =~= y);
                    }
                }
                r
            },
            RespValue::Nil => RespValue::Nil,
        }
    }
}

impl Clone for RespValue {
    /// A value with the same content.
    fn clone(&self) -> (r: Self)
        ensures
            r.model() == self.model(),
    {
        self.duplicate()
    }
}

/// The bytes `\r\n`.
pub open spec fn crlf() -> Seq<u8> {
    seq![13u8, 10u8]
}

/// The wire encoding of a RESP value.
pub open spec fn encode(m: RespModel) -> Seq<u8>
    decreases m,
{
    match m {
        RespModel::SimpleString(s) => seq![43u8] + encode_utf8(s) + crlf(),
        RespModel::Error(s) => seq![45u8] + encode_utf8(s) + crlf(),
        RespModel::Integer(i) => seq![58u8] + decimal(i as int) + crlf(),
        RespModel::BulkString(b) => seq![36u8] + decimal(b.len() as int) + crlf() + b + crlf(),
        RespModel::Array(items) => seq![42u8] + decimal(items.len() as int) + crlf() + encode_all(items),
        RespModel::Nil => seq![36u8, 45u8, 49u8, 13u8, 10u8],
    }
}

/// The wire encodings of several values, one after the other.
pub open spec fn encode_all(items: Seq<RespModel>) -> Seq<u8>
    decreases items,
{
    if items.len() == 0 {
        Seq::empty()
    } else {
        encode(items[0]) + encode_all(items.subrange(1, items.len() as int))
    }
}

/// Encoding several values one after another extends by the encoding of the last.
pub proof fn lemma_encode_all_push(items: Seq<RespModel>, m: RespModel)
    ensures
        encode_all(items.push(m)) == encode_all(items) + encode(m),
    decreases items.len(),
{
    let s = items.push(m);
    if items.len() == 0 {
        assert(s.subrange(1, s.len() as int) =~= Seq::<RespModel>::empty());
        assert(encode_all(Seq::<RespModel>::empty()) == Seq::<u8>::empty());
        assert(encode_all(s) =~= encode(m));
    } else {
        let rest = items.subrange(1, items.len() as int);
        lemma_encode_all_push(rest, m);
        assert(s.subrange(1, s.len() as int) =~= rest.push(m));
        assert(encode_all(s) =~= encode(items[0]) + (encode_all(rest) + encode(m)));
    }
}

/// Appends `src` to `out`.
pub(crate) fn append_bytes(out: &mut Vec<u8>, src: &[u8])
    ensures
        final(out)@ == old(out)@ + src@,
{
    let mut i: usize = 0;
    while i < src.len()
        invariant
            i <= src@.len(),
            out@ == old(out)@ + src@.subrange(0, i as int),
        decreases src@.len() - i,
    {
        out.push(src[i]);
        i = i + 1;
        assert(out@ =~= old(out)@ + src@.subrange(0, i as int));
    }
    assert(src@.subrange(0, src@.len() as int) =~= src@);
}

/// Appends `\r\n` to `out`.
fn push_crlf(out: &mut Vec<u8>)
    ensures
        final(out)@ == old(out)@ + crlf(),
{
    out.push(13u8);
    out.push(10u8);
    assert(out@ =~= old(out)@ + crlf());
}

impl RespValue {
    /// The wire encoding of this value.
    pub fn to_bytes(&self) -> (r: Vec<u8>)
        ensures
            r@ == encode(self.model()),
    {
        let mut res: Vec<u8> = Vec::new();
        self.write_to(&mut res);
        assert(res@ =~= encode(self.model()));
        res
    }

    /// Appends the wire encoding of this value to `out`.
    fn write_to(&self, out: &mut Vec<u8>)
        ensures
            final(out)@ == old(out)@ + encode(self.model()),
        decreases self,
    {
        match self {
            RespValue::SimpleString(s) => {
                out.push(43u8);
                append_bytes(out, s.as_str().as_bytes());
                push_crlf(out);
                assert(out@ =~= old(out)@ + encode(self.model()));
            },
            RespValue::Error(s) => {
                out.push(45u8);
                append_bytes(out, s.as_str().as_bytes());
                push_crlf(out);
                assert(out@ =~= old(out)@ + encode(self.model()));
            },
            RespValue::Integer(i) => {
                out.push(58u8);
                push_decimal_i64(out, *i);
                push_crlf(out);
                assert(out@ =~= old(out)@ + encode(self.model()));
            },
            RespValue::BulkString(b) => {
                out.push(36u8);
                push_decimal_usize(out, b.len());
                push_crlf(out);
                append_bytes(out, b.as_slice());
                push_crlf(out);
                assert(out@ =~= old(out)@ + encode(self.model()));
            },
            RespValue::Array(a) => {
                out.push(42u8);
                push_decimal_usize(out, a.len());
                push_crlf(out);
                let ghost head = out@;
                let ghost ms = match self.model() {
                    RespModel::Array(x) => x,
                    _ => Seq::empty(),
                };
                let mut i: usize = 0;
                assert(ms.subrange(0, 0) =~= Seq::<RespModel>::empty());
                assert(head =~= head + encode_all(ms.subrange(0, 0)));
                while i < a.len()
                    invariant
                        i <= a@.len(),
                        *self == RespValue::Array(*a),
                        ms.len() == a@.len(),
                        forall|k: int| 0 <= k < a@.len() ==> #[trigger] ms[k] == a@[k].model(),
                        out@ == head + encode_all(ms.subrange(0, i as int)),
                    decreases a@.len() - i,
                {
                    proof {
                        vstd::std_specs::vec::axiom_vec_index_decreases(*a, i as int);
                        assert(decreases_to!(*self => (*self)->Array_0));
                        assert((*self)->Array_0 == *a);
                        assert(decreases_to!(*a => a[i as int]));
                        assert(decreases_to!(*self => a[i as int]));
                    }
                    a[i].write_to(out);
                    proof {
                        lemma_encode_all_push(ms.subrange(0, i as int), ms[i as int]);
                        assert(ms.subrange(0, i as int).push(ms[i as int]) =~= ms.subrange(0, i + 1));
                    }
                    i = i + 1;
                }
                assert(ms.subrange(0, i as int) =~= ms);
                assert(out@ =~= old(out)@ + encode(self.model()));
            },
            RespValue::Nil => {
                out.push(36u8);
                out.push(45u8);
                out.push(49u8);
                push_crlf(out);
                assert(out@ =~= old(out)@ + encode(self.model()));
            },
        }
    }
}

/// Names the text that `String::from_utf8_lossy` makes of some bytes.
pub uninterp spec fn utf8_lossy(bytes: Seq<u8>) -> Seq<char>;

/// Calls `String::from_utf8_lossy` and takes ownership of its result. The
/// contract names the result, and states what the standard library documents:
/// valid UTF-8 is decoded unchanged. What replaces invalid sequences is left to
/// the name.
#[verifier::external_body]
pub(crate) fn lossy_string(bytes: &[u8]) -> (s: String)
    ensures
        s@ == utf8_lossy(bytes@),
        valid_utf8(bytes@) ==> s@ == decode_utf8(bytes@),
{
    String::from_utf8_lossy(bytes).into_owned()
}

/// The text of some bytes: decoded when they are valid UTF-8, otherwise what
/// the lossy conversion makes of them.
pub open spec fn lossy_text(line: Seq<u8>) -> Seq<char> {
    if valid_utf8(line) {
        decode_utf8(line)
    } else {
        utf8_lossy(line)
    }
}

/// Index of the first `\r\n` in `s` that starts at or after `i`.
pub open spec fn crlf_from(s: Seq<u8>, i: int) -> Option<int>
    decreases s.len() - i,
{
    if i < 0 || i + 1 >= s.len() {
        None
    } else if s[i] == 13u8 && s[i + 1] == 10u8 {
        Some(i)
    } else {
        crlf_from(s, i + 1)
    }
}

/// Index of the first `\r\n` in `s`.
pub open spec fn line_end(s: Seq<u8>) -> Option<int> {
    crlf_from(s, 0)
}

/// Finds the first line of `buf`: the bytes before its first `\r\n`, and the
/// number of bytes up to and including that `\r\n`.
pub fn read_line(buf: &[u8]) -> (r: Option<(&[u8], usize)>)
    ensures
        match r {
            Some((line, n)) => 2 <= n <= buf@.len() && line_end(buf@) == Some(n - 2) && line@ == buf@.subrange(0, n - 2),
            None => line_end(buf@) is None,
        },
{
    match find_crlf(buf, 0) {
        Some(i) => Some((&buf[0..i], i + 2)),
        None => None,
    }
}

/// Index of the first `\r\n` in `buf` at or after `from`.
fn find_crlf(buf: &[u8], from: usize) -> (r: Option<usize>)
    requires
        from <= buf@.len(),
    ensures
        match r {
            Some(i) => crlf_from(buf@, from as int) == Some(i as int) && from <= i && i + 2 <= buf.len(),
            None => crlf_from(buf@, from as int) is None,
        },
{
    let mut i: usize = from;
    while i < buf.len() && i + 1 < buf.len()
        invariant
            from <= i <= buf@.len(),
            crlf_from(buf@, from as int) == crlf_from(buf@, i as int),
        decreases buf@.len() - i,
    {
        if buf[i] == 13u8 && buf[i + 1] == 10u8 {
            return Some(i);
        }
        i = i + 1;
    }
    None
}

/// What the parser makes of a buffer: a value and the number of bytes it
/// spans, no value, or a length field below -1 (a length no buffer can
/// hold, which ends the connection).
pub enum RespParse {
    Complete(RespModel, int),
    Rejected,
    NegativeLength,
}

/// The parse of the RESP value at the start of `s`.
pub open spec fn parse_spec(s: Seq<u8>) -> RespParse
    decreases s.len(), 0nat,
{
    if s.len() == 0 {
        RespParse::Rejected
    } else {
        let tag = s[0];
        let body = s.subrange(1, s.len() as int);
        if !(tag == 43u8 || tag == 45u8 || tag == 58u8 || tag == 36u8 || tag == 42u8) {
            RespParse::Rejected
        } else {
            match line_end(body) {
                None => RespParse::Rejected,
                Some(i) => if !(0 <= i && i + 3 <= s.len()) {
                    RespParse::Rejected
                } else {
                    let line = body.subrange(0, i);
                    let n = i + 3;
                    if tag == 43u8 {
                        RespParse::Complete(RespModel::SimpleString(lossy_text(line)), n)
                    } else if tag == 45u8 {
                        RespParse::Complete(RespModel::Error(lossy_text(line)), n)
                    } else if tag == 58u8 {
                        match i64_text_value(line) {
                            Some(v) => RespParse::Complete(RespModel::Integer(v), n),
                            None => RespParse::Rejected,
                        }
                    } else if tag == 36u8 {
                        match isize_text_value(line) {
                            None => RespParse::Rejected,
                            Some(size) => if size == -1 {
                                RespParse::Complete(RespModel::Nil, n)
                            } else if size < -1 {
                                RespParse::NegativeLength
                            } else if s.len() < n + size + 2 {
                                RespParse::Rejected
                            } else {
                                RespParse::Complete(
                                    RespModel::BulkString(s.subrange(n, n + size)),
                                    n + size + 2,
                                )
                            },
                        }
                    } else {
                        match isize_text_value(line) {
                            None => RespParse::Rejected,
                            Some(count) => if count == -1 {
                                RespParse::Complete(RespModel::Nil, n)
                            } else if count < -1 {
                                RespParse::NegativeLength
                            } else {
                                match parse_items(s.subrange(n, s.len() as int), count as nat) {
                                    RespParse::Complete(m, k) => RespParse::Complete(m, n + k),
                                    other => other,
                                }
                            },
                        }
                    }
                },
            }
        }
    }
}

/// The parse of `count` RESP values, one after another, at the start of `t`,
/// gathered in an array.
pub open spec fn parse_items(t: Seq<u8>, count: nat) -> RespParse
    decreases t.len(), count + 1,
{
    if count == 0 {
        RespParse::Complete(RespModel::Array(Seq::empty()), 0)
    } else {
        match parse_spec(t) {
            RespParse::Complete(m, k) => if !(0 < k <= t.len()) {
                RespParse::Rejected
            } else {
                prepend_item(m, k, parse_items(t.subrange(k, t.len() as int), (count - 1) as nat))
            },
            other => other,
        }
    }
}

/// Puts `ms` (spanning `off` bytes) in front of the array that `r` parsed.
pub open spec fn prepend_items(ms: Seq<RespModel>, off: int, r: RespParse) -> RespParse {
    match r {
        RespParse::Complete(RespModel::Array(rest), k) => RespParse::Complete(RespModel::Array(ms + rest), off + k),
        other => other,
    }
}

/// Puts `m` (spanning `off` bytes) in front of the array that `r` parsed.
pub open spec fn prepend_item(m: RespModel, off: int, r: RespParse) -> RespParse {
    prepend_items(seq![m], off, r)
}

/// A parsed value spans at least one byte and no more than the buffer.
pub proof fn lemma_parse_span(s: Seq<u8>)
    ensures
        parse_spec(s) matches RespParse::Complete(_, k) ==> 0 < k <= s.len(),
    decreases s.len(), 0nat,
{
    if s.len() > 0 {
        let body = s.subrange(1, s.len() as int);
        if let Some(i) = line_end(body) {
            if 0 <= i && i + 3 <= s.len() && s[0] == 42u8 {
                let n = i + 3;
                if let Some(count) = isize_text_value(body.subrange(0, i)) {
                    if count >= 0 {
                        lemma_items_span(s.subrange(n, s.len() as int), count as nat);
                    }
                }
            }
        }
    }
}

/// Parsed items span no more than the buffer.
pub proof fn lemma_items_span(t: Seq<u8>, count: nat)
    ensures
        parse_items(t, count) matches RespParse::Complete(m, k) ==> 0 <= k <= t.len() && m is Array,
    decreases t.len(), count + 1,
{
    if count > 0 {
        lemma_parse_span(t);
        if let RespParse::Complete(m, k) = parse_spec(t) {
            if 0 < k <= t.len() {
                lemma_items_span(t.subrange(k, t.len() as int), (count - 1) as nat);
            }
        }
    }
}

/// Whether buffers `a` and `b` both hold at least `k` bytes and agree on
/// the first `k`.
pub open spec fn same_prefix(a: Seq<u8>, b: Seq<u8>, k: int) -> bool {
    &&& 0 <= k <= a.len()
    &&& k <= b.len()
    &&& forall|j: int| 0 <= j < k ==> #[trigger] a[j] == b[j]
}

proof fn lemma_crlf_from_bounds(a: Seq<u8>, j: int)
    ensures
        crlf_from(a, j) matches Some(i) ==> j <= i && i + 1 < a.len(),
    decreases a.len() - j,
{
    if !(j < 0 || j + 1 >= a.len()) && !(a[j] == 13u8 && a[j + 1] == 10u8) {
        lemma_crlf_from_bounds(a, j + 1);
    }
}

proof fn lemma_crlf_prefix(a: Seq<u8>, b: Seq<u8>, j: int, i: int)
    requires
        0 <= j,
        crlf_from(a, j) == Some(i),
        same_prefix(a, b, i + 2),
    ensures
        crlf_from(b, j) == Some(i),
    decreases a.len() - j,
{
    lemma_crlf_from_bounds(a, j);
    assert(a[j] == b[j] && a[j + 1] == b[j + 1]);
    if !(a[j] == 13u8 && a[j + 1] == 10u8) {
        lemma_crlf_prefix(a, b, j + 1, i);
    }
}

/// A parse depends only on the bytes it consumes: a buffer that starts with
/// the same bytes parses to the same value and length.
pub proof fn lemma_parse_prefix(s: Seq<u8>, t: Seq<u8>)
    requires
        parse_spec(s) matches RespParse::Complete(_, k) && same_prefix(s, t, k),
    ensures
        parse_spec(t) == parse_spec(s),
    decreases s.len(), 0nat,
{
    let k = parse_spec(s)->Complete_1;
    lemma_parse_span(s);
    assert(s[0] == t[0]);
    let bs = s.subrange(1, s.len() as int);
    let bt = t.subrange(1, t.len() as int);
    let i = line_end(bs)->Some_0;
    let n = i + 3;
    let tag = s[0];
    if tag == 42u8 {
        if let Some(count) = isize_text_value(bs.subrange(0, i)) {
            if count >= 0 {
                lemma_items_span(s.subrange(n, s.len() as int), count as nat);
            }
        }
    }
    assert(n <= k);
    assert(same_prefix(bs, bt, i + 2)) by {
        assert forall|j: int| 0 <= j < i + 2 implies #[trigger] bs[j] == bt[j] by {
            assert(s[j + 1] == t[j + 1]);
        }
    }
    lemma_crlf_prefix(bs, bt, 0, i);
    assert(bt.subrange(0, i) =~= bs.subrange(0, i)) by {
        assert forall|j: int| 0 <= j < i implies #[trigger] bt.subrange(0, i)[j] == bs.subrange(0, i)[j] by {
            assert(bs[j] == bt[j]);
        }
    }
    if tag == 36u8 {
        if let Some(size) = isize_text_value(bs.subrange(0, i)) {
            if size >= 0 {
                assert(t.subrange(n, n + size) =~= s.subrange(n, n + size)) by {
                    assert forall|j: int| 0 <= j < size implies #[trigger] t.subrange(n, n + size)[j] == s.subrange(n, n + size)[j] by {
                        assert(s[n + j] == t[n + j]);
                    }
                }
            }
        }
    }
    if tag == 42u8 {
        if let Some(count) = isize_text_value(bs.subrange(0, i)) {
            if count >= 0 {
                let us = s.subrange(n, s.len() as int);
                let ut = t.subrange(n, t.len() as int);
                let kk = parse_items(us, count as nat)->Complete_1;
                assert(same_prefix(us, ut, kk)) by {
                    assert forall|j: int| 0 <= j < kk implies #[trigger] us[j] == ut[j] by {
                        assert(s[n + j] == t[n + j]);
                    }
                }
                lemma_items_prefix(us, ut, count as nat);
            }
        }
    }
}

/// Items parsed one after another depend only on the bytes they consume.
proof fn lemma_items_prefix(u: Seq<u8>, v: Seq<u8>, count: nat)
    requires
        parse_items(u, count) matches RespParse::Complete(_, k) && same_prefix(u, v, k),
    ensures
        parse_items(v, count) == parse_items(u, count),
    decreases u.len(), count + 1,
{
    if count > 0 {
        let k = parse_items(u, count)->Complete_1;
        lemma_parse_span(u);
        let k1 = parse_spec(u)->Complete_1;
        let ru = u.subrange(k1, u.len() as int);
        let rv = v.subrange(k1, v.len() as int);
        lemma_items_span(ru, (count - 1) as nat);
        let k2 = parse_items(ru, (count - 1) as nat)->Complete_1;
        assert(k == k1 + k2);
        lemma_parse_prefix(u, v);
        assert(same_prefix(ru, rv, k2)) by {
            assert forall|j: int| 0 <= j < k2 implies #[trigger] ru[j] == rv[j] by {
                assert(u[k1 + j] == v[k1 + j]);
            }
        }
        lemma_items_prefix(ru, rv, (count - 1) as nat);
    }
}

/// The fault that makes a request unparseable for good: a bulk-string
/// length or array count below -1.
#[derive(Debug, Clone, Copy, PartialEq, Eq, Structural)]
pub enum ParseFault {
    NegativeLength,
}

/// Whether an executable parse result agrees with the parse of the spec.
pub open spec fn parse_agrees(r: Result<Option<(RespValue, usize)>, ParseFault>, p: RespParse) -> bool {
    match r {
        Ok(Some((v, n))) => p == RespParse::Complete(v.model(), n as int),
        Ok(None) => p is Rejected,
        Err(_) => p is NegativeLength,
    }
}

/// Putting one item in front and then more in front is putting both in front.
proof fn lemma_prepend_push(ms: Seq<RespModel>, off: int, m: RespModel, k: int, r: RespParse)
    ensures
        prepend_items(ms, off, prepend_item(m, k, r)) == prepend_items(ms.push(m), off + k, r),
{
    if let RespParse::Complete(RespModel::Array(rest), j) = r {
        assert(ms + (seq![m] + rest) =~= ms.push(m) + rest);
    }
}

impl RespValue {
    /// Parses the RESP value at the start of `buf`, returning it and the number
    /// of bytes it spans, `Ok(None)` when the bytes hold no complete value, and
    /// `Err` where a length below -1 appears.
    pub fn try_parse(buf: &[u8]) -> (r: Result<Option<(Self, usize)>, ParseFault>)
        ensures
            parse_agrees(r, parse_spec(buf@)),
        decreases buf@.len(),
    {
        if buf.len() == 0 {
            return Ok(None);
        }
        let tag = buf[0];
        if !(tag == 43u8 || tag == 45u8 || tag == 58u8 || tag == 36u8 || tag == 42u8) {
            return Ok(None);
        }
        let body = &buf[1..buf.len()];
        assert(body@ =~= buf@.subrange(1, buf@.len() as int));
        let (line, len) = match read_line(body) {
            Some(x) => x,
            None => {
                return Ok(None);
            },
        };
        let ghost i = len - 2;
        assert(line@ =~= body@.subrange(0, i));
        let n = len + 1;
        if tag == 43u8 {
            let text = lossy_string(line);
            return Ok(Some((RespValue::SimpleString(text), n)));
        }
        if tag == 45u8 {
            let text = lossy_string(line);
            return Ok(Some((RespValue::Error(text), n)));
        }
        if tag == 58u8 {
            return match parse_i64(line) {
                Some(v) => Ok(Some((RespValue::Integer(v), n))),
                None => Ok(None),
            };
        }
        let size = match parse_isize(line) {
            Some(v) => v,
            None => {
                return Ok(None);
            },
        };
        if size == -1 {
            return Ok(Some((RespValue::Nil, n)));
        }
        if size < -1 {
            return Err(ParseFault::NegativeLength);
        }
        let size = size as usize;
        if tag == 36u8 {
            if buf.len() - n < 2 || size > buf.len() - n - 2 {
                return Ok(None);
            }
            let mut data: Vec<u8> = Vec::new();
            append_bytes(&mut data, &buf[n..n + size]);
            assert(data@ =~= buf@.subrange(n as int, n + size));
            return Ok(Some((RespValue::BulkString(data), n + size + 2)));
        }
        let ghost c = size as nat;
        let ghost t0 = buf@.subrange(n as int, buf@.len() as int);
        let ghost ms: Seq<RespModel> = Seq::empty();
        let mut items: Vec<RespValue> = Vec::new();
        let mut pos: usize = n;
        let mut j: usize = 0;
        assert(buf@.subrange(pos as int, buf@.len() as int) =~= t0);
        assert(prepend_items(ms, 0, parse_items(t0, c)) == parse_items(t0, c)) by {
            lemma_items_span(t0, c);
            if let RespParse::Complete(RespModel::Array(rest), k) = parse_items(t0, c) {
                assert(ms + rest =~= rest);
            }
        }
        while j < size
            invariant
                0 < n <= pos <= buf@.len(),
                j <= size,
                c == size as nat,
                t0 == buf@.subrange(n as int, buf@.len() as int),
                parse_spec(buf@) == (match parse_items(t0, c) {
                    RespParse::Complete(m, k) => RespParse::Complete(m, n + k),
                    other => other,
                }),
                prepend_items(ms, pos - n, parse_items(buf@.subrange(pos as int, buf@.len() as int), (c - j) as nat))
                    == parse_items(t0, c),
                ms.len() == items@.len(),
                forall|k: int| 0 <= k < items@.len() ==> #[trigger] items@[k].model() == ms[k],
            decreases size - j,
        {
            let sub = &buf[pos..buf.len()];
            let ghost u = sub@;
            proof {
                lemma_parse_span(u);
            }
            match Self::try_parse(sub) {
                Ok(Some((item, item_len))) => {
                    let ghost m = item.model();
                    proof {
                        assert(u.subrange(item_len as int, u.len() as int)
                            =~= buf@.subrange(pos + item_len, buf@.len() as int));
                        lemma_prepend_push(ms, pos - n, m, item_len as int,
                            parse_items(u.subrange(item_len as int, u.len() as int), (c - j - 1) as nat));
                        ms = ms.push(m);
                    }
                    items.push(item);
                    pos = pos + item_len;
                },
                Ok(None) => {
                    assert(parse_items(u, (c - j) as nat) is Rejected);
                    return Ok(None);
                },
                Err(e) => {
                    assert(parse_items(u, (c - j) as nat) is NegativeLength);
                    return Err(e);
                },
            }
            j = j + 1;
        }
        assert(ms + Seq::<RespModel>::empty() =~= ms);
        let ghost v = items@;
        let r = RespValue::Array(items);
        assert(r.model() == RespModel::Array(ms)) by {
            if let RespModel::Array(x) = r.model() {
                assert(x.len() == ms.len());
                assert forall|k: int| 0 <= k < x.len() implies x[k] == ms[k] by {
                    assert(x[k] == v[k].model());
                }
                assert(x =~= ms);
            }
        }
        Ok(Some((r, pos)))
    }

    /// Parses the RESP value at the start of `buf` and the number of bytes it
    /// spans, or `None` when the bytes hold no complete value.
    pub fn parse(buf: &[u8]) -> (r: Option<(Self, usize)>)
        requires
            !(parse_spec(buf@) is NegativeLength),
        ensures
            match r {
                Some((v, n)) => parse_spec(buf@) == RespParse::Complete(v.model(), n as int),
                None => parse_spec(buf@) is Rejected,
            },
    {
        match Self::try_parse(buf) {
            Ok(r) => r,
            Err(_) => None,
        }
    }
}

/// A value whose encoding the parser reads back unchanged: simple strings and
/// errors hold no `\r\n`, and lengths fit in an `isize`.
pub open spec fn wire_safe(m: RespModel) -> bool
    decreases m,
{
    match m {
        RespModel::SimpleString(s) => line_end(encode_utf8(s)) is None,
        RespModel::Error(s) => line_end(encode_utf8(s)) is None,
        RespModel::BulkString(b) => b.len() <= isize::MAX,
        RespModel::Array(items) => items.len() <= isize::MAX && all_wire_safe(items),
        _ => true,
    }
}

/// Every one of `items` is wire safe.
pub open spec fn all_wire_safe(items: Seq<RespModel>) -> bool
    decreases items,
{
    items.len() == 0 || (wire_safe(items[0]) && all_wire_safe(items.subrange(1, items.len() as int)))
}

proof fn lemma_crlf_after(x: Seq<u8>, rest: Seq<u8>, i: int)
    requires
        0 <= i <= x.len(),
        crlf_from(x, i) is None,
    ensures
        crlf_from(x + crlf() + rest, i) == Some(x.len() as int),
    decreases x.len() - i,
{
    let s = x + crlf() + rest;
    if i < x.len() {
        assert(s[i] == x[i]);
        if i + 1 < x.len() {
            assert(s[i + 1] == x[i + 1]);
        } else {
            assert(s[i + 1] == 13u8);
        }
        lemma_crlf_after(x, rest, i + 1);
    } else {
        assert(s[i] == 13u8);
        assert(s[i + 1] == 10u8);
    }
}

proof fn lemma_no_cr_no_crlf(x: Seq<u8>, i: int)
    requires
        forall|j: int| 0 <= j < x.len() ==> x[j] != 13u8,
    ensures
        crlf_from(x, i) is None,
    decreases x.len() - i,
{
    if 0 <= i && i + 1 < x.len() {
        lemma_no_cr_no_crlf(x, i + 1);
    }
}

proof fn lemma_decimal_no_crlf(n: int)
    ensures
        crlf_from(decimal(n), 0) is None,
{
    let d = decimal(n);
    if n < 0 {
        lemma_digits_of_shape((-n) as nat);
        assert forall|j: int| 0 <= j < d.len() implies d[j] != 13u8 by {
            if j > 0 {
                assert(d[j] == crate::decimal::digits_of((-n) as nat)[j - 1]);
                assert(crate::decimal::is_digit(crate::decimal::digits_of((-n) as nat)[j - 1]));
            }
        }
    } else {
        lemma_digits_of_shape(n as nat);
        assert forall|j: int| 0 <= j < d.len() implies d[j] != 13u8 by {
            assert(crate::decimal::is_digit(d[j]));
        }
    }
    lemma_no_cr_no_crlf(d, 0);
}

proof fn lemma_parse_encode_text(m: RespModel, rest: Seq<u8>)
    requires
        wire_safe(m),
        m is SimpleString || m is Error,
    ensures
        parse_spec(encode(m) + rest) == RespParse::Complete(m, encode(m).len() as int),
{
    let s = encode(m) + rest;
    let body = s.subrange(1, s.len() as int);
    let t = match m {
        RespModel::SimpleString(t) => t,
        RespModel::Error(t) => t,
        _ => Seq::empty(),
    };
    let x = encode_utf8(t);
    assert(body =~= x + crlf() + rest);
    lemma_crlf_after(x, rest, 0);
    assert(body.subrange(0, x.len() as int) =~= x);
    encode_utf8_valid_utf8(t);
    encode_utf8_decode_utf8(t);
}

proof fn lemma_parse_encode_integer(v: i64, rest: Seq<u8>)
    ensures
        parse_spec(encode(RespModel::Integer(v)) + rest)
            == RespParse::Complete(RespModel::Integer(v), encode(RespModel::Integer(v)).len() as int),
{
    let s = encode(RespModel::Integer(v)) + rest;
    let body = s.subrange(1, s.len() as int);
    let x = decimal(v as int);
    assert(body =~= x + crlf() + rest);
    lemma_decimal_no_crlf(v as int);
    lemma_crlf_after(x, rest, 0);
    assert(body.subrange(0, x.len() as int) =~= x);
    lemma_i64_decimal_roundtrip(v);
}

proof fn lemma_parse_encode_bulk(b: Seq<u8>, rest: Seq<u8>)
    requires
        b.len() <= isize::MAX,
    ensures
        parse_spec(encode(RespModel::BulkString(b)) + rest)
            == RespParse::Complete(RespModel::BulkString(b), encode(RespModel::BulkString(b)).len() as int),
{
    let s = encode(RespModel::BulkString(b)) + rest;
    let body = s.subrange(1, s.len() as int);
    let x = decimal(b.len() as int);
    assert(body =~= x + crlf() + (b + crlf() + rest));
    lemma_decimal_no_crlf(b.len() as int);
    lemma_crlf_after(x, b + crlf() + rest, 0);
    assert(body.subrange(0, x.len() as int) =~= x);
    lemma_isize_decimal_roundtrip(b.len() as isize);
    let n = x.len() + 3;
    assert(s.subrange(n as int, (n + b.len()) as int) =~= b);
}

proof fn lemma_parse_encode_nil(rest: Seq<u8>)
    ensures
        parse_spec(encode(RespModel::Nil) + rest) == RespParse::Complete(RespModel::Nil, 5),
{
    let s = encode(RespModel::Nil) + rest;
    let body = s.subrange(1, s.len() as int);
    let x = seq![45u8, 49u8];
    assert(body =~= x + crlf() + rest);
    lemma_no_cr_no_crlf(x, 0);
    lemma_crlf_after(x, rest, 0);
    assert(body.subrange(0, 2) =~= x);
    lemma_digits_of_shape(1);
    assert(x =~= decimal(-1));
    lemma_isize_decimal_roundtrip(-1isize);
}

/// The parser reads back the encoding of every wire-safe value, whatever
/// bytes follow it, and reports the exact length of that encoding.
pub proof fn lemma_parse_encode(m: RespModel, rest: Seq<u8>)
    requires
        wire_safe(m),
    ensures
        parse_spec(encode(m) + rest) == RespParse::Complete(m, encode(m).len() as int),
    decreases m,
{
    match m {
        RespModel::SimpleString(_) => lemma_parse_encode_text(m, rest),
        RespModel::Error(_) => lemma_parse_encode_text(m, rest),
        RespModel::Integer(v) => lemma_parse_encode_integer(v, rest),
        RespModel::BulkString(b) => lemma_parse_encode_bulk(b, rest),
        RespModel::Nil => lemma_parse_encode_nil(rest),
        RespModel::Array(items) => {
            let s = encode(m) + rest;
            let body = s.subrange(1, s.len() as int);
            let x = decimal(items.len() as int);
            let tail = encode_all(items) + rest;
            assert(body =~= x + crlf() + tail);
            lemma_decimal_no_crlf(items.len() as int);
            lemma_crlf_after(x, tail, 0);
            assert(body.subrange(0, x.len() as int) =~= x);
            lemma_isize_decimal_roundtrip(items.len() as isize);
            let n = x.len() + 3;
            assert(s.subrange(n as int, s.len() as int) =~= tail);
            lemma_parse_encode_all(items, rest);
        },
    }
}

/// The parser reads back the encodings of wire-safe values placed one after
/// another, as many as were written.
pub proof fn lemma_parse_encode_all(items: Seq<RespModel>, rest: Seq<u8>)
    requires
        all_wire_safe(items),
    ensures
        parse_items(encode_all(items) + rest, items.len())
            == RespParse::Complete(RespModel::Array(items), encode_all(items).len() as int),
    decreases items,
{
    if items.len() == 0 {
        assert(items =~= Seq::<RespModel>::empty());
    } else {
        let first = items[0];
        let more = items.subrange(1, items.len() as int);
        let t = encode_all(items) + rest;
        let k = encode(first).len() as int;
        assert(t =~= encode(first) + (encode_all(more) + rest));
        lemma_parse_encode(first, encode_all(more) + rest);
        lemma_parse_span(t);
        assert(t.subrange(k, t.len() as int) =~= encode_all(more) + rest);
        lemma_parse_encode_all(more, rest);
        assert(seq![first] + more =~= items);
    }
}

} // verus!
