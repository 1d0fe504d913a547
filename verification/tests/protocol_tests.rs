use rlap::decimal::{parse_i64, parse_isize, parse_u64, push_decimal_i64, push_decimal_usize};
use rlap::protocol::{read_line, CalcOp, OpCode, ParseFault, RespValue};

#[test]
fn opcode_bytes_round_trip() {
    for b in 0u16..=255 {
        let b = b as u8;
        if let Some(op) = OpCode::from_u8(b) {
            assert_eq!(op.code(), b);
        }
    }
    assert_eq!(OpCode::from_u8(0x01), Some(OpCode::Push));
    assert_eq!(OpCode::from_u8(0x03), Some(OpCode::SetValue));
    assert_eq!(OpCode::from_u8(0x0b), Some(OpCode::HSet));
    assert_eq!(OpCode::from_u8(0xff), Some(OpCode::Halt));
    assert_eq!(OpCode::from_u8(0x0c), None);
    assert_eq!(OpCode::from_u8(0x00), None);
}

#[test]
fn calc_op_codes() {
    assert_eq!(CalcOp::Add.code(), 1);
    assert_eq!(CalcOp::Sub.code(), 2);
    assert_eq!(CalcOp::Max.code(), 3);
    assert_eq!(CalcOp::Min.code(), 4);
}

#[test]
fn read_line_finds_first_crlf() {
    assert_eq!(read_line(b"abc\r\ndef"), Some((&b"abc"[..], 5)));
    assert_eq!(read_line(b"a\rb\r\n"), Some((&b"a\rb"[..], 5)));
    assert_eq!(read_line(b"\r\n"), Some((&b""[..], 2)));
    assert_eq!(read_line(b"abc"), None);
    assert_eq!(read_line(b"abc\r"), None);
    assert_eq!(read_line(b""), None);
}

#[test]
fn decimal_text() {
    let mut v = Vec::new();
    push_decimal_i64(&mut v, i64::MIN);
    assert_eq!(v, b"-9223372036854775808".to_vec());
    let mut v = Vec::new();
    push_decimal_i64(&mut v, 0);
    assert_eq!(v, b"0".to_vec());
    let mut v = Vec::new();
    push_decimal_usize(&mut v, 1200);
    assert_eq!(v, b"1200".to_vec());
    for n in [-1_000_000i64, -7, 0, 9, 10, 99, 12345, i64::MAX, i64::MIN] {
        let mut v = Vec::new();
        push_decimal_i64(&mut v, n);
        assert_eq!(String::from_utf8(v.clone()).unwrap(), n.to_string());
        assert_eq!(parse_i64(&v), Some(n));
    }
}

#[test]
fn integer_parsing_matches_std() {
    let cases: [&str; 16] = [
        "", "+", "-", "0", "-0", "+7", "-7", "12a", " 1", "9223372036854775807", "9223372036854775808",
        "-9223372036854775808", "-9223372036854775809", "18446744073709551615", "18446744073709551616", "007",
    ];
    for c in cases {
        assert_eq!(parse_i64(c.as_bytes()), c.parse::<i64>().ok(), "i64 {:?}", c);
        assert_eq!(parse_isize(c.as_bytes()), c.parse::<isize>().ok(), "isize {:?}", c);
        assert_eq!(parse_u64(c.as_bytes()), c.parse::<u64>().ok(), "u64 {:?}", c);
    }
}

#[test]
fn encodes_each_kind() {
    assert_eq!(RespValue::SimpleString("OK".to_string()).to_bytes(), b"+OK\r\n".to_vec());
    assert_eq!(RespValue::Error("ERR x".to_string()).to_bytes(), b"-ERR x\r\n".to_vec());
    assert_eq!(RespValue::Integer(-42).to_bytes(), b":-42\r\n".to_vec());
    assert_eq!(RespValue::BulkString(b"abc".to_vec()).to_bytes(), b"$3\r\nabc\r\n".to_vec());
    assert_eq!(RespValue::Nil.to_bytes(), b"$-1\r\n".to_vec());
    assert_eq!(RespValue::Array(vec![]).to_bytes(), b"*0\r\n".to_vec());
    let nested = RespValue::Array(vec![
        RespValue::Integer(1),
        RespValue::Array(vec![RespValue::BulkString(b"x".to_vec()), RespValue::Nil]),
    ]);
    assert_eq!(nested.to_bytes(), b"*2\r\n:1\r\n*2\r\n$1\r\nx\r\n$-1\r\n".to_vec());
    assert_eq!(RespValue::SimpleString("é".to_string()).to_bytes(), "+é\r\n".as_bytes().to_vec());
}

#[test]
fn parses_each_kind() {
    assert_eq!(RespValue::parse(b"+PONG\r\n"), Some((RespValue::SimpleString("PONG".to_string()), 7)));
    assert_eq!(RespValue::parse(b"-bad\r\nrest"), Some((RespValue::Error("bad".to_string()), 6)));
    assert_eq!(RespValue::parse(b":+5\r\n"), Some((RespValue::Integer(5), 5)));
    assert_eq!(RespValue::parse(b":-12\r\n"), Some((RespValue::Integer(-12), 6)));
    assert_eq!(RespValue::parse(b"$3\r\nfoo\r\n"), Some((RespValue::BulkString(b"foo".to_vec()), 9)));
    assert_eq!(RespValue::parse(b"$-1\r\n"), Some((RespValue::Nil, 5)));
    assert_eq!(RespValue::parse(b"*-1\r\n"), Some((RespValue::Nil, 5)));
    assert_eq!(
        RespValue::parse(b"*2\r\n$3\r\nfoo\r\n:5\r\n"),
        Some((RespValue::Array(vec![RespValue::BulkString(b"foo".to_vec()), RespValue::Integer(5)]), 17))
    );
    // The two bytes after bulk data are skipped unchecked.
    assert_eq!(RespValue::parse(b"$1\r\naXY"), Some((RespValue::BulkString(b"a".to_vec()), 7)));
}

#[test]
fn rejects_what_holds_no_value() {
    assert_eq!(RespValue::parse(b""), None);
    assert_eq!(RespValue::parse(b"?x\r\n"), None);
    assert_eq!(RespValue::parse(b"+no end"), None);
    assert_eq!(RespValue::parse(b":12x\r\n"), None);
    assert_eq!(RespValue::parse(b":9223372036854775808\r\n"), None);
    assert_eq!(RespValue::parse(b"$5\r\nab\r\n"), None);
    assert_eq!(RespValue::parse(b"*2\r\n:1\r\n"), None);
}

#[test]
fn negative_lengths_are_faults() {
    assert_eq!(RespValue::try_parse(b"$-2\r\n"), Err(ParseFault::NegativeLength));
    assert_eq!(RespValue::try_parse(b"*-5\r\n"), Err(ParseFault::NegativeLength));
    assert_eq!(RespValue::try_parse(b"*1\r\n$-3\r\n"), Err(ParseFault::NegativeLength));
    assert_eq!(RespValue::try_parse(b"*1\r\n$-1\r\n"), Ok(Some((RespValue::Array(vec![RespValue::Nil]), 9))));
}

#[test]
fn invalid_utf8_is_replaced() {
    assert_eq!(
        RespValue::parse(b"+a\xffb\r\n"),
        Some((RespValue::SimpleString("a\u{fffd}b".to_string()), 6))
    );
}

#[test]
fn encoding_parses_back() {
    let values = vec![
        RespValue::SimpleString("hello world".to_string()),
        RespValue::Error("ERR unknown".to_string()),
        RespValue::Integer(i64::MIN),
        RespValue::BulkString(b"with\r\ninside".to_vec()),
        RespValue::Nil,
        RespValue::Array(vec![
            RespValue::Array(vec![]),
            RespValue::BulkString(vec![]),
            RespValue::Integer(3),
        ]),
    ];
    for v in values {
        let mut bytes = v.to_bytes();
        let n = bytes.len();
        bytes.extend_from_slice(b"trailing");
        assert_eq!(RespValue::parse(&bytes), Some((v, n)));
    }
}

#[test]
fn resp_clone_keeps_content() {
    let v = RespValue::Array(vec![
        RespValue::SimpleString("OK".to_string()),
        RespValue::Error("bad".to_string()),
        RespValue::Integer(-3),
        RespValue::BulkString(b"x\r\ny".to_vec()),
        RespValue::Array(vec![RespValue::Nil]),
        RespValue::Nil,
    ]);
    assert_eq!(v.clone(), v);
    assert_eq!(v.duplicate(), v);
    assert_eq!(v.clone().to_bytes(), v.to_bytes());
}
