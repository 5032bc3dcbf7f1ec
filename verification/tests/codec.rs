use miniredis::protocol::{encode_protocol, parse_protocol, ParseOutcome, ProtocolData};

fn parsed(r: ParseOutcome) -> (ProtocolData, usize) {
    match r {
        ParseOutcome::Parsed(v, c) => (v, c),
        ParseOutcome::Incomplete => panic!("unexpected Incomplete"),
        ParseOutcome::Malformed(f) => panic!("unexpected Malformed: {:?}", f),
    }
}

#[test]
fn decodes_simple_string() {
    let (v, c) = parsed(parse_protocol(b"+OK\r\n"));
    assert_eq!(v, ProtocolData::SimpleString(b"OK".to_vec()));
    assert_eq!(c, 5);
}

#[test]
fn decodes_simple_error() {
    let (v, c) = parsed(parse_protocol(b"-ERR oops\r\n"));
    assert_eq!(v, ProtocolData::SimpleError(b"ERR oops".to_vec()));
    assert_eq!(c, 11);
}

#[test]
fn decodes_integer() {
    let (v, _) = parsed(parse_protocol(b":1000\r\n"));
    assert_eq!(v, ProtocolData::Integer(1000));
    let (v, _) = parsed(parse_protocol(b":-42\r\n"));
    assert_eq!(v, ProtocolData::Integer(-42));
    let (v, _) = parsed(parse_protocol(b":+7\r\n"));
    assert_eq!(v, ProtocolData::Integer(7));
    let (v, _) = parsed(parse_protocol(b":-9223372036854775808\r\n"));
    assert_eq!(v, ProtocolData::Integer(i64::MIN));
    let (v, _) = parsed(parse_protocol(b":9223372036854775807\r\n"));
    assert_eq!(v, ProtocolData::Integer(i64::MAX));
}

#[test]
fn rejects_bad_integers() {
    assert!(matches!(parse_protocol(b":12a\r\n"), ParseOutcome::Malformed(_)));
    assert!(matches!(parse_protocol(b":\r\n"), ParseOutcome::Malformed(_)));
    // one past i64::MAX
    assert!(matches!(
        parse_protocol(b":9223372036854775808\r\n"),
        ParseOutcome::Malformed(_)
    ));
}

#[test]
fn decodes_bulk_string() {
    let (v, c) = parsed(parse_protocol(b"$5\r\nhello\r\n"));
    assert_eq!(v, ProtocolData::BulkString(b"hello".to_vec()));
    assert_eq!(c, 11);
}

#[test]
fn bulk_length_is_declarative() {
    // the length line must be numeric but is not checked against the payload
    let (v, _) = parsed(parse_protocol(b"$3\r\nhello\r\n"));
    assert_eq!(v, ProtocolData::BulkString(b"hello".to_vec()));
    assert!(matches!(parse_protocol(b"$x\r\nhello\r\n"), ParseOutcome::Malformed(_)));
}

#[test]
fn decodes_array() {
    let (v, c) = parsed(parse_protocol(b"*2\r\n$4\r\nECHO\r\n$5\r\nhello\r\n"));
    assert_eq!(
        v,
        ProtocolData::Array(vec![
            ProtocolData::BulkString(b"ECHO".to_vec()),
            ProtocolData::BulkString(b"hello".to_vec()),
        ])
    );
    assert_eq!(c, 25);
}

#[test]
fn decodes_nested_array() {
    let (v, _) = parsed(parse_protocol(b"*2\r\n*1\r\n:1\r\n:2\r\n"));
    assert_eq!(
        v,
        ProtocolData::Array(vec![
            ProtocolData::Array(vec![ProtocolData::Integer(1)]),
            ProtocolData::Integer(2),
        ])
    );
}

#[test]
fn decodes_null_boolean_double_bignum() {
    assert_eq!(parsed(parse_protocol(b"_\r\n")), (ProtocolData::Null, 3));
    assert_eq!(parsed(parse_protocol(b"#t\r\n")).0, ProtocolData::Boolean(true));
    assert_eq!(parsed(parse_protocol(b"#f\r\n")).0, ProtocolData::Boolean(false));
    assert!(matches!(parse_protocol(b"#x\r\n"), ParseOutcome::Malformed(_)));
    assert_eq!(
        parsed(parse_protocol(b",3.25\r\n")).0,
        ProtocolData::Double(b"3.25".to_vec())
    );
    assert_eq!(
        parsed(parse_protocol(b"(123456789\r\n")).0,
        ProtocolData::BigNums(b"123456789".to_vec())
    );
}

#[test]
fn decodes_bulk_error_and_verbatim() {
    assert_eq!(
        parsed(parse_protocol(b"!5\r\nwrong\r\n")).0,
        ProtocolData::BulkError(b"wrong".to_vec())
    );
    assert_eq!(
        parsed(parse_protocol(b"=15\r\ntxt:Some string\r\n")).0,
        ProtocolData::Verbatim(b"txt".to_vec(), b"Some string".to_vec())
    );
}

#[test]
fn verbatim_tag_must_be_three_characters() {
    assert!(matches!(parse_protocol(b"=6\r\nlong:x\r\n"), ParseOutcome::Malformed(_)));
    assert!(matches!(parse_protocol(b"=5\r\nab:cd\r\n"), ParseOutcome::Malformed(_)));
}

#[test]
fn accepts_decimal_double_lines() {
    for line in [
        &b",3.25\r\n"[..],
        b",10\r\n",
        b",-1.5e-3\r\n",
        b",+0.5\r\n",
        b",.5\r\n",
        b",5.\r\n",
        b",1E9\r\n",
        b",inf\r\n",
        b",-Infinity\r\n",
        b",NaN\r\n",
    ] {
        assert!(
            matches!(parse_protocol(line), ParseOutcome::Parsed(ProtocolData::Double(_), _)),
            "should accept {:?}",
            line
        );
    }
}

#[test]
fn rejects_non_numeric_double_lines() {
    for line in [
        &b",abc\r\n"[..],
        b",\r\n",
        b",.\r\n",
        b",1e\r\n",
        b",1.2.3\r\n",
        b",in\r\n",
        b",--1\r\n",
        b",1e5e3\r\n",
    ] {
        assert!(
            matches!(parse_protocol(line), ParseOutcome::Malformed(_)),
            "should reject {:?}",
            line
        );
    }
}

#[test]
fn decodes_map_set_push_attributes() {
    assert_eq!(
        parsed(parse_protocol(b"%1\r\n+k\r\n:1\r\n")).0,
        ProtocolData::MapData(vec![(
            ProtocolData::SimpleString(b"k".to_vec()),
            ProtocolData::Integer(1),
        )])
    );
    assert_eq!(
        parsed(parse_protocol(b"|1\r\n+k\r\n:1\r\n")).0,
        ProtocolData::Attributes(vec![(
            ProtocolData::SimpleString(b"k".to_vec()),
            ProtocolData::Integer(1),
        )])
    );
    assert_eq!(
        parsed(parse_protocol(b"~2\r\n:1\r\n:2\r\n")).0,
        ProtocolData::SetData(vec![ProtocolData::Integer(1), ProtocolData::Integer(2)])
    );
    assert_eq!(
        parsed(parse_protocol(b">1\r\n+note\r\n")).0,
        ProtocolData::Push(vec![ProtocolData::SimpleString(b"note".to_vec())])
    );
}

#[test]
fn rejects_unknown_sigil() {
    assert!(matches!(parse_protocol(b"@abc\r\n"), ParseOutcome::Malformed(_)));
}

#[test]
fn rejects_null_without_its_terminator() {
    assert!(matches!(parse_protocol(b"_x\r\n"), ParseOutcome::Malformed(_)));
    assert!(matches!(parse_protocol(b"_\rx"), ParseOutcome::Malformed(_)));
}

#[test]
fn incomplete_when_bytes_are_missing() {
    assert!(matches!(parse_protocol(b""), ParseOutcome::Incomplete));
    assert!(matches!(parse_protocol(b"+OK"), ParseOutcome::Incomplete));
    assert!(matches!(parse_protocol(b"$5\r\nhel"), ParseOutcome::Incomplete));
    assert!(matches!(parse_protocol(b"*2\r\n:1\r\n"), ParseOutcome::Incomplete));
    assert!(matches!(parse_protocol(b"_\r"), ParseOutcome::Incomplete));
    assert!(matches!(parse_protocol(b"#"), ParseOutcome::Incomplete));
}

#[test]
fn encodes_exact_wire_bytes() {
    assert_eq!(
        encode_protocol(ProtocolData::SimpleString(b"PONG".to_vec())),
        b"+PONG\r\n".to_vec()
    );
    assert_eq!(
        encode_protocol(ProtocolData::SimpleError(b"oops".to_vec())),
        b"-oops\r\n".to_vec()
    );
    assert_eq!(encode_protocol(ProtocolData::Integer(-42)), b":-42\r\n".to_vec());
    assert_eq!(
        encode_protocol(ProtocolData::BulkString(b"hello".to_vec())),
        b"$5\r\nhello\r\n".to_vec()
    );
    assert_eq!(encode_protocol(ProtocolData::Null), b"_\r\n".to_vec());
    assert_eq!(
        encode_protocol(ProtocolData::Array(vec![
            ProtocolData::Integer(1),
            ProtocolData::BulkString(b"a".to_vec()),
        ])),
        b"*2\r\n:1\r\n$1\r\na\r\n".to_vec()
    );
}

fn sample_reply(i: usize) -> ProtocolData {
    match i {
        0 => ProtocolData::SimpleString(b"PONG".to_vec()),
        1 => ProtocolData::SimpleError(b"Wrong data type".to_vec()),
        2 => ProtocolData::Integer(i64::MIN),
        3 => ProtocolData::BulkString(b"v1".to_vec()),
        4 => ProtocolData::Null,
        _ => ProtocolData::Array(vec![
            ProtocolData::BulkString(b"SET".to_vec()),
            ProtocolData::Integer(10),
            ProtocolData::Array(vec![ProtocolData::Null]),
        ]),
    }
}

#[test]
fn round_trip_of_encoder_output() {
    for i in 0..6 {
        let bytes = encode_protocol(sample_reply(i));
        let (back, consumed) = parsed(parse_protocol(&bytes));
        assert_eq!(back, sample_reply(i));
        assert_eq!(consumed, bytes.len());
    }
}

#[test]
fn incremental_delivery_at_every_split() {
    let msg = encode_protocol(ProtocolData::Array(vec![
        ProtocolData::BulkString(b"GET".to_vec()),
        ProtocolData::BulkString(b"k".to_vec()),
    ]));
    let (whole, consumed) = parsed(parse_protocol(&msg));
    assert_eq!(consumed, msg.len());
    for split in 0..msg.len() {
        let first = &msg[..split];
        assert!(matches!(parse_protocol(first), ParseOutcome::Incomplete));
        let mut joined = first.to_vec();
        joined.extend_from_slice(&msg[split..]);
        let (again, c) = parsed(parse_protocol(&joined));
        assert_eq!(again, whole);
        assert_eq!(c, msg.len());
    }
}

#[test]
fn trailing_bytes_leave_the_first_value_alone() {
    let (v, c) = parsed(parse_protocol(b"+OK\r\n:123\r\n"));
    assert_eq!(v, ProtocolData::SimpleString(b"OK".to_vec()));
    assert_eq!(c, 5);
}
