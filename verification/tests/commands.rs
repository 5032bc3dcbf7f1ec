use miniredis::command::{parse_command, Command, Expire, ParseCommandError, SetCond};
use miniredis::protocol::ProtocolData;

fn request(words: &[&[u8]]) -> ProtocolData {
    ProtocolData::Array(words.iter().map(|w| ProtocolData::BulkString(w.to_vec())).collect())
}

#[test]
fn ping_takes_no_arguments() {
    assert_eq!(parse_command(request(&[b"PING"])), Ok(Command::Ping));
    assert_eq!(
        parse_command(request(&[b"PING", b"extra"])),
        Err(ParseCommandError::WrongArguments)
    );
}

#[test]
fn command_names_are_case_insensitive() {
    assert_eq!(parse_command(request(&[b"ping"])), Ok(Command::Ping));
    assert!(matches!(
        parse_command(request(&[b"EcHo", b"hi"])),
        Ok(Command::Echo(p)) if p == b"hi".to_vec()
    ));
}

#[test]
fn echo_takes_exactly_one_argument() {
    assert!(matches!(
        parse_command(request(&[b"ECHO", b"hello"])),
        Ok(Command::Echo(p)) if p == b"hello".to_vec()
    ));
    assert_eq!(parse_command(request(&[b"ECHO"])), Err(ParseCommandError::WrongArguments));
    assert_eq!(
        parse_command(request(&[b"ECHO", b"a", b"b"])),
        Err(ParseCommandError::WrongArguments)
    );
}

#[test]
fn get_takes_exactly_one_argument() {
    assert!(matches!(
        parse_command(request(&[b"GET", b"k"])),
        Ok(Command::Get(k)) if k == b"k".to_vec()
    ));
    assert_eq!(parse_command(request(&[b"GET"])), Err(ParseCommandError::WrongArguments));
}

#[test]
fn set_needs_key_and_value() {
    assert_eq!(parse_command(request(&[b"SET", b"k"])), Err(ParseCommandError::WrongArguments));
    match parse_command(request(&[b"SET", b"k", b"v"])) {
        Ok(Command::SetCmd(o)) => {
            assert_eq!(o.key, b"k".to_vec());
            assert_eq!(o.val, b"v".to_vec());
            assert_eq!(o.cond, None);
            assert!(!o.ret_old);
            assert_eq!(o.expire, None);
        },
        other => panic!("unexpected: {:?}", other),
    }
}

#[test]
fn set_options_are_recorded() {
    match parse_command(request(&[b"SET", b"k", b"v", b"nx", b"get", b"ex", b"10"])) {
        Ok(Command::SetCmd(o)) => {
            assert_eq!(o.cond, Some(SetCond::NX));
            assert!(o.ret_old);
            assert_eq!(o.expire, Some(Expire::EX(10)));
        },
        other => panic!("unexpected: {:?}", other),
    }
    match parse_command(request(&[b"SET", b"k", b"v", b"XX", b"PXAT", b"123456"])) {
        Ok(Command::SetCmd(o)) => {
            assert_eq!(o.cond, Some(SetCond::XX));
            assert_eq!(o.expire, Some(Expire::PXAT(123456)));
        },
        other => panic!("unexpected: {:?}", other),
    }
    match parse_command(request(&[b"SET", b"k", b"v", b"KEEPTTL"])) {
        Ok(Command::SetCmd(o)) => assert_eq!(o.expire, Some(Expire::KEEPTTL)),
        other => panic!("unexpected: {:?}", other),
    }
}

#[test]
fn set_rejects_conflicting_or_broken_options() {
    // two conditions
    assert_eq!(
        parse_command(request(&[b"SET", b"k", b"v", b"NX", b"XX"])),
        Err(ParseCommandError::WrongArguments)
    );
    // two expirations
    assert_eq!(
        parse_command(request(&[b"SET", b"k", b"v", b"EX", b"1", b"KEEPTTL"])),
        Err(ParseCommandError::WrongArguments)
    );
    // numeric option at end of input
    assert_eq!(
        parse_command(request(&[b"SET", b"k", b"v", b"EX"])),
        Err(ParseCommandError::WrongArguments)
    );
    // non-numeric time operand
    assert_eq!(
        parse_command(request(&[b"SET", b"k", b"v", b"PX", b"soon"])),
        Err(ParseCommandError::WrongArguments)
    );
    // negative time operand
    assert_eq!(
        parse_command(request(&[b"SET", b"k", b"v", b"EX", b"-1"])),
        Err(ParseCommandError::WrongArguments)
    );
    // unknown token
    assert_eq!(
        parse_command(request(&[b"SET", b"k", b"v", b"BOGUS"])),
        Err(ParseCommandError::WrongArguments)
    );
}

#[test]
fn unrecognized_command_carries_normalized_name() {
    assert_eq!(
        parse_command(request(&[b"foo"])),
        Err(ParseCommandError::UnrecognizedCommand(b"FOO".to_vec()))
    );
}

#[test]
fn non_envelope_values_are_wrong_type() {
    assert_eq!(
        parse_command(ProtocolData::SimpleString(b"PING".to_vec())),
        Err(ParseCommandError::WrongProtocolDataType)
    );
    assert_eq!(
        parse_command(ProtocolData::Array(vec![])),
        Err(ParseCommandError::WrongProtocolDataType)
    );
    assert_eq!(
        parse_command(ProtocolData::Array(vec![
            ProtocolData::BulkString(b"GET".to_vec()),
            ProtocolData::Integer(1),
        ])),
        Err(ParseCommandError::WrongProtocolDataType)
    );
}
