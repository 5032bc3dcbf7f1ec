use miniredis::command::{Command, Expire, SetCond, SetOpts};
use miniredis::protocol::ProtocolData;
use miniredis::store::{Entry, Store};

fn set_opts(key: &[u8], val: &[u8]) -> SetOpts {
    SetOpts {
        key: key.to_vec(),
        val: val.to_vec(),
        cond: None,
        ret_old: false,
        expire: None,
    }
}

#[test]
fn entry_expires_only_after_its_timestamp() {
    let e = Entry { val: b"v".to_vec(), expire: Some(100) };
    assert!(!e.expires(99));
    assert!(!e.expires(100));
    assert!(e.expires(101));
    let forever = Entry { val: b"v".to_vec(), expire: None };
    assert!(!forever.expires(u64::MAX));
}

#[test]
fn set_then_get_returns_the_value() {
    let mut s = Store::new();
    let reply = s.handle_command(Command::SetCmd(set_opts(b"k", b"v")), 1000);
    assert_eq!(reply, ProtocolData::SimpleString(b"OK".to_vec()));
    let reply = s.handle_command(Command::Get(b"k".to_vec()), 1001);
    assert_eq!(reply, ProtocolData::BulkString(b"v".to_vec()));
}

#[test]
fn get_of_absent_key_is_null() {
    let mut s = Store::new();
    let reply = s.handle_command(Command::Get(b"missing".to_vec()), 1);
    assert_eq!(reply, ProtocolData::Null);
}

#[test]
fn nx_writes_once_and_keeps_the_first_value() {
    let mut s = Store::new();
    let mut first = set_opts(b"k", b"v1");
    first.cond = Some(SetCond::NX);
    let reply = s.handle_command(Command::SetCmd(first), 1000);
    assert_eq!(reply, ProtocolData::SimpleString(b"OK".to_vec()));

    let mut second = set_opts(b"k", b"v2");
    second.cond = Some(SetCond::NX);
    let reply = s.handle_command(Command::SetCmd(second), 1001);
    assert_eq!(reply, ProtocolData::Null);

    let reply = s.handle_command(Command::Get(b"k".to_vec()), 1002);
    assert_eq!(reply, ProtocolData::BulkString(b"v1".to_vec()));
}

#[test]
fn xx_on_absent_key_writes_nothing() {
    let mut s = Store::new();
    let mut o = set_opts(b"k", b"v");
    o.cond = Some(SetCond::XX);
    let reply = s.handle_command(Command::SetCmd(o), 1000);
    assert_eq!(reply, ProtocolData::Null);
    let reply = s.handle_command(Command::Get(b"k".to_vec()), 1001);
    assert_eq!(reply, ProtocolData::Null);
}

#[test]
fn a_second_set_sees_an_ex_zero_entry_as_expired() {
    let mut s = Store::new();
    let mut first = set_opts(b"k", b"v");
    first.expire = Some(Expire::EX(0));
    let reply = s.handle_command(Command::SetCmd(first), 1000);
    assert_eq!(reply, ProtocolData::SimpleString(b"OK".to_vec()));

    // the clock has advanced past the deadline: the old value is captured
    // as absent, not as "v"
    let mut second = set_opts(b"k", b"v2");
    second.ret_old = true;
    let reply = s.handle_command(Command::SetCmd(second), 1001);
    assert_eq!(reply, ProtocolData::Null);
}

#[test]
fn get_never_evaluates_expiration() {
    // only SET evicts: a key never touched by a later SET stays readable
    // after its deadline
    let mut s = Store::new();
    let mut o = set_opts(b"k", b"v");
    o.expire = Some(Expire::PX(5));
    s.handle_command(Command::SetCmd(o), 1000);
    let reply = s.handle_command(Command::Get(b"k".to_vec()), 999_999);
    assert_eq!(reply, ProtocolData::BulkString(b"v".to_vec()));
}

#[test]
fn keepttl_preserves_the_stored_deadline() {
    let mut s = Store::new();
    let mut first = set_opts(b"k", b"v1");
    first.expire = Some(Expire::EX(100));
    s.handle_command(Command::SetCmd(first), 1000);
    assert_eq!(s.expiration(&b"k".to_vec()), Some(Some(1000 + 100 * 1000)));

    let mut second = set_opts(b"k", b"v2");
    second.expire = Some(Expire::KEEPTTL);
    s.handle_command(Command::SetCmd(second), 2000);
    assert_eq!(s.expiration(&b"k".to_vec()), Some(Some(1000 + 100 * 1000)));
    assert_eq!(
        s.handle_command(Command::Get(b"k".to_vec()), 2001),
        ProtocolData::BulkString(b"v2".to_vec())
    );
}

#[test]
fn a_plain_set_drops_any_previous_deadline() {
    let mut s = Store::new();
    let mut first = set_opts(b"k", b"v1");
    first.expire = Some(Expire::PXAT(5000));
    s.handle_command(Command::SetCmd(first), 1000);
    s.handle_command(Command::SetCmd(set_opts(b"k", b"v2")), 1001);
    assert_eq!(s.expiration(&b"k".to_vec()), Some(None));
}

#[test]
fn expiration_kinds_resolve_against_the_clock() {
    let mut s = Store::new();
    let mut o = set_opts(b"a", b"v");
    o.expire = Some(Expire::PX(25));
    s.handle_command(Command::SetCmd(o), 1000);
    assert_eq!(s.expiration(&b"a".to_vec()), Some(Some(1025)));

    let mut o = set_opts(b"b", b"v");
    o.expire = Some(Expire::EXAT(7));
    s.handle_command(Command::SetCmd(o), 1000);
    assert_eq!(s.expiration(&b"b".to_vec()), Some(Some(7000)));

    let mut o = set_opts(b"c", b"v");
    o.expire = Some(Expire::EX(u64::MAX));
    s.handle_command(Command::SetCmd(o), 1000);
    // a deadline past what the field can hold saturates
    assert_eq!(s.expiration(&b"c".to_vec()), Some(Some(u64::MAX)));
}

#[test]
fn set_with_get_flag_returns_the_old_value() {
    let mut s = Store::new();
    s.handle_command(Command::SetCmd(set_opts(b"k", b"v1")), 1000);
    let mut o = set_opts(b"k", b"v2");
    o.ret_old = true;
    let reply = s.handle_command(Command::SetCmd(o), 1001);
    assert_eq!(reply, ProtocolData::BulkString(b"v1".to_vec()));
    let mut o = set_opts(b"fresh", b"v");
    o.ret_old = true;
    let reply = s.handle_command(Command::SetCmd(o), 1002);
    assert_eq!(reply, ProtocolData::Null);
}

#[test]
fn ping_and_echo_replies() {
    let mut s = Store::new();
    assert_eq!(
        s.handle_command(Command::Ping, 1),
        ProtocolData::SimpleString(b"PONG".to_vec())
    );
    assert_eq!(
        s.handle_command(Command::Echo(b"hello".to_vec()), 1),
        ProtocolData::SimpleString(b"hello".to_vec())
    );
}
