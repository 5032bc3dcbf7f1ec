use miniredis::conn::{handle_buffer, StepOutcome};
use miniredis::store::Store;

fn reply(r: StepOutcome) -> Vec<u8> {
    match r {
        StepOutcome::Reply(b) => b,
        other => panic!("expected a reply, got {:?}", other),
    }
}

#[test]
fn a_full_request_earns_one_encoded_reply() {
    let mut s = Store::new();
    let r = reply(handle_buffer(&mut s, b"*1\r\n$4\r\nPING\r\n", 1000));
    assert_eq!(r, b"+PONG\r\n".to_vec());
}

#[test]
fn echo_reply_equals_the_message() {
    let mut s = Store::new();
    let r = reply(handle_buffer(&mut s, b"*2\r\n$4\r\nECHO\r\n$5\r\nhello\r\n", 1000));
    assert_eq!(r, b"+hello\r\n".to_vec());
}

#[test]
fn set_and_get_over_the_wire() {
    let mut s = Store::new();
    let r = reply(handle_buffer(&mut s, b"*3\r\n$3\r\nSET\r\n$1\r\nk\r\n$1\r\nv\r\n", 1000));
    assert_eq!(r, b"+OK\r\n".to_vec());
    let r = reply(handle_buffer(&mut s, b"*2\r\n$3\r\nGET\r\n$1\r\nk\r\n", 1001));
    assert_eq!(r, b"$1\r\nv\r\n".to_vec());
    let r = reply(handle_buffer(&mut s, b"*2\r\n$3\r\nGET\r\n$1\r\nx\r\n", 1002));
    assert_eq!(r, b"_\r\n".to_vec());
}

#[test]
fn a_partial_request_asks_for_more_bytes() {
    let mut s = Store::new();
    assert_eq!(
        handle_buffer(&mut s, b"*2\r\n$4\r\nECHO\r\n$5\r\nhel", 1000),
        StepOutcome::NeedMore
    );
}

#[test]
fn a_malformed_buffer_closes_the_connection() {
    let mut s = Store::new();
    assert!(matches!(handle_buffer(&mut s, b"@what\r\n", 1000), StepOutcome::Close(_)));
}

#[test]
fn unrecognized_command_mentions_the_name_and_the_connection_lives_on() {
    let mut s = Store::new();
    let r = reply(handle_buffer(&mut s, b"*1\r\n$3\r\nfoo\r\n", 1000));
    assert_eq!(r, b"-Unrecognized command 'FOO'\r\n".to_vec());
    // the same connection state serves the next valid request
    let r = reply(handle_buffer(&mut s, b"*1\r\n$4\r\nPING\r\n", 1001));
    assert_eq!(r, b"+PONG\r\n".to_vec());
}

#[test]
fn request_errors_are_simple_error_replies() {
    let mut s = Store::new();
    let r = reply(handle_buffer(&mut s, b"*2\r\n$4\r\nPING\r\n$1\r\nx\r\n", 1000));
    assert_eq!(r, b"-Wrong argument type or number\r\n".to_vec());
    let r = reply(handle_buffer(&mut s, b"*2\r\n$4\r\nECHO\r\n:5\r\n", 1000));
    assert_eq!(r, b"-Wrong data type\r\n".to_vec());
}
