//! One request through the whole pipeline: decode the buffered bytes,
//! validate the command, run it against the table, and encode the reply.
//! The surrounding connection loop only moves bytes; every decision is
//! made here.

use vstd::prelude::*;
use crate::command::{CmdError, ParseCommandError, parse_command, spec_parse_command};
use crate::protocol::{
    DecodeFault, DecodeOutcome, ParseOutcome, ProtocolData, ValueModel, encode_protocol,
    parse_protocol, spec_decode, spec_encodable, spec_encode,
};
use crate::store::{EntryModel, Store, spec_reply, spec_table_after};

verus! {

/// What one buffered read leads to: a complete reply to send back, a wish
/// for more bytes, or tearing the connection down on a malformed buffer.
#[derive(Debug, PartialEq)]
pub enum StepOutcome {
    Reply(Vec<u8>),
    NeedMore,
    Close(DecodeFault),
}

/// The model of a step's verdict.
pub enum StepModel {
    Reply(Seq<u8>),
    NeedMore,
    Close,
}

pub open spec fn step_models(r: StepOutcome, m: StepModel) -> bool {
    match r {
        StepOutcome::Reply(b) => m == StepModel::Reply(b@),
        StepOutcome::NeedMore => m == StepModel::NeedMore,
        StepOutcome::Close(_) => m == StepModel::Close,
    }
}

pub open spec fn lit_unrecognized_prefix() -> Seq<u8> {
    seq![
        85u8, 110u8, 114u8, 101u8, 99u8, 111u8, 103u8, 110u8, 105u8, 122u8, 101u8, 100u8, 32u8,
        99u8, 111u8, 109u8, 109u8, 97u8, 110u8, 100u8, 32u8, 39u8,
    ]
}

pub open spec fn lit_wrong_type() -> Seq<u8> {
    seq![
        87u8, 114u8, 111u8, 110u8, 103u8, 32u8, 100u8, 97u8, 116u8, 97u8, 32u8, 116u8, 121u8,
        112u8, 101u8,
    ]
}

pub open spec fn lit_wrong_args() -> Seq<u8> {
    seq![
        87u8, 114u8, 111u8, 110u8, 103u8, 32u8, 97u8, 114u8, 103u8, 117u8, 109u8, 101u8, 110u8,
        116u8, 32u8, 116u8, 121u8, 112u8, 101u8, 32u8, 111u8, 114u8, 32u8, 110u8, 117u8, 109u8,
        98u8, 101u8, 114u8,
    ]
}

/// The human-readable description of a rejected request; for an
/// unrecognized command it quotes the normalized name.
pub open spec fn spec_error_message(e: CmdError) -> Seq<u8> {
    match e {
        CmdError::Unrecognized(name) => lit_unrecognized_prefix() + name + seq![39u8],
        CmdError::WrongType => lit_wrong_type(),
        CmdError::WrongArgs => lit_wrong_args(),
    }
}

/// The simple-error reply a rejected request earns.
pub fn error_response(e: ParseCommandError) -> (r: ProtocolData)
    ensures
        r@ == ValueModel::SimpleError(spec_error_message(e@)),
{
    match e {
        ParseCommandError::UnrecognizedCommand(name) => {
            let mut msg: Vec<u8> = vec![
                85u8, 110u8, 114u8, 101u8, 99u8, 111u8, 103u8, 110u8, 105u8, 122u8, 101u8, 100u8,
                32u8, 99u8, 111u8, 109u8, 109u8, 97u8, 110u8, 100u8, 32u8, 39u8,
            ];
            msg.extend_from_slice(name.as_slice());
            msg.push(39u8);
            proof {
                assert(msg@ =~= lit_unrecognized_prefix() + name@ + seq![39u8]);
            }
            ProtocolData::SimpleError(msg)
        },
        ParseCommandError::WrongProtocolDataType => {
            let msg: Vec<u8> = vec![
                87u8, 114u8, 111u8, 110u8, 103u8, 32u8, 100u8, 97u8, 116u8, 97u8, 32u8, 116u8,
                121u8, 112u8, 101u8,
            ];
            proof {
                assert(msg@ =~= lit_wrong_type());
            }
            ProtocolData::SimpleError(msg)
        },
        ParseCommandError::WrongArguments => {
            let msg: Vec<u8> = vec![
                87u8, 114u8, 111u8, 110u8, 103u8, 32u8, 97u8, 114u8, 103u8, 117u8, 109u8, 101u8,
                110u8, 116u8, 32u8, 116u8, 121u8, 112u8, 101u8, 32u8, 111u8, 114u8, 32u8, 110u8,
                117u8, 109u8, 98u8, 101u8, 114u8,
            ];
            proof {
                assert(msg@ =~= lit_wrong_args());
            }
            ProtocolData::SimpleError(msg)
        },
    }
}

/// The table and verdict one buffered read leads to: an incomplete buffer
/// asks for more bytes and changes nothing; a malformed one closes the
/// connection and changes nothing; a decoded request earns exactly one
/// encoded reply — a rejected request its error message — and only a
/// decoded, validated SET changes the table.
pub open spec fn spec_step(m: Map<Seq<u8>, EntryModel>, input: Seq<u8>, now_ms: u64) -> (
    Map<Seq<u8>, EntryModel>,
    StepModel,
) {
    match spec_decode(input) {
        DecodeOutcome::Incomplete => (m, StepModel::NeedMore),
        DecodeOutcome::Malformed => (m, StepModel::Close),
        DecodeOutcome::Parsed(v, _c) => match spec_parse_command(v) {
            Ok(cmd) => (
                spec_table_after(m, cmd, now_ms),
                StepModel::Reply(spec_encode(spec_reply(m, cmd, now_ms))),
            ),
            Err(e) => (m, StepModel::Reply(spec_encode(ValueModel::SimpleError(spec_error_message(e))))),
        },
    }
}

/// Drives the buffered bytes of one connection through codec, grammar and
/// storage, at time `now_ms`, and says what to do next.
pub fn handle_buffer(store: &mut Store, buf: &[u8], now_ms: u64) -> (r: StepOutcome)
    requires
        old(store).wf(),
    ensures
        final(store).wf(),
        final(store)@ == spec_step(old(store)@, buf@, now_ms).0,
        step_models(r, spec_step(old(store)@, buf@, now_ms).1),
{
    match parse_protocol(buf) {
        ParseOutcome::Incomplete => StepOutcome::NeedMore,
        ParseOutcome::Malformed(f) => StepOutcome::Close(f),
        ParseOutcome::Parsed(v, _consumed) => {
            match parse_command(v) {
                Ok(cmd) => {
                    let reply = store.handle_command(cmd, now_ms);
                    StepOutcome::Reply(encode_protocol(reply))
                },
                Err(e) => {
                    let reply = error_response(e);
                    StepOutcome::Reply(encode_protocol(reply))
                },
            }
        },
    }
}

} // verus!
