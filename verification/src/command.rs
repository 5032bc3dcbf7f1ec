//! The command grammar: turns one decoded request envelope — an array of
//! bulk strings — into a typed, validated command.

use vstd::prelude::*;
use crate::protocol::{ProtocolData, ValueModel, valid_u64_line, line_int_val, eq_bytes, clone_bytes};

verus! {

/// A condition a SET may carry: only-if-absent or only-if-present.
#[derive(Clone, Copy, PartialEq, Eq, Debug)]
pub enum SetCond {
    NX,
    XX,
}

/// The expiration a SET may carry: relative seconds or milliseconds,
/// absolute seconds or milliseconds, or keeping the stored one.
#[derive(Clone, Copy, PartialEq, Eq, Debug)]
pub enum Expire {
    EX(u64),
    PX(u64),
    EXAT(u64),
    PXAT(u64),
    KEEPTTL,
}

/// Everything a SET request asked for.
#[derive(Debug, PartialEq)]
pub struct SetOpts {
    pub key: Vec<u8>,
    pub val: Vec<u8>,
    pub cond: Option<SetCond>,
    pub ret_old: bool,
    pub expire: Option<Expire>,
}

/// The model of a SET request, with byte strings as sequences.
pub struct SetOptsModel {
    pub key: Seq<u8>,
    pub val: Seq<u8>,
    pub cond: Option<SetCond>,
    pub ret_old: bool,
    pub expire: Option<Expire>,
}

impl View for SetOpts {
    type V = SetOptsModel;

    open spec fn view(&self) -> SetOptsModel {
        SetOptsModel {
            key: self.key@,
            val: self.val@,
            cond: self.cond,
            ret_old: self.ret_old,
            expire: self.expire,
        }
    }
}

impl Default for SetOpts {
    /// A SET with empty key and value and no options recorded yet.
    fn default() -> (r: SetOpts)
        ensures
            r@ == (SetOptsModel {
                key: Seq::<u8>::empty(),
                val: Seq::<u8>::empty(),
                cond: None,
                ret_old: false,
                expire: None,
            }),
    {
        SetOpts { key: Vec::new(), val: Vec::new(), cond: None, ret_old: false, expire: None }
    }
}

/// A validated request.
#[derive(Debug, PartialEq)]
pub enum Command {
    Ping,
    Echo(Vec<u8>),
    SetCmd(SetOpts),
    Get(Vec<u8>),
}

/// The model of a validated request.
pub enum CommandModel {
    Ping,
    Echo(Seq<u8>),
    SetCmd(SetOptsModel),
    Get(Seq<u8>),
}

impl View for Command {
    type V = CommandModel;

    open spec fn view(&self) -> CommandModel {
        match self {
            Command::Ping => CommandModel::Ping,
            Command::Echo(p) => CommandModel::Echo(p@),
            Command::SetCmd(o) => CommandModel::SetCmd(o@),
            Command::Get(k) => CommandModel::Get(k@),
        }
    }
}

/// Why a well-formed value was rejected as a request.
#[derive(Debug, PartialEq, Eq)]
pub enum ParseCommandError {
    UnrecognizedCommand(Vec<u8>),
    WrongProtocolDataType,
    WrongArguments,
}

/// The model of a rejection.
pub enum CmdError {
    Unrecognized(Seq<u8>),
    WrongType,
    WrongArgs,
}

impl View for ParseCommandError {
    type V = CmdError;

    open spec fn view(&self) -> CmdError {
        match self {
            ParseCommandError::UnrecognizedCommand(n) => CmdError::Unrecognized(n@),
            ParseCommandError::WrongProtocolDataType => CmdError::WrongType,
            ParseCommandError::WrongArguments => CmdError::WrongArgs,
        }
    }
}

/// ASCII uppercase of one byte.
pub open spec fn ascii_upper(b: u8) -> u8 {
    if 97 <= b <= 122 {
        (b - 32) as u8
    } else {
        b
    }
}

/// ASCII uppercase of a byte string: names are compared case-insensitively.
pub open spec fn upper_seq(s: Seq<u8>) -> Seq<u8> {
    Seq::new(s.len(), |i: int| ascii_upper(s[i]))
}

pub open spec fn lit_ping() -> Seq<u8> {
    seq![80u8, 73u8, 78u8, 71u8]
}

pub open spec fn lit_echo() -> Seq<u8> {
    seq![69u8, 67u8, 72u8, 79u8]
}

pub open spec fn lit_get() -> Seq<u8> {
    seq![71u8, 69u8, 84u8]
}

pub open spec fn lit_set() -> Seq<u8> {
    seq![83u8, 69u8, 84u8]
}

pub open spec fn lit_nx() -> Seq<u8> {
    seq![78u8, 88u8]
}

pub open spec fn lit_xx() -> Seq<u8> {
    seq![88u8, 88u8]
}

pub open spec fn lit_keepttl() -> Seq<u8> {
    seq![75u8, 69u8, 69u8, 80u8, 84u8, 84u8, 76u8]
}

pub open spec fn lit_ex() -> Seq<u8> {
    seq![69u8, 88u8]
}

pub open spec fn lit_px() -> Seq<u8> {
    seq![80u8, 88u8]
}

pub open spec fn lit_exat() -> Seq<u8> {
    seq![69u8, 88u8, 65u8, 84u8]
}

pub open spec fn lit_pxat() -> Seq<u8> {
    seq![80u8, 88u8, 65u8, 84u8]
}

/// The payload of a bulk string value; empty for any other variant.
pub open spec fn bulk_payload(m: ValueModel) -> Seq<u8> {
    match m {
        ValueModel::BulkString(p) => p,
        _ => Seq::empty(),
    }
}

/// A request envelope: every element of the array is a bulk string.
pub open spec fn bulk_args(vs: Seq<ValueModel>) -> bool {
    forall|i: int| 0 <= i < vs.len() ==> (#[trigger] vs[i]) matches ValueModel::BulkString(_)
}

/// The option scan of SET: walks the tokens after key and value left to
/// right, recording the return-previous flag, at most one condition and
/// at most one expiration; any other token, a repeated condition or
/// expiration, or a missing or non-numeric time operand rejects the
/// request.
pub open spec fn scan_set_opts(args: Seq<Seq<u8>>, i: int, o: SetOptsModel) -> Result<
    SetOptsModel,
    CmdError,
>
    decreases args.len() - i,
{
    if i < 0 || i >= args.len() {
        Ok(o)
    } else {
        let t = upper_seq(args[i]);
        if t == lit_get() {
            scan_set_opts(
                args,
                i + 1,
                SetOptsModel { ret_old: true, key: o.key, val: o.val, cond: o.cond, expire: o.expire },
            )
        } else if (t == lit_nx() || t == lit_xx()) && o.cond is None {
            scan_set_opts(
                args,
                i + 1,
                SetOptsModel {
                    cond: Some(if t == lit_nx() {
                        SetCond::NX
                    } else {
                        SetCond::XX
                    }),
                    key: o.key,
                    val: o.val,
                    ret_old: o.ret_old,
                    expire: o.expire,
                },
            )
        } else if t == lit_keepttl() && o.expire is None {
            scan_set_opts(
                args,
                i + 1,
                SetOptsModel {
                    expire: Some(Expire::KEEPTTL),
                    key: o.key,
                    val: o.val,
                    cond: o.cond,
                    ret_old: o.ret_old,
                },
            )
        } else if (t == lit_ex() || t == lit_px() || t == lit_exat() || t == lit_pxat())
            && o.expire is None && i + 1 < args.len() {
            if valid_u64_line(args[i + 1]) {
                let v = line_int_val(args[i + 1]) as u64;
                scan_set_opts(
                    args,
                    i + 2,
                    SetOptsModel {
                        expire: Some(
                            if t == lit_ex() {
                                Expire::EX(v)
                            } else if t == lit_px() {
                                Expire::PX(v)
                            } else if t == lit_exat() {
                                Expire::EXAT(v)
                            } else {
                                Expire::PXAT(v)
                            },
                        ),
                        key: o.key,
                        val: o.val,
                        cond: o.cond,
                        ret_old: o.ret_old,
                    },
                )
            } else {
                Err(CmdError::WrongArgs)
            }
        } else {
            Err(CmdError::WrongArgs)
        }
    }
}

/// The whole grammar: the request must be a non-empty array of bulk
/// strings; the first element, uppercased, names the command; the rest
/// are its arguments. PING takes none, ECHO and GET exactly one, SET a
/// key, a value and an option stream; any other name is unrecognized.
pub open spec fn spec_parse_command(m: ValueModel) -> Result<CommandModel, CmdError> {
    match m {
        ValueModel::Array(vs) => {
            if vs.len() == 0 || !bulk_args(vs) {
                Err(CmdError::WrongType)
            } else {
                let name = upper_seq(bulk_payload(vs[0]));
                let args = Seq::new((vs.len() - 1) as nat, |i: int| bulk_payload(vs[i + 1]));
                if name == lit_ping() {
                    if args.len() == 0 {
                        Ok(CommandModel::Ping)
                    } else {
                        Err(CmdError::WrongArgs)
                    }
                } else if name == lit_echo() {
                    if args.len() == 1 {
                        Ok(CommandModel::Echo(args[0]))
                    } else {
                        Err(CmdError::WrongArgs)
                    }
                } else if name == lit_get() {
                    if args.len() == 1 {
                        Ok(CommandModel::Get(args[0]))
                    } else {
                        Err(CmdError::WrongArgs)
                    }
                } else if name == lit_set() {
                    if args.len() < 2 {
                        Err(CmdError::WrongArgs)
                    } else {
                        match scan_set_opts(
                            args,
                            2,
                            SetOptsModel {
                                key: args[0],
                                val: args[1],
                                cond: None,
                                ret_old: false,
                                expire: None,
                            },
                        ) {
                            Ok(o) => Ok(CommandModel::SetCmd(o)),
                            Err(e) => Err(e),
                        }
                    }
                } else {
                    Err(CmdError::Unrecognized(name))
                }
            }
        },
        _ => Err(CmdError::WrongType),
    }
}

/// The grammar's verdict on a request, with byte strings as sequences.
pub open spec fn cmd_result_models(
    r: Result<Command, ParseCommandError>,
    m: Result<CommandModel, CmdError>,
) -> bool {
    match r {
        Ok(c) => m == Ok::<CommandModel, CmdError>(c@),
        Err(e) => m == Err::<CommandModel, CmdError>(e@),
    }
}

fn to_upper(s: &Vec<u8>) -> (r: Vec<u8>)
    ensures
        r@ == upper_seq(s@),
{
    let mut out: Vec<u8> = Vec::new();
    let n = s.len();
    let mut i: usize = 0;
    while i < n
        invariant
            0 <= i <= n,
            n == s@.len(),
            out@.len() == i,
            forall|t: int| 0 <= t < i ==> out@[t] == ascii_upper(s@[t]),
        decreases n - i,
    {
        let b = s[i];
        if 97 <= b && b <= 122 {
            out.push(b - 32);
        } else {
            out.push(b);
        }
        i = i + 1;
    }
    proof {
        assert(out@ =~= upper_seq(s@));
    }
    out
}

/// Parses the whole line `s` as an unsigned 64-bit decimal, allowing a
/// leading `+`, as time operands of SET are parsed.
fn parse_u64_line(s: &Vec<u8>) -> (r: Option<u64>)
    ensures
        match r {
            Some(v) => valid_u64_line(s@) && line_int_val(s@) == v,
            None => !valid_u64_line(s@),
        },
{
    crate::protocol::parse_u64_slice(s.as_slice())
}

/// Turns one decoded value into a validated command, or says exactly why
/// it is rejected.
#[verifier::loop_isolation(false)]
#[verifier::rlimit(60)]
pub fn parse_command(prot: ProtocolData) -> (r: Result<Command, ParseCommandError>)
    ensures
        cmd_result_models(r, spec_parse_command(prot@)),
{
    match prot {
        ProtocolData::Array(v) => {
            let ghost vsm = ProtocolData::view_elems(v@, 0);
            proof {
                crate::protocol::lemma_view_elems_props(v@, 0);
            }
            if v.len() == 0 {
                return Err(ParseCommandError::WrongProtocolDataType);
            }
            let name_raw = match &v[0] {
                ProtocolData::BulkString(p) => clone_bytes(p),
                _ => {
                    return Err(ParseCommandError::WrongProtocolDataType);
                },
            };
            let mut args: Vec<Vec<u8>> = Vec::new();
            let n = v.len();
            let mut i: usize = 1;
            while i < n
                invariant
                    1 <= i <= n,
                    args@.len() == i - 1,
                    forall|t: int| 1 <= t < i ==> (#[trigger] vsm[t]) matches ValueModel::BulkString(_),
                    forall|t: int| 0 <= t < i - 1 ==> (#[trigger] args@[t])@ == bulk_payload(
                        vsm[t + 1],
                    ),
                decreases n - i,
            {
                match &v[i] {
                    ProtocolData::BulkString(p) => {
                        args.push(clone_bytes(p));
                    },
                    _ => {
                        proof {
                            assert(!bulk_args(vsm));
                        }
                        return Err(ParseCommandError::WrongProtocolDataType);
                    },
                }
                i = i + 1;
            }
            proof {
                assert(bulk_args(vsm));
            }
            let ghost argsm = Seq::new((vsm.len() - 1) as nat, |t: int| bulk_payload(vsm[t + 1]));
            proof {
                assert(args@.len() == argsm.len());
                assert(forall|t: int| 0 <= t < argsm.len() ==> (#[trigger] args@[t])@ == argsm[t]);
            }
            let name = to_upper(&name_raw);
            proof {
                assert(name@ == upper_seq(bulk_payload(vsm[0])));
            }
            if eq_bytes(&name, &vec![80u8, 73u8, 78u8, 71u8]) {
                if args.len() == 0 {
                    Ok(Command::Ping)
                } else {
                    Err(ParseCommandError::WrongArguments)
                }
            } else if eq_bytes(&name, &vec![69u8, 67u8, 72u8, 79u8]) {
                if args.len() == 1 {
                    Ok(Command::Echo(clone_bytes(&args[0])))
                } else {
                    Err(ParseCommandError::WrongArguments)
                }
            } else if eq_bytes(&name, &vec![71u8, 69u8, 84u8]) {
                if args.len() == 1 {
                    Ok(Command::Get(clone_bytes(&args[0])))
                } else {
                    Err(ParseCommandError::WrongArguments)
                }
            } else if eq_bytes(&name, &vec![83u8, 69u8, 84u8]) {
                if args.len() < 2 {
                    return Err(ParseCommandError::WrongArguments);
                }
                let key = clone_bytes(&args[0]);
                let val = clone_bytes(&args[1]);
                let mut cond: Option<SetCond> = None;
                let mut ret_old: bool = false;
                let mut expire: Option<Expire> = None;
                let mut idx: usize = 2;
                let ghost init = SetOptsModel {
                    key: argsm[0],
                    val: argsm[1],
                    cond: None,
                    ret_old: false,
                    expire: None,
                };
                while idx < args.len()
                    invariant
                        2 <= idx <= args@.len(),
                        key@ == argsm[0],
                        val@ == argsm[1],
                        scan_set_opts(argsm, 2, init) == scan_set_opts(
                            argsm,
                            idx as int,
                            SetOptsModel {
                                key: key@,
                                val: val@,
                                cond: cond,
                                ret_old: ret_old,
                                expire: expire,
                            },
                        ),
                    decreases args@.len() - idx,
                {
                    let t = to_upper(&args[idx]);
                    proof {
                        assert(t@ == upper_seq(argsm[idx as int]));
                    }
                    if eq_bytes(&t, &vec![71u8, 69u8, 84u8]) {
                        ret_old = true;
                        idx = idx + 1;
                    } else if eq_bytes(&t, &vec![78u8, 88u8]) && cond.is_none() {
                        cond = Some(SetCond::NX);
                        idx = idx + 1;
                    } else if eq_bytes(&t, &vec![88u8, 88u8]) && cond.is_none() {
                        cond = Some(SetCond::XX);
                        idx = idx + 1;
                    } else if eq_bytes(&t, &vec![75u8, 69u8, 69u8, 80u8, 84u8, 84u8, 76u8])
                        && expire.is_none() {
                        expire = Some(Expire::KEEPTTL);
                        idx = idx + 1;
                    } else if (eq_bytes(&t, &vec![69u8, 88u8]) || eq_bytes(&t, &vec![80u8, 88u8])
                        || eq_bytes(&t, &vec![69u8, 88u8, 65u8, 84u8]) || eq_bytes(
                        &t,
                        &vec![80u8, 88u8, 65u8, 84u8],
                    )) && expire.is_none() && idx + 1 < args.len() {
                        match parse_u64_line(&args[idx + 1]) {
                            Some(tv) => {
                                if eq_bytes(&t, &vec![69u8, 88u8]) {
                                    expire = Some(Expire::EX(tv));
                                } else if eq_bytes(&t, &vec![80u8, 88u8]) {
                                    expire = Some(Expire::PX(tv));
                                } else if eq_bytes(&t, &vec![69u8, 88u8, 65u8, 84u8]) {
                                    expire = Some(Expire::EXAT(tv));
                                } else {
                                    expire = Some(Expire::PXAT(tv));
                                }
                                idx = idx + 2;
                            },
                            None => {
                                return Err(ParseCommandError::WrongArguments);
                            },
                        }
                    } else {
                        return Err(ParseCommandError::WrongArguments);
                    }
                }
                Ok(
                    Command::SetCmd(
                        SetOpts { key: key, val: val, cond: cond, ret_old: ret_old, expire: expire },
                    ),
                )
            } else {
                Err(ParseCommandError::UnrecognizedCommand(name))
            }
        },
        _ => Err(ParseCommandError::WrongProtocolDataType),
    }
}

} // verus!
