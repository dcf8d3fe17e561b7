//! Client command parsing: from a wire message to a typed command.

use vstd::prelude::*;

use crate::messages::{Message, MessageVal, unpack_string, copy_bytes};
use crate::store::{Entry, EntryVal, StreamData};
use crate::util::{spec_lower, to_lower, bytes_eq};
use crate::num::{spec_parse_u64, parse_u64};

verus! {

#[derive(Debug)]
pub struct XADDParams {
    pub key: Vec<u8>,
    pub id: Vec<u8>,
    pub values: StreamData,
}

#[derive(Debug)]
pub struct XRANGEParams {
    pub key: Vec<u8>,
    pub start: Vec<u8>,
    pub end: Vec<u8>,
}

#[derive(Debug)]
pub struct XREADParams {
    pub block: Option<u64>,
    pub wait: bool,
    pub requests: Vec<(Vec<u8>, Vec<u8>)>,
}

/// A parsed client command.
#[derive(Debug)]
pub enum Command {
    Echo(Vec<u8>),
    Ping,
    SetValue(Vec<u8>, Entry),
    Get(Vec<u8>),
    Info(Vec<u8>),
    Replconf(Vec<Vec<u8>>),
    Psync(Vec<Vec<u8>>),
    Wait(usize, u64),
    Config(Vec<u8>, Vec<u8>),
    Keys(Vec<u8>),
    Type(Vec<u8>),
    XADD(XADDParams),
    XRANGE(XRANGEParams),
    XREAD(XREADParams),
}

pub enum CommandVal {
    Echo(Seq<u8>),
    Ping,
    SetValue(Seq<u8>, EntryVal),
    Get(Seq<u8>),
    Info(Seq<u8>),
    Replconf(Seq<Seq<u8>>),
    Psync(Seq<Seq<u8>>),
    Wait(int, u64),
    Config(Seq<u8>, Seq<u8>),
    Keys(Seq<u8>),
    Type(Seq<u8>),
    XADD { key: Seq<u8>, id: Seq<u8>, values: Seq<(Seq<u8>, Seq<u8>)> },
    XRANGE { key: Seq<u8>, start: Seq<u8>, end: Seq<u8> },
    XREAD { block: Option<u64>, wait: bool, requests: Seq<(Seq<u8>, Seq<u8>)> },
}

impl View for Command {
    type V = CommandVal;

    open spec fn view(&self) -> CommandVal {
        match self {
            Command::Echo(v) => CommandVal::Echo(v@),
            Command::Ping => CommandVal::Ping,
            Command::SetValue(k, e) => CommandVal::SetValue(k@, e@),
            Command::Get(k) => CommandVal::Get(k@),
            Command::Info(v) => CommandVal::Info(v@),
            Command::Replconf(args) => CommandVal::Replconf(
                args@.map_values(|a: Vec<u8>| a@),
            ),
            Command::Psync(args) => CommandVal::Psync(args@.map_values(|a: Vec<u8>| a@)),
            Command::Wait(n, t) => CommandVal::Wait(*n as int, *t),
            Command::Config(a, k) => CommandVal::Config(a@, k@),
            Command::Keys(p) => CommandVal::Keys(p@),
            Command::Type(k) => CommandVal::Type(k@),
            Command::XADD(p) => CommandVal::XADD { key: p.key@, id: p.id@, values: p.values@ },
            Command::XRANGE(p) => CommandVal::XRANGE {
                key: p.key@,
                start: p.start@,
                end: p.end@,
            },
            Command::XREAD(p) => CommandVal::XREAD {
                block: p.block,
                wait: p.wait,
                requests: p.requests@.map_values(|q: (Vec<u8>, Vec<u8>)| (q.0@, q.1@)),
            },
        }
    }
}

/// Why a message is not a command.
#[derive(Debug, Clone, PartialEq, Eq)]
pub enum CommandError {
    NotArray,
    BadArg,
    Incomplete,
    NotPairs,
    BadNumber,
    BadXread,
    Unsupported(Vec<u8>),
}

pub enum CommandErrorVal {
    NotArray,
    BadArg,
    Incomplete,
    NotPairs,
    BadNumber,
    BadXread,
    Unsupported(Seq<u8>),
}

impl View for CommandError {
    type V = CommandErrorVal;

    open spec fn view(&self) -> CommandErrorVal {
        match self {
            CommandError::NotArray => CommandErrorVal::NotArray,
            CommandError::BadArg => CommandErrorVal::BadArg,
            CommandError::Incomplete => CommandErrorVal::Incomplete,
            CommandError::NotPairs => CommandErrorVal::NotPairs,
            CommandError::BadNumber => CommandErrorVal::BadNumber,
            CommandError::BadXread => CommandErrorVal::BadXread,
            CommandError::Unsupported(v) => CommandErrorVal::Unsupported(v@),
        }
    }
}

/// The text a simple or bulk string carries.
pub open spec fn spec_unpack(m: MessageVal) -> Option<Seq<u8>> {
    match m {
        MessageVal::SimpleString(s) => Some(s),
        MessageVal::BulkString(s) => Some(s),
        _ => None,
    }
}

pub open spec fn all_unpackable(items: Seq<MessageVal>) -> bool {
    forall|i: int| 0 <= i < items.len() ==> spec_unpack(#[trigger] items[i]) is Some
}

pub open spec fn unpacked(items: Seq<MessageVal>) -> Seq<Seq<u8>> {
    Seq::new(items.len(), |i: int| spec_unpack(items[i])->Some_0)
}

pub open spec fn px_bytes() -> Seq<u8> {
    seq![112u8, 120u8]
}

/// The `PX <ms>` clause of SET: present from the fourth argument on, with a
/// case-insensitive tag; a count that is not an unsigned number is refused.
pub open spec fn spec_get_expiry(args: Seq<MessageVal>) -> Result<Option<u64>, CommandErrorVal> {
    if args.len() < 4 {
        Ok(None)
    } else {
        let tag = match spec_unpack(args[2]) {
            Some(t) => t,
            None => Seq::empty(),
        };
        if spec_lower(tag) != px_bytes() {
            Ok(None)
        } else {
            match spec_unpack(args[3]) {
                Some(t) => (match spec_parse_u64(t) {
                    Some(v) => Ok(Some(v)),
                    None => Err(CommandErrorVal::BadNumber),
                }),
                None => Err(CommandErrorVal::BadArg),
            }
        }
    }
}

/// The absolute expiry an entry built now would carry.
pub open spec fn spec_entry_of(value: Seq<u8>, expiry: Option<u64>, now_ms: u64) -> EntryVal {
    EntryVal {
        value,
        expiry_at: (match expiry {
            Some(d) => Some(
                if now_ms + d <= u64::MAX {
                    (now_ms + d) as u64
                } else {
                    u64::MAX
                },
            ),
            None => None::<u64>,
        }),
    }
}

pub open spec fn streams_bytes() -> Seq<u8> {
    seq![115u8, 116u8, 114u8, 101u8, 97u8, 109u8, 115u8]
}

pub open spec fn block_bytes() -> Seq<u8> {
    seq![98u8, 108u8, 111u8, 99u8, 107u8]
}

/// Field/value pairs from an even run of unpackable arguments, in order.
pub open spec fn spec_pairs_of(items: Seq<Seq<u8>>) -> Seq<(Seq<u8>, Seq<u8>)> {
    Seq::new(items.len() / 2, |i: int| (items[2 * i], items[2 * i + 1]))
}

/// What each verb demands of its arguments and what command it yields: the
/// exact mirror of `parse_client_command`.
pub open spec fn spec_parse_client(m: MessageVal, now_ms: u64) -> Result<CommandVal, CommandErrorVal> {
    match m {
        MessageVal::Array(items) => {
            if items.len() < 1 {
                Err(CommandErrorVal::BadArg)
            } else {
                match spec_unpack(items[0]) {
                    None => Err(CommandErrorVal::BadArg),
                    Some(verb_raw) => {
                        let verb = spec_lower(verb_raw);
                        let args = items.drop_first();
                        spec_dispatch_verb(verb, args, now_ms)
                    },
                }
            }
        },
        _ => Err(CommandErrorVal::NotArray),
    }
}

pub open spec fn spec_dispatch_verb(verb: Seq<u8>, args: Seq<MessageVal>, now_ms: u64) -> Result<
    CommandVal,
    CommandErrorVal,
> {
    if verb == seq![112u8, 105u8, 110u8, 103u8] {  // "ping"
        Ok(CommandVal::Ping)
    } else if verb == seq![101u8, 99u8, 104u8, 111u8] {  // "echo"
        if args.len() < 1 {
            Err(CommandErrorVal::BadArg)
        } else {
            match spec_unpack(args[0]) {
                Some(v) => Ok(CommandVal::Echo(v)),
                None => Err(CommandErrorVal::BadArg),
            }
        }
    } else if verb == seq![115u8, 101u8, 116u8] {  // "set"
        if args.len() < 2 {
            Err(CommandErrorVal::Incomplete)
        } else {
            match (spec_unpack(args[0]), spec_unpack(args[1])) {
                (Some(k), Some(v)) => (match spec_get_expiry(args) {
                    Ok(exp) => Ok(CommandVal::SetValue(k, spec_entry_of(v, exp, now_ms))),
                    Err(e) => Err(e),
                }),
                _ => Err(CommandErrorVal::BadArg),
            }
        }
    } else if verb == seq![103u8, 101u8, 116u8] {  // "get"
        if args.len() < 1 {
            Err(CommandErrorVal::BadArg)
        } else {
            match spec_unpack(args[0]) {
                Some(k) => Ok(CommandVal::Get(k)),
                None => Err(CommandErrorVal::BadArg),
            }
        }
    } else if verb == seq![105u8, 110u8, 102u8, 111u8] {  // "info"
        if args.len() == 0 {
            Ok(CommandVal::Info(Seq::empty()))
        } else {
            match spec_unpack(args[0]) {
                Some(v) => Ok(CommandVal::Info(v)),
                None => Err(CommandErrorVal::BadArg),
            }
        }
    } else if verb == seq![114u8, 101u8, 112u8, 108u8, 99u8, 111u8, 110u8, 102u8] {  // "replconf"
        if all_unpackable(args) {
            Ok(CommandVal::Replconf(unpacked(args)))
        } else {
            Err(CommandErrorVal::BadArg)
        }
    } else if verb == seq![112u8, 115u8, 121u8, 110u8, 99u8] {  // "psync"
        if all_unpackable(args) {
            Ok(CommandVal::Psync(unpacked(args)))
        } else {
            Err(CommandErrorVal::BadArg)
        }
    } else if verb == seq![119u8, 97u8, 105u8, 116u8] {  // "wait"
        if args.len() < 2 {
            Err(CommandErrorVal::Incomplete)
        } else {
            match (spec_unpack(args[0]), spec_unpack(args[1])) {
                (Some(a), Some(b)) => (match (spec_parse_u64(a), spec_parse_u64(b)) {
                    (Some(n), Some(t)) => if n <= usize::MAX {
                        Ok(CommandVal::Wait(n as int, t))
                    } else {
                        Err(CommandErrorVal::BadNumber)
                    },
                    _ => Err(CommandErrorVal::BadNumber),
                }),
                _ => Err(CommandErrorVal::BadArg),
            }
        }
    } else if verb == seq![99u8, 111u8, 110u8, 102u8, 105u8, 103u8] {  // "config"
        if args.len() < 2 {
            Err(CommandErrorVal::Incomplete)
        } else {
            match (spec_unpack(args[0]), spec_unpack(args[1])) {
                (Some(a), Some(k)) => Ok(CommandVal::Config(a, k)),
                _ => Err(CommandErrorVal::BadArg),
            }
        }
    } else if verb == seq![107u8, 101u8, 121u8, 115u8] {  // "keys"
        if args.len() == 0 {
            Ok(CommandVal::Keys(Seq::empty()))
        } else {
            match spec_unpack(args[0]) {
                Some(v) => Ok(CommandVal::Keys(v)),
                None => Err(CommandErrorVal::BadArg),
            }
        }
    } else if verb == seq![116u8, 121u8, 112u8, 101u8] {  // "type"
        if args.len() == 0 {
            Ok(CommandVal::Type(Seq::empty()))
        } else {
            match spec_unpack(args[0]) {
                Some(v) => Ok(CommandVal::Type(v)),
                None => Err(CommandErrorVal::BadArg),
            }
        }
    } else if verb == seq![120u8, 97u8, 100u8, 100u8] {  // "xadd"
        if args.len() < 1 {
            Err(CommandErrorVal::Incomplete)
        } else {
            match spec_unpack(args[0]) {
                None => Err(CommandErrorVal::BadArg),
                Some(k) => if args.len() < 2 {
                    Err(CommandErrorVal::Incomplete)
                } else {
                    match spec_unpack(args[1]) {
                        None => Err(CommandErrorVal::BadArg),
                        Some(id) => {
                            let fields = args.skip(2);
                            if fields.len() % 2 != 0 {
                                Err(CommandErrorVal::NotPairs)
                            } else if all_unpackable(fields) {
                                Ok(
                                    CommandVal::XADD {
                                        key: k,
                                        id: id,
                                        values: spec_pairs_of(unpacked(fields)),
                                    },
                                )
                            } else {
                                Err(CommandErrorVal::BadArg)
                            }
                        },
                    }
                },
            }
        }
    } else if verb == seq![120u8, 114u8, 97u8, 110u8, 103u8, 101u8] {  // "xrange"
        if args.len() < 1 {
            Err(CommandErrorVal::Incomplete)
        } else {
            match spec_unpack(args[0]) {
                None => Err(CommandErrorVal::BadArg),
                Some(k) => if args.len() < 2 {
                    Err(CommandErrorVal::Incomplete)
                } else {
                    match spec_unpack(args[1]) {
                        None => Err(CommandErrorVal::BadArg),
                        Some(st) => if args.len() < 3 {
                            Err(CommandErrorVal::Incomplete)
                        } else {
                            match spec_unpack(args[2]) {
                                None => Err(CommandErrorVal::BadArg),
                                Some(en) => Ok(
                                    CommandVal::XRANGE { key: k, start: st, end: en },
                                ),
                            }
                        },
                    }
                },
            }
        }
    } else if verb == seq![120u8, 114u8, 101u8, 97u8, 100u8] {  // "xread"
        spec_parse_xread(args, now_ms)
    } else {
        Err(CommandErrorVal::Unsupported(verb))
    }
}

pub open spec fn spec_parse_xread(args: Seq<MessageVal>, now_ms: u64) -> Result<
    CommandVal,
    CommandErrorVal,
> {
    if args.len() < 1 {
        Err(CommandErrorVal::Incomplete)
    } else {
        match spec_unpack(args[0]) {
            None => Err(CommandErrorVal::BadArg),
            Some(first_raw) => {
                let first = spec_lower(first_raw);
                if first == streams_bytes() {
                    spec_xread_requests(args, 1, None, false)
                } else if first == block_bytes() {
                    if args.len() < 2 {
                        Err(CommandErrorVal::Incomplete)
                    } else {
                        match spec_unpack(args[1]) {
                            None => Err(CommandErrorVal::BadArg),
                            Some(draw) => (match spec_parse_u64(draw) {
                                Some(d) => spec_xread_requests(args, 3, Some(d), d == 0),
                                None => Err(CommandErrorVal::BadNumber),
                            }),
                        }
                    }
                } else {
                    Err(CommandErrorVal::BadXread)
                }
            },
        }
    }
}

pub open spec fn spec_xread_requests(
    args: Seq<MessageVal>,
    marker: int,
    block: Option<u64>,
    wait: bool,
) -> Result<CommandVal, CommandErrorVal> {
    if args.len() < marker || (args.len() - marker) % 2 != 0 {
        Err(CommandErrorVal::BadXread)
    } else {
        let amount = (args.len() - marker) / 2;
        let rest = args.skip(marker);
        if all_unpackable(rest) {
            Ok(
                CommandVal::XREAD {
                    block,
                    wait,
                    requests: Seq::new(
                        amount as nat,
                        |i: int|
                            (
                                spec_unpack(args[marker + i])->Some_0,
                                spec_unpack(args[marker + amount + i])->Some_0,
                            ),
                    ),
                },
            )
        } else {
            Err(CommandErrorVal::BadArg)
        }
    }
}

/// The verb and its arguments, from an array message.
pub fn parse_command(message: &Message) -> (r: Result<(Vec<u8>, Vec<Message>), CommandError>)
    ensures
        (match r {
            Ok(p) => (match message@ {
                MessageVal::Array(itemsv) => itemsv.len() >= 1 && spec_unpack(itemsv[0]) == Some(
                    p.0@,
                ) && crate::messages::msgs_view(p.1@) == itemsv.drop_first(),
                _ => false,
            }),
            Err(e) => (match message@ {
                MessageVal::Array(itemsv) => (itemsv.len() == 0 || spec_unpack(itemsv[0]) is None)
                    && e@ == CommandErrorVal::BadArg,
                _ => e@ == CommandErrorVal::NotArray,
            }),
        }),
{
    match message {
        Message::Array(items) => {
            proof {
                crate::messages::lemma_msgs_view_index(items@);
            }
            if items.len() == 0 {
                return Err(CommandError::BadArg);
            }
            let verb = match unpack_string(&items[0]) {
                Ok(v) => v,
                Err(e) => {
                    return Err(CommandError::BadArg);
                },
            };
            let mut args: Vec<Message> = Vec::new();
            let mut i: usize = 1;
            proof {
                assert(crate::messages::msgs_view(args@) =~= crate::messages::msgs_view(
                    items@,
                ).subrange(1, 1));
            }
            while i < items.len()
                invariant
                    1 <= i <= items@.len(),
                    crate::messages::msgs_view(items@).len() == items@.len(),
                    forall|j: int|
                        0 <= j < items@.len() ==> crate::messages::msgs_view(items@)[j]
                            == crate::messages::msg_view(items@[j]),
                    crate::messages::msgs_view(args@) == crate::messages::msgs_view(
                        items@,
                    ).subrange(1, i as int),
                decreases items@.len() - i,
            {
                let copy = items[i].duplicate();
                proof {
                    crate::messages::lemma_msgs_view_push(args@, copy);
                    assert(crate::messages::msgs_view(items@).subrange(1, i as int).push(
                        crate::messages::msg_view(items@[i as int]),
                    ) =~= crate::messages::msgs_view(items@).subrange(1, i + 1));
                }
                args.push(copy);
                i += 1;
            }
            proof {
                assert(crate::messages::msgs_view(items@).subrange(
                    1,
                    items@.len() as int,
                ) =~= crate::messages::msgs_view(items@).drop_first());
            }
            Ok((verb, args))
        },
        _ => Err(CommandError::NotArray),
    }
}

/// The key and value arguments of SET.
pub fn get_key_value_from_args(args: &Vec<Message>) -> (r: Result<(Vec<u8>, Vec<u8>), CommandError>)
    ensures
        ({
            let a = crate::messages::msgs_view(args@);
            match r {
                Ok(kv) => a.len() >= 2 && spec_unpack(a[0]) == Some(kv.0@) && spec_unpack(a[1])
                    == Some(kv.1@),
                Err(e) => if a.len() < 2 {
                    e@ == CommandErrorVal::Incomplete
                } else {
                    e@ == CommandErrorVal::BadArg && (spec_unpack(a[0]) is None || spec_unpack(
                        a[1],
                    ) is None)
                },
            }
        }),
{
    proof {
        crate::messages::lemma_msgs_view_index(args@);
    }
    if args.len() < 2 {
        return Err(CommandError::Incomplete);
    }
    let key = match unpack_string(&args[0]) {
        Ok(v) => v,
        Err(e) => {
            return Err(CommandError::BadArg);
        },
    };
    let value = match unpack_string(&args[1]) {
        Ok(v) => v,
        Err(e) => {
            return Err(CommandError::BadArg);
        },
    };
    Ok((key, value))
}

/// The `n`-th argument as text.
pub fn get_string_from_args(args: &Vec<Message>, n: usize) -> (r: Result<Vec<u8>, CommandError>)
    ensures
        ({
            let a = crate::messages::msgs_view(args@);
            match r {
                Ok(v) => n < a.len() && spec_unpack(a[n as int]) == Some(v@),
                Err(e) => if a.len() <= n {
                    e@ == CommandErrorVal::Incomplete
                } else {
                    e@ == CommandErrorVal::BadArg && spec_unpack(a[n as int]) is None
                },
            }
        }),
{
    proof {
        crate::messages::lemma_msgs_view_index(args@);
    }
    if args.len() <= n {
        return Err(CommandError::Incomplete);
    }
    match unpack_string(&args[n]) {
        Ok(v) => Ok(v),
        Err(e) => Err(CommandError::BadArg),
    }
}

/// Field/value pairs for XADD, taken pairwise in argument order.
pub fn get_stream_data(messages: &[Message]) -> (r: Result<StreamData, CommandError>)
    ensures
        ({
            let a = crate::messages::msgs_view(messages@);
            match r {
                Ok(sd) => a.len() % 2 == 0 && all_unpackable(a) && sd@ == spec_pairs_of(
                    unpacked(a),
                ),
                Err(e) => if a.len() % 2 != 0 {
                    e@ == CommandErrorVal::NotPairs
                } else {
                    e@ == CommandErrorVal::BadArg && !all_unpackable(a)
                },
            }
        }),
{
    let ghost a = crate::messages::msgs_view(messages@);
    proof {
        crate::messages::lemma_msgs_view_index(messages@);
    }
    if messages.len() % 2 != 0 {
        return Err(CommandError::NotPairs);
    }
    let mut data: Vec<(Vec<u8>, Vec<u8>)> = Vec::new();
    let mut i: usize = 0;
    while i < messages.len()
        invariant
            a == crate::messages::msgs_view(messages@),
            a.len() == messages@.len(),
            forall|j: int|
                0 <= j < messages@.len() ==> a[j] == crate::messages::msg_view(messages@[j]),
            a.len() % 2 == 0,
            i % 2 == 0,
            0 <= i <= a.len(),
            data@.len() == i / 2,
            forall|j: int|
                0 <= j < i / 2 ==> spec_unpack(a[2 * j]) == Some((#[trigger] data@[j]).0@)
                    && spec_unpack(a[2 * j + 1]) == Some(data@[j].1@),
        decreases messages@.len() - i,
    {
        proof {
            assert(i + 1 < a.len()) by {
                assert(i % 2 == 0 && a.len() % 2 == 0 && i < a.len());
            }
        }
        let key = match unpack_string(&messages[i]) {
            Ok(v) => v,
            Err(e) => {
                proof {
                    assert(spec_unpack(a[i as int]) is None);
                    assert(!all_unpackable(a));
                }
                return Err(CommandError::BadArg);
            },
        };
        let val = match unpack_string(&messages[i + 1]) {
            Ok(v) => v,
            Err(e) => {
                proof {
                    assert(spec_unpack(a[i + 1]) is None);
                    assert(!all_unpackable(a));
                }
                return Err(CommandError::BadArg);
            },
        };
        data.push((key, val));
        i += 2;
    }
    let ghost dv = data@;
    let sd = StreamData { data };
    proof {
        assert forall|j: int| 0 <= j < a.len() implies spec_unpack(#[trigger] a[j]) is Some by {
            if j % 2 == 0 {
                assert(spec_unpack(a[2 * (j / 2)]) == Some(dv[j / 2].0@));
            } else {
                assert(spec_unpack(a[2 * (j / 2) + 1]) == Some(dv[j / 2].1@));
            }
        }
        assert(sd@ =~= spec_pairs_of(unpacked(a)));
    }
    Ok(sd)
}

/// The CONFIG action and key.
pub fn get_config_params_from_args(args: &Vec<Message>) -> (r: Result<
    (Vec<u8>, Vec<u8>),
    CommandError,
>)
    ensures
        ({
            let a = crate::messages::msgs_view(args@);
            match r {
                Ok(kv) => a.len() >= 2 && spec_unpack(a[0]) == Some(kv.0@) && spec_unpack(a[1])
                    == Some(kv.1@),
                Err(e) => if a.len() < 2 {
                    e@ == CommandErrorVal::Incomplete
                } else {
                    e@ == CommandErrorVal::BadArg && (spec_unpack(a[0]) is None || spec_unpack(
                        a[1],
                    ) is None)
                },
            }
        }),
{
    get_key_value_from_args(args)
}

/// The optional `PX <ms>` time-to-live of SET, in milliseconds.
pub fn get_expiry_from_args(args: &Vec<Message>) -> (r: Result<Option<u64>, CommandError>)
    ensures
        (match (r, spec_get_expiry(crate::messages::msgs_view(args@))) {
            (Ok(v), Ok(sv)) => v == sv,
            (Err(e), Err(se)) => e@ == se,
            _ => false,
        }),
{
    let ghost a = crate::messages::msgs_view(args@);
    proof {
        crate::messages::lemma_msgs_view_index(args@);
    }
    if args.len() < 4 {
        return Ok(None);
    }
    let tag: Vec<u8> = match unpack_string(&args[2]) {
        Ok(v) => v,
        Err(e) => Vec::new(),
    };
    let lowered = to_lower(tag.as_slice());
    let px: Vec<u8> = vec![112, 120];
    proof {
        assert(px@ =~= px_bytes());
    }
    if !bytes_eq(lowered.as_slice(), px.as_slice()) {
        return Ok(None);
    }
    let t = match unpack_string(&args[3]) {
        Ok(t) => t,
        Err(e) => {
            return Err(CommandError::BadArg);
        },
    };
    match parse_u64(t.as_slice()) {
        Some(v) => Ok(Some(v)),
        None => Err(CommandError::BadNumber),
    }
}

/// The replica count and timeout of WAIT.
pub fn get_wait_args(args: &Vec<Message>) -> (r: Result<(usize, u64), CommandError>)
    ensures
        ({
            let a = crate::messages::msgs_view(args@);
            match r {
                Ok(p) => a.len() >= 2 && (match (spec_unpack(a[0]), spec_unpack(a[1])) {
                    (Some(x), Some(y)) => spec_parse_u64(x) == Some(p.0 as u64) && p.0 as u64
                        <= usize::MAX && spec_parse_u64(y) == Some(p.1),
                    _ => false,
                }),
                Err(e) => if a.len() < 2 {
                    e@ == CommandErrorVal::Incomplete
                } else {
                    (match (spec_unpack(a[0]), spec_unpack(a[1])) {
                        (Some(x), Some(y)) => e@ == CommandErrorVal::BadNumber && (spec_parse_u64(
                            x,
                        ) is None || spec_parse_u64(y) is None || spec_parse_u64(x)->Some_0
                            > usize::MAX),
                        _ => e@ == CommandErrorVal::BadArg,
                    })
                },
            }
        }),
{
    proof {
        crate::messages::lemma_msgs_view_index(args@);
    }
    if args.len() < 2 {
        return Err(CommandError::Incomplete);
    }
    let xa = match unpack_string(&args[0]) {
        Ok(v) => v,
        Err(e) => {
            return Err(CommandError::BadArg);
        },
    };
    let ya = match unpack_string(&args[1]) {
        Ok(v) => v,
        Err(e) => {
            return Err(CommandError::BadArg);
        },
    };
    let n64 = match parse_u64(xa.as_slice()) {
        Some(v) => v,
        None => {
            return Err(CommandError::BadNumber);
        },
    };
    if n64 > usize::MAX as u64 {
        return Err(CommandError::BadNumber);
    }
    let t = match parse_u64(ya.as_slice()) {
        Some(v) => v,
        None => {
            return Err(CommandError::BadNumber);
        },
    };
    Ok((n64 as usize, t))
}

/// Parse one client message into a command; the mirror of
/// `spec_parse_client`, error for error.
pub fn parse_client_command(message: &Message, now_ms: u64) -> (r: Result<Command, CommandError>)
    ensures
        (match r {
            Ok(c) => spec_parse_client(message@, now_ms) == Ok::<CommandVal, CommandErrorVal>(c@),
            Err(e) => spec_parse_client(message@, now_ms) == Err::<CommandVal, CommandErrorVal>(
                e@,
            ),
        }),
{
    let (verb_raw, args) = match parse_command(message) {
        Ok(p) => p,
        Err(e) => {
            return Err(e);
        },
    };
    let verb = to_lower(verb_raw.as_slice());
    let ghost a = crate::messages::msgs_view(args@);
    proof {
        crate::messages::lemma_msgs_view_index(args@);
    }
    let lit_ping: Vec<u8> = vec![112, 105, 110, 103];
    if bytes_eq(verb.as_slice(), lit_ping.as_slice()) {
        proof {
            assert(lit_ping@ =~= seq![112u8, 105u8, 110u8, 103u8]);
        }
        return Ok(Command::Ping);
    }
    let lit_echo: Vec<u8> = vec![101, 99, 104, 111];
    if bytes_eq(verb.as_slice(), lit_echo.as_slice()) {
        proof {
            assert(lit_echo@ =~= seq![101u8, 99u8, 104u8, 111u8]);
        }
        if args.len() < 1 {
            return Err(CommandError::BadArg);
        }
        match unpack_string(&args[0]) {
            Ok(v) => {
                return Ok(Command::Echo(v));
            },
            Err(e) => {
                return Err(CommandError::BadArg);
            },
        }
    }
    let lit_set: Vec<u8> = vec![115, 101, 116];
    if bytes_eq(verb.as_slice(), lit_set.as_slice()) {
        proof {
            assert(lit_set@ =~= seq![115u8, 101u8, 116u8]);
        }
        let (key, value) = match get_key_value_from_args(&args) {
            Ok(p) => p,
            Err(e) => {
                return Err(e);
            },
        };
        let expiry = match get_expiry_from_args(&args) {
            Ok(exp) => exp,
            Err(e) => {
                return Err(e);
            },
        };
        let entry = Entry::new(value, expiry, now_ms);
        return Ok(Command::SetValue(key, entry));
    }
    let lit_get: Vec<u8> = vec![103, 101, 116];
    if bytes_eq(verb.as_slice(), lit_get.as_slice()) {
        proof {
            assert(lit_get@ =~= seq![103u8, 101u8, 116u8]);
        }
        if args.len() < 1 {
            return Err(CommandError::BadArg);
        }
        match unpack_string(&args[0]) {
            Ok(v) => {
                return Ok(Command::Get(v));
            },
            Err(e) => {
                return Err(CommandError::BadArg);
            },
        }
    }
    let lit_info: Vec<u8> = vec![105, 110, 102, 111];
    if bytes_eq(verb.as_slice(), lit_info.as_slice()) {
        proof {
            assert(lit_info@ =~= seq![105u8, 110u8, 102u8, 111u8]);
        }
        if args.len() == 0 {
            let empty: Vec<u8> = Vec::new();
            proof {
                assert(empty@ =~= Seq::<u8>::empty());
            }
            return Ok(Command::Info(empty));
        }
        match unpack_string(&args[0]) {
            Ok(v) => {
                return Ok(Command::Info(v));
            },
            Err(e) => {
                return Err(CommandError::BadArg);
            },
        }
    }
    let lit_replconf: Vec<u8> = vec![114, 101, 112, 108, 99, 111, 110, 102];
    if bytes_eq(verb.as_slice(), lit_replconf.as_slice()) {
        proof {
            assert(lit_replconf@ =~= seq![114u8, 101u8, 112u8, 108u8, 99u8, 111u8, 110u8, 102u8]);
        }
        match unpack_all(&args) {
            Ok(v) => {
                return Ok(Command::Replconf(v));
            },
            Err(e) => {
                return Err(e);
            },
        }
    }
    let lit_psync: Vec<u8> = vec![112, 115, 121, 110, 99];
    if bytes_eq(verb.as_slice(), lit_psync.as_slice()) {
        proof {
            assert(lit_psync@ =~= seq![112u8, 115u8, 121u8, 110u8, 99u8]);
        }
        match unpack_all(&args) {
            Ok(v) => {
                return Ok(Command::Psync(v));
            },
            Err(e) => {
                return Err(e);
            },
        }
    }
    let lit_wait: Vec<u8> = vec![119, 97, 105, 116];
    if bytes_eq(verb.as_slice(), lit_wait.as_slice()) {
        proof {
            assert(lit_wait@ =~= seq![119u8, 97u8, 105u8, 116u8]);
        }
        match get_wait_args(&args) {
            Ok((n, t)) => {
                return Ok(Command::Wait(n, t));
            },
            Err(e) => {
                return Err(e);
            },
        }
    }
    let lit_config: Vec<u8> = vec![99, 111, 110, 102, 105, 103];
    if bytes_eq(verb.as_slice(), lit_config.as_slice()) {
        proof {
            assert(lit_config@ =~= seq![99u8, 111u8, 110u8, 102u8, 105u8, 103u8]);
        }
        match get_config_params_from_args(&args) {
            Ok((action, key)) => {
                return Ok(Command::Config(action, key));
            },
            Err(e) => {
                return Err(e);
            },
        }
    }
    let lit_keys: Vec<u8> = vec![107, 101, 121, 115];
    if bytes_eq(verb.as_slice(), lit_keys.as_slice()) {
        proof {
            assert(lit_keys@ =~= seq![107u8, 101u8, 121u8, 115u8]);
        }
        if args.len() == 0 {
            let empty: Vec<u8> = Vec::new();
            proof {
                assert(empty@ =~= Seq::<u8>::empty());
            }
            return Ok(Command::Keys(empty));
        }
        match unpack_string(&args[0]) {
            Ok(v) => {
                return Ok(Command::Keys(v));
            },
            Err(e) => {
                return Err(CommandError::BadArg);
            },
        }
    }
    let lit_type: Vec<u8> = vec![116, 121, 112, 101];
    if bytes_eq(verb.as_slice(), lit_type.as_slice()) {
        proof {
            assert(lit_type@ =~= seq![116u8, 121u8, 112u8, 101u8]);
        }
        if args.len() == 0 {
            let empty: Vec<u8> = Vec::new();
            proof {
                assert(empty@ =~= Seq::<u8>::empty());
            }
            return Ok(Command::Type(empty));
        }
        match unpack_string(&args[0]) {
            Ok(v) => {
                return Ok(Command::Type(v));
            },
            Err(e) => {
                return Err(CommandError::BadArg);
            },
        }
    }
    let lit_xadd: Vec<u8> = vec![120, 97, 100, 100];
    if bytes_eq(verb.as_slice(), lit_xadd.as_slice()) {
        proof {
            assert(lit_xadd@ =~= seq![120u8, 97u8, 100u8, 100u8]);
        }
        let key = match get_string_from_args(&args, 0) {
            Ok(v) => v,
            Err(e) => {
                return Err(e);
            },
        };
        let id = match get_string_from_args(&args, 1) {
            Ok(v) => v,
            Err(e) => {
                return Err(e);
            },
        };
        let fields = vstd::slice::slice_subrange(args.as_slice(), 2, args.len());
        proof {
            crate::messages::lemma_msgs_view_skip(args@, 2);
            assert(fields@ =~= args@.skip(2));
        }
        let data = match get_stream_data(fields) {
            Ok(v) => v,
            Err(e) => {
                return Err(e);
            },
        };
        return Ok(Command::XADD(XADDParams { key, id, values: data }));
    }
    let lit_xrange: Vec<u8> = vec![120, 114, 97, 110, 103, 101];
    if bytes_eq(verb.as_slice(), lit_xrange.as_slice()) {
        proof {
            assert(lit_xrange@ =~= seq![120u8, 114u8, 97u8, 110u8, 103u8, 101u8]);
        }
        let key = match get_string_from_args(&args, 0) {
            Ok(v) => v,
            Err(e) => {
                return Err(e);
            },
        };
        let start = match get_string_from_args(&args, 1) {
            Ok(v) => v,
            Err(e) => {
                return Err(e);
            },
        };
        let end = match get_string_from_args(&args, 2) {
            Ok(v) => v,
            Err(e) => {
                return Err(e);
            },
        };
        return Ok(Command::XRANGE(XRANGEParams { key, start, end }));
    }
    let lit_xread: Vec<u8> = vec![120, 114, 101, 97, 100];
    if bytes_eq(verb.as_slice(), lit_xread.as_slice()) {
        proof {
            assert(lit_xread@ =~= seq![120u8, 114u8, 101u8, 97u8, 100u8]);
        }
        return parse_xread(&args, now_ms);
    }
    Err(CommandError::Unsupported(verb))
}

/// Unpack every argument.
fn unpack_all(args: &Vec<Message>) -> (r: Result<Vec<Vec<u8>>, CommandError>)
    ensures
        ({
            let a = crate::messages::msgs_view(args@);
            match r {
                Ok(v) => all_unpackable(a) && v@.map_values(|x: Vec<u8>| x@) == unpacked(a),
                Err(e) => !all_unpackable(a) && e@ == CommandErrorVal::BadArg,
            }
        }),
{
    let ghost a = crate::messages::msgs_view(args@);
    proof {
        crate::messages::lemma_msgs_view_index(args@);
    }
    let mut out: Vec<Vec<u8>> = Vec::new();
    let mut i: usize = 0;
    while i < args.len()
        invariant
            a == crate::messages::msgs_view(args@),
            a.len() == args@.len(),
            forall|j: int| 0 <= j < args@.len() ==> a[j] == crate::messages::msg_view(args@[j]),
            0 <= i <= a.len(),
            out@.len() == i,
            forall|j: int| 0 <= j < i ==> spec_unpack(a[j]) == Some((#[trigger] out@[j])@),
        decreases args@.len() - i,
    {
        match unpack_string(&args[i]) {
            Ok(v) => {
                out.push(v);
            },
            Err(e) => {
                proof {
                    assert(spec_unpack(a[i as int]) is None);
                }
                return Err(CommandError::BadArg);
            },
        }
        i += 1;
    }
    proof {
        assert forall|j: int| 0 <= j < a.len() implies spec_unpack(#[trigger] a[j]) is Some by {
            assert(spec_unpack(a[j]) == Some((out@[j])@));
        }
        assert(out@.map_values(|x: Vec<u8>| x@) =~= unpacked(a));
    }
    Ok(out)
}

/// The XREAD grammar: `STREAMS k... id...`, optionally after `BLOCK ms`.
fn parse_xread(args: &Vec<Message>, now_ms: u64) -> (r: Result<Command, CommandError>)
    ensures
        ({
            let a = crate::messages::msgs_view(args@);
            match r {
                Ok(c) => spec_parse_xread(a, now_ms) == Ok::<CommandVal, CommandErrorVal>(c@),
                Err(e) => spec_parse_xread(a, now_ms) == Err::<CommandVal, CommandErrorVal>(e@),
            }
        }),
{
    let ghost a = crate::messages::msgs_view(args@);
    proof {
        crate::messages::lemma_msgs_view_index(args@);
    }
    if args.len() < 1 {
        return Err(CommandError::Incomplete);
    }
    let first_raw = match unpack_string(&args[0]) {
        Ok(v) => v,
        Err(e) => {
            return Err(CommandError::BadArg);
        },
    };
    let first = to_lower(first_raw.as_slice());
    let lit_streams: Vec<u8> = vec![115, 116, 114, 101, 97, 109, 115];
    let lit_block: Vec<u8> = vec![98, 108, 111, 99, 107];
    proof {
        assert(lit_streams@ =~= streams_bytes());
        assert(lit_block@ =~= block_bytes());
    }
    if bytes_eq(first.as_slice(), lit_streams.as_slice()) {
        return xread_requests(args, 1, None, false);
    }
    if bytes_eq(first.as_slice(), lit_block.as_slice()) {
        if args.len() < 2 {
            return Err(CommandError::Incomplete);
        }
        let draw = match unpack_string(&args[1]) {
            Ok(v) => v,
            Err(e) => {
                return Err(CommandError::BadArg);
            },
        };
        let d = match parse_u64(draw.as_slice()) {
            Some(v) => v,
            None => {
                return Err(CommandError::BadNumber);
            },
        };
        return xread_requests(args, 3, Some(d), d == 0);
    }
    Err(CommandError::BadXread)
}

fn xread_requests(args: &Vec<Message>, marker: usize, block: Option<u64>, wait: bool) -> (r:
    Result<Command, CommandError>)
    ensures
        ({
            let a = crate::messages::msgs_view(args@);
            match r {
                Ok(c) => spec_xread_requests(a, marker as int, block, wait) == Ok::<
                    CommandVal,
                    CommandErrorVal,
                >(c@),
                Err(e) => spec_xread_requests(a, marker as int, block, wait) == Err::<
                    CommandVal,
                    CommandErrorVal,
                >(e@),
            }
        }),
{
    let ghost a = crate::messages::msgs_view(args@);
    proof {
        crate::messages::lemma_msgs_view_index(args@);
    }
    if args.len() < marker || (args.len() - marker) % 2 != 0 {
        return Err(CommandError::BadXread);
    }
    let n = args.len();
    let amount = (args.len() - marker) / 2;
    let mut requests: Vec<(Vec<u8>, Vec<u8>)> = Vec::new();
    let mut i: usize = 0;
    while i < amount
        invariant
            a == crate::messages::msgs_view(args@),
            a.len() == args@.len(),
            n == args@.len(),
            forall|j: int| 0 <= j < args@.len() ==> a[j] == crate::messages::msg_view(args@[j]),
            marker <= a.len(),
            (a.len() - marker) % 2 == 0,
            amount == (a.len() - marker) / 2,
            0 <= i <= amount,
            requests@.len() == i,
            forall|j: int|
                0 <= j < i ==> spec_unpack(a[marker + j]) == Some(
                    (#[trigger] requests@[j]).0@,
                ) && spec_unpack(a[marker + amount + j]) == Some(requests@[j].1@),
        decreases amount - i,
    {
        proof {
            assert(marker + amount + i < n) by {
                assert(amount * 2 == a.len() - marker);
            }
        }
        let key = match unpack_string(&args[marker + i]) {
            Ok(v) => v,
            Err(e) => {
                proof {
                    assert(a.skip(marker as int)[i as int] == a[marker + i]);
                    assert(spec_unpack(a.skip(marker as int)[i as int]) is None);
                }
                return Err(CommandError::BadArg);
            },
        };
        let id = match unpack_string(&args[marker + amount + i]) {
            Ok(v) => v,
            Err(e) => {
                proof {
                    assert(a.skip(marker as int)[amount + i] == a[marker + (amount + i)]);
                    assert(spec_unpack(a.skip(marker as int)[amount + i]) is None);
                }
                return Err(CommandError::BadArg);
            },
        };
        requests.push((key, id));
        i += 1;
    }
    let ghost rv = requests@;
    let cmd = Command::XREAD(XREADParams { block, wait, requests });
    proof {
        let rest = a.skip(marker as int);
        assert forall|j: int| 0 <= j < rest.len() implies spec_unpack(#[trigger] rest[j]) is Some
            by {
            if j < amount {
                assert(spec_unpack(a[marker + j]) == Some(rv[j].0@));
                assert(rest[j] == a[marker + j]);
            } else {
                assert(spec_unpack(a[marker + (amount + (j - amount))]) == Some(
                    rv[j - amount].1@,
                ));
                assert(rest[j] == a[marker + j]);
                assert(marker + j == marker + (amount + (j - amount)));
            }
        }
        assert(rv.map_values(|q: (Vec<u8>, Vec<u8>)| (q.0@, q.1@)) =~= Seq::new(
            amount as nat,
            |i: int|
                (
                    spec_unpack(a[marker + i])->Some_0,
                    spec_unpack(a[marker + amount + i])->Some_0,
                ),
        ));
    }
    Ok(cmd)
}

} // verus!
