//! The command dispatcher: execute one parsed command against the store and
//! the server facts, and say what the connection must do next.

use vstd::prelude::*;

use crate::commands::{Command, CommandVal, CommandError, CommandErrorVal};
use crate::config::ServerInformation;
use crate::info::{build_replication_response, spec_info_response};
use crate::messages::{
    Message, MessageVal, push_bytes, copy_bytes, msgs_view, lemma_msgs_view_index,
    lemma_msgs_view_push, spec_serialize,
};
use crate::num::spec_dec_digits;
use crate::store::{
    Store, StoreItemVal, StoreItem, Stream, StreamEntryVal, spec_id_bytes, spec_entries_range,
    spec_entries_after, spec_parse_pattern, spec_resolve_id, spec_xrange_start, spec_xrange_end,
    spec_parse_stream_id, spec_get, entry_live, parse_xrange_start, parse_xrange_end, StreamId,
    string_type_bytes, stream_type_bytes, none_type_bytes, EntryValue,
};
use crate::util::{spec_lower, to_lower, bytes_eq};

verus! {

pub open spec fn pong_bytes() -> Seq<u8> {
    seq![80u8, 79u8, 78u8, 71u8]
}

pub open spec fn ok_bytes() -> Seq<u8> {
    seq![79u8, 75u8]
}

pub open spec fn replication_bytes() -> Seq<u8> {
    seq![114u8, 101u8, 112u8, 108u8, 105u8, 99u8, 97u8, 116u8, 105u8, 111u8, 110u8]
}

pub open spec fn invalid_section_bytes() -> Seq<u8> {
    seq![73u8, 110u8, 118u8, 97u8, 108u8, 105u8, 100u8, 32u8, 114u8, 101u8, 112u8, 108u8, 105u8, 99u8, 97u8, 116u8, 105u8, 111u8, 110u8]
}

pub open spec fn get_bytes() -> Seq<u8> {
    seq![103u8, 101u8, 116u8]
}

pub open spec fn value_not_found_bytes() -> Seq<u8> {
    seq![86u8, 97u8, 108u8, 117u8, 101u8, 32u8, 110u8, 111u8, 116u8, 32u8, 102u8, 111u8, 117u8, 110u8, 100u8]
}

pub open spec fn bad_config_action_bytes() -> Seq<u8> {
    seq![69u8, 82u8, 82u8, 32u8, 85u8, 110u8, 115u8, 117u8, 112u8, 112u8, 111u8, 114u8, 116u8, 101u8, 100u8, 32u8, 99u8, 111u8, 110u8, 102u8, 105u8, 103u8, 32u8, 97u8, 99u8, 116u8, 105u8, 111u8, 110u8]
}

pub open spec fn bad_keys_pattern_bytes() -> Seq<u8> {
    seq![69u8, 82u8, 82u8, 32u8, 85u8, 110u8, 115u8, 117u8, 112u8, 112u8, 111u8, 114u8, 116u8, 101u8, 100u8, 32u8, 107u8, 101u8, 121u8, 115u8, 32u8, 112u8, 97u8, 116u8, 116u8, 101u8, 114u8, 110u8]
}

pub open spec fn need_key_bytes() -> Seq<u8> {
    seq![69u8, 82u8, 82u8, 32u8, 78u8, 101u8, 101u8, 100u8, 32u8, 97u8, 32u8, 107u8, 101u8, 121u8, 32u8, 116u8, 111u8, 32u8, 102u8, 101u8, 116u8, 99u8, 104u8, 32u8, 116u8, 104u8, 101u8, 32u8, 116u8, 121u8, 112u8, 101u8]
}

pub open spec fn invalid_stream_id_bytes() -> Seq<u8> {
    seq![69u8, 82u8, 82u8, 32u8, 73u8, 110u8, 118u8, 97u8, 108u8, 105u8, 100u8, 32u8, 115u8, 116u8, 114u8, 101u8, 97u8, 109u8, 32u8, 73u8, 68u8, 32u8, 115u8, 112u8, 101u8, 99u8, 105u8, 102u8, 105u8, 101u8, 100u8, 32u8, 97u8, 115u8, 32u8, 115u8, 116u8, 114u8, 101u8, 97u8, 109u8, 32u8, 99u8, 111u8, 109u8, 109u8, 97u8, 110u8, 100u8, 32u8, 97u8, 114u8, 103u8, 117u8, 109u8, 101u8, 110u8, 116u8]
}

pub open spec fn unable_to_read_stream_bytes() -> Seq<u8> {
    seq![69u8, 82u8, 82u8, 32u8, 85u8, 110u8, 97u8, 98u8, 108u8, 101u8, 32u8, 116u8, 111u8, 32u8, 114u8, 101u8, 97u8, 100u8, 32u8, 115u8, 116u8, 114u8, 101u8, 97u8, 109u8]
}

/// `FULLRESYNC <replid> 0`.
pub open spec fn fullresync_bytes(repl_id: Seq<u8>) -> Seq<u8> {
    seq![70u8, 85u8, 76u8, 76u8, 82u8, 69u8, 83u8, 89u8, 78u8, 67u8, 32u8] + repl_id + seq![32u8, 48u8]
}

/// What the connection does after a command: reply; reply and fan the
/// original message out to every replica; reply, send the snapshot and become
/// a replication source; or run the `WAIT` acknowledgement round.
pub enum DispatchOutcome {
    Reply(Message),
    ReplyAndReplicate(Message),
    FullResync(Message),
    AwaitReplicas(usize, u64),
}

/// The fields of one stream entry, interleaved, as wire messages.
pub open spec fn spec_flat_fields(pairs: Seq<(Seq<u8>, Seq<u8>)>) -> Seq<MessageVal> {
    Seq::new(
        2 * pairs.len(),
        |j: int|
            if j % 2 == 0 {
                MessageVal::BulkString(pairs[j / 2].0)
            } else {
                MessageVal::BulkString(pairs[j / 2].1)
            },
    )
}

/// A run of stream entries as the wire shows it: an array of
/// `[id, [field, value, ...]]` pairs.
pub open spec fn spec_stream_message(entries: Seq<StreamEntryVal>) -> MessageVal {
    MessageVal::Array(
        Seq::new(
            entries.len(),
            |i: int|
                MessageVal::Array(
                    seq![
                        MessageVal::BulkString(spec_id_bytes(entries[i].0)),
                        MessageVal::Array(spec_flat_fields(entries[i].1)),
                    ],
                ),
        ),
    )
}

/// Render a run of stream entries.
pub fn stream_to_message(stream: &Stream) -> (r: Message)
    ensures
        r@ == spec_stream_message(stream@),
{
    let mut items: Vec<Message> = Vec::new();
    let mut i: usize = 0;
    let ghost entries = stream@;
    while i < stream.entries.len()
        invariant
            0 <= i <= stream.entries@.len(),
            entries == stream@,
            entries.len() == stream.entries@.len(),
            msgs_view(items@) == Seq::new(
                i as nat,
                |j: int|
                    MessageVal::Array(
                        seq![
                            MessageVal::BulkString(spec_id_bytes(entries[j].0)),
                            MessageVal::Array(spec_flat_fields(entries[j].1)),
                        ],
                    ),
            ),
        decreases stream.entries@.len() - i,
    {
        let e = &stream.entries[i];
        proof {
            assert(entries[i as int] == (e.0, e.1@));
        }
        let id_text = e.0.to_bytes();
        let flat = e.1.flatten();
        let mut fields: Vec<Message> = Vec::new();
        let mut j: usize = 0;
        while j < flat.len()
            invariant
                0 <= j <= flat@.len(),
                flat@.len() == 2 * e.1@.len(),
                forall|q: int|
                    0 <= q < e.1@.len() ==> (#[trigger] flat@[2 * q])@ == e.1@[q].0 && flat@[2 * q
                        + 1]@ == e.1@[q].1,
                msgs_view(fields@) == spec_flat_fields(e.1@).take(j as int),
            decreases flat@.len() - j,
        {
            let ghost pre = msgs_view(fields@);
            let b = Message::BulkString(copy_bytes(&flat[j]));
            proof {
                lemma_msgs_view_push(fields@, b);
                if j % 2 == 0 {
                    assert(flat@[2 * ((j / 2) as int)]@ == e.1@[(j / 2) as int].0);
                } else {
                    assert(flat@[2 * ((j / 2) as int)]@ == e.1@[(j / 2) as int].0);
                    assert(flat@[2 * ((j / 2) as int) + 1]@ == e.1@[(j / 2) as int].1);
                }
                assert(pre.push(b@) =~= spec_flat_fields(e.1@).take(j + 1));
            }
            fields.push(b);
            j += 1;
        }
        proof {
            assert(spec_flat_fields(e.1@).take(flat@.len() as int) =~= spec_flat_fields(e.1@));
        }
        let mut pair: Vec<Message> = Vec::new();
        pair.push(Message::BulkString(id_text));
        pair.push(Message::Array(fields));
        let entry_msg = Message::Array(pair);
        let ghost prev = msgs_view(items@);
        proof {
            lemma_msgs_view_index(entry_msg->Array_0@);
            assert(entry_msg@ == MessageVal::Array(
                seq![
                    MessageVal::BulkString(spec_id_bytes(entries[i as int].0)),
                    MessageVal::Array(spec_flat_fields(entries[i as int].1)),
                ],
            )) by {
                assert(msgs_view(entry_msg->Array_0@) =~= seq![
                    MessageVal::BulkString(spec_id_bytes(entries[i as int].0)),
                    MessageVal::Array(spec_flat_fields(entries[i as int].1)),
                ]);
            }
            lemma_msgs_view_push(items@, entry_msg);
            assert(prev.push(entry_msg@) =~= Seq::new(
                (i + 1) as nat,
                |j: int|
                    MessageVal::Array(
                        seq![
                            MessageVal::BulkString(spec_id_bytes(entries[j].0)),
                            MessageVal::Array(spec_flat_fields(entries[j].1)),
                        ],
                    ),
            ));
        }
        items.push(entry_msg);
        i += 1;
    }
    let r = Message::Array(items);
    proof {
        assert(r@->Array_0 =~= spec_stream_message(entries)->Array_0);
    }
    r
}


/// What XREAD answers: one `[key, entries]` pair per request that names a
/// well-formed id and a stream with entries after it, in request order.
pub open spec fn spec_xread_items(
    s: crate::store::StoreVal,
    requests: Seq<(Seq<u8>, Seq<u8>)>,
) -> Seq<MessageVal>
    decreases requests.len(),
{
    if requests.len() == 0 {
        Seq::empty()
    } else {
        let rest = spec_xread_items(s, requests.drop_last());
        let rq = requests.last();
        match spec_parse_stream_id(rq.1) {
            Some(id) => match crate::store::spec_lookup_seq(s, rq.0) {
                Some(StoreItemVal::Stream(entries)) => {
                    let after = spec_entries_after(entries, id);
                    if after.len() > 0 {
                        rest.push(
                            MessageVal::Array(
                                seq![
                                    MessageVal::BulkString(rq.0),
                                    spec_stream_message(after),
                                ],
                            ),
                        )
                    } else {
                        rest
                    }
                },
                _ => rest,
            },
            None => rest,
        }
    }
}

pub open spec fn getack_bytes() -> Seq<u8> {
    seq![103u8, 101u8, 116u8, 97u8, 99u8, 107u8]
}

/// `REPLCONF ACK <offset>`.
pub open spec fn spec_ack_message(offset: u64) -> MessageVal {
    MessageVal::Array(
        seq![
            MessageVal::BulkString(seq![82u8, 69u8, 80u8, 76u8, 67u8, 79u8, 78u8, 70u8]),
            MessageVal::BulkString(seq![65u8, 67u8, 75u8]),
            MessageVal::BulkString(spec_dec_digits(offset as nat)),
        ],
    )
}

/// The byte offset a replica reports after consuming `m`: grown by the
/// serialized length of every message that parses as a command, saturating.
pub open spec fn spec_next_offset(m: MessageVal, bytes_received: u64, now_ms: u64) -> u64 {
    match crate::commands::spec_parse_client(m, now_ms) {
        Ok(c) => if bytes_received + spec_serialize(m).len() <= u64::MAX {
            (bytes_received + spec_serialize(m).len()) as u64
        } else {
            u64::MAX
        },
        Err(e) => bytes_received,
    }
}

/// Execute one client command. The outcome pins the exact reply and any
/// store change for every verb the protocol recognizes.
#[verifier::rlimit(100)]
pub fn execute_command(
    store: &mut Store,
    info: &ServerInformation,
    replica_count: usize,
    cmd: Command,
    now_ms: u64,
) -> (r: DispatchOutcome)
    requires
        old(store).wf(),
        replica_count as int <= i64::MAX,
    ensures
        final(store).wf(),
        (match cmd@ {
            CommandVal::Ping => final(store)@ == old(store)@ && (r matches DispatchOutcome::Reply(
                m,
            ) && m@ == MessageVal::SimpleString(pong_bytes())),
            CommandVal::Echo(v) => final(store)@ == old(store)@ && (r matches
                DispatchOutcome::Reply(m) && m@ == MessageVal::BulkString(v)),
            CommandVal::SetValue(k, e) => (r matches DispatchOutcome::ReplyAndReplicate(m) && m@
                == MessageVal::SimpleString(ok_bytes())) && final(store).spec_lookup(k) == Some(
                StoreItemVal::KeyValueEntry(e),
            ) && (forall|k2: Seq<u8>|
                k2 != k ==> final(store).spec_lookup(k2) == old(store).spec_lookup(k2)),
            CommandVal::Get(k) => final(store)@ == old(store)@ && (r matches
                DispatchOutcome::Reply(m) && m@ == (match spec_get(old(store)@, k, now_ms) {
                Some(v) => MessageVal::BulkString(v),
                None => MessageVal::Null,
            })),
            CommandVal::Info(section) => final(store)@ == old(store)@ && (r matches
                DispatchOutcome::Reply(m) && m@ == (if spec_lower(section) == replication_bytes()
                || section.len() == 0 {
                MessageVal::BulkString(
                    spec_info_response(
                        info.role.spec_name(),
                        replica_count as u64,
                        info.repl_id@,
                        info.repl_offset,
                    ),
                )
            } else {
                MessageVal::SimpleString(invalid_section_bytes())
            })),
            CommandVal::Replconf(args) => final(store)@ == old(store)@ && (r matches
                DispatchOutcome::Reply(m) && m@ == MessageVal::SimpleString(ok_bytes())),
            CommandVal::Psync(args) => final(store)@ == old(store)@ && (r matches
                DispatchOutcome::FullResync(m) && m@ == MessageVal::SimpleString(
                fullresync_bytes(info.repl_id@),
            )),
            CommandVal::Wait(n, t) => final(store)@ == old(store)@ && (if old(store)@.len() == 0 {
                r matches DispatchOutcome::Reply(m) && m@ == MessageVal::Integer(
                    replica_count as int,
                )
            } else {
                r matches DispatchOutcome::AwaitReplicas(nn, tt) && nn as int == n && tt == t
            }),
            CommandVal::Config(action, key) => final(store)@ == old(store)@ && (r matches
                DispatchOutcome::Reply(m) && m@ == (if spec_lower(action) == get_bytes() {
                match info.spec_get_value(key) {
                    Some(v) => MessageVal::Array(
                        seq![MessageVal::BulkString(key), MessageVal::BulkString(v)],
                    ),
                    None => MessageVal::SimpleString(value_not_found_bytes()),
                }
            } else {
                MessageVal::Error(bad_config_action_bytes())
            })),
            CommandVal::Keys(p) => final(store)@ == old(store)@ && (r matches
                DispatchOutcome::Reply(m) && m@ == (if p == seq![42u8] {
                MessageVal::Array(
                    Seq::new(
                        old(store)@.len(),
                        |i: int| MessageVal::BulkString(old(store)@[i].0),
                    ),
                )
            } else {
                MessageVal::Error(bad_keys_pattern_bytes())
            })),
            CommandVal::Type(k) => final(store)@ == old(store)@ && (r matches
                DispatchOutcome::Reply(m) && m@ == (if k.len() == 0 {
                MessageVal::Error(need_key_bytes())
            } else {
                MessageVal::SimpleString(
                    match old(store).spec_lookup(k) {
                        Some(StoreItemVal::KeyValueEntry(e)) => string_type_bytes(),
                        Some(StoreItemVal::Stream(st)) => stream_type_bytes(),
                        None => none_type_bytes(),
                    },
                )
            })),
            CommandVal::XADD { key, id, values } => (match spec_parse_pattern(id) {
                Some(pq) => (match spec_resolve_id(
                    pq.0,
                    pq.1,
                    old(store).spec_last_id(key),
                    now_ms,
                ) {
                    Some(rid) => (match old(store).spec_validate_id(key, rid) {
                        Ok(()) => (r matches DispatchOutcome::Reply(m) && m@
                            == MessageVal::BulkString(spec_id_bytes(rid)))
                            && final(store).spec_lookup(key) == Some(
                            StoreItemVal::Stream(
                                (match old(store).spec_lookup(key) {
                                    Some(StoreItemVal::Stream(st)) => st,
                                    _ => Seq::<StreamEntryVal>::empty(),
                                }).push((rid, values)),
                            ),
                        ) && (forall|k2: Seq<u8>|
                            k2 != key ==> final(store).spec_lookup(k2) == old(store).spec_lookup(
                                k2,
                            )),
                        Err(e) => final(store)@ == old(store)@ && (r matches
                            DispatchOutcome::Reply(m) && m@ == MessageVal::Error(
                            e.spec_message(),
                        )),
                    }),
                    None => final(store)@ == old(store)@ && (r matches DispatchOutcome::Reply(m)
                        && m@ == MessageVal::Error(invalid_stream_id_bytes())),
                }),
                None => final(store)@ == old(store)@ && (r matches DispatchOutcome::Reply(m) && m@
                    == MessageVal::Error(invalid_stream_id_bytes())),
            }),
            CommandVal::XRANGE { key, start, end } => final(store)@ == old(store)@ && (match
                spec_xrange_start(start) {
                Some(lo) => (match spec_xrange_end(
                    end,
                    old(store).spec_last_id(key),
                    now_ms,
                ) {
                    Some(hi) => (match old(store).spec_lookup(key) {
                        Some(StoreItemVal::Stream(entries)) => r matches DispatchOutcome::Reply(
                            m,
                        ) && m@ == spec_stream_message(spec_entries_range(entries, lo, hi)),
                        _ => r matches DispatchOutcome::Reply(m) && m@ == MessageVal::Error(
                            unable_to_read_stream_bytes(),
                        ),
                    }),
                    None => r matches DispatchOutcome::Reply(m) && m@ == MessageVal::Error(
                        invalid_stream_id_bytes(),
                    ),
                }),
                None => r matches DispatchOutcome::Reply(m) && m@ == MessageVal::Error(
                    invalid_stream_id_bytes(),
                ),
            }),
            CommandVal::XREAD { block, wait, requests } => final(store)@ == old(store)@ && (r
                matches DispatchOutcome::Reply(m) && m@ == MessageVal::Array(
                spec_xread_items(old(store)@, requests),
            )),
        }),
{
    match cmd {
        Command::Ping => {
            let t: Vec<u8> = vec![80, 79, 78, 71];
            proof {
                assert(t@ =~= pong_bytes());
            }
            DispatchOutcome::Reply(Message::SimpleString(t))
        },
        Command::Echo(v) => DispatchOutcome::Reply(Message::BulkString(v)),
        Command::SetValue(k, e) => {
            store.set_kv_value(k, e);
            let t: Vec<u8> = vec![79, 75];
            proof {
                assert(t@ =~= ok_bytes());
            }
            DispatchOutcome::ReplyAndReplicate(Message::SimpleString(t))
        },
        Command::Get(k) => {
            match store.get_kv_value(&k, now_ms) {
                Some(e) => DispatchOutcome::Reply(Message::BulkString(copy_bytes(&e.value))),
                None => DispatchOutcome::Reply(Message::Null),
            }
        },
        Command::Info(section) => {
            let lowered = to_lower(section.as_slice());
            let repl: Vec<u8> = vec![114, 101, 112, 108, 105, 99, 97, 116, 105, 111, 110];
            proof {
                assert(repl@ =~= replication_bytes());
            }
            if bytes_eq(lowered.as_slice(), repl.as_slice()) || section.len() == 0 {
                let body = build_replication_response(info, replica_count as u64);
                DispatchOutcome::Reply(Message::BulkString(body))
            } else {
                let t: Vec<u8> = vec![73, 110, 118, 97, 108, 105, 100, 32, 114, 101, 112, 108, 105, 99, 97, 116, 105, 111, 110];
                proof {
                    assert(t@ =~= invalid_section_bytes());
                }
                DispatchOutcome::Reply(Message::SimpleString(t))
            }
        },
        Command::Replconf(args) => {
            let t: Vec<u8> = vec![79, 75];
            proof {
                assert(t@ =~= ok_bytes());
            }
            DispatchOutcome::Reply(Message::SimpleString(t))
        },
        Command::Psync(args) => {
            let mut t: Vec<u8> = vec![70, 85, 76, 76, 82, 69, 83, 89, 78, 67, 32];
            push_bytes(&mut t, info.repl_id.as_slice());
            t.push(32);
            t.push(48);
            proof {
                assert(t@ =~= fullresync_bytes(info.repl_id@));
            }
            DispatchOutcome::FullResync(Message::SimpleString(t))
        },
        Command::Wait(n, t) => {
            if store.len() == 0 {
                DispatchOutcome::Reply(Message::Integer(replica_count as i64))
            } else {
                DispatchOutcome::AwaitReplicas(n, t)
            }
        },
        Command::Config(action, key) => {
            let lowered = to_lower(action.as_slice());
            let getlit: Vec<u8> = vec![103, 101, 116];
            proof {
                assert(getlit@ =~= get_bytes());
            }
            if bytes_eq(lowered.as_slice(), getlit.as_slice()) {
                match info.get_value(&key) {
                    Some(v) => {
                        let ghost kv = key@;
                        let ghost vv = v@;
                        let mut items: Vec<Message> = Vec::new();
                        items.push(Message::BulkString(key));
                        items.push(Message::BulkString(v));
                        let m = Message::Array(items);
                        proof {
                            lemma_msgs_view_index(m->Array_0@);
                            assert(m@->Array_0 =~= seq![
                                MessageVal::BulkString(kv),
                                MessageVal::BulkString(vv),
                            ]);
                            assert(vv == info.spec_get_value(kv)->Some_0);
                        }
                        DispatchOutcome::Reply(m)
                    },
                    None => {
                        let t: Vec<u8> = vec![86, 97, 108, 117, 101, 32, 110, 111, 116, 32, 102, 111, 117, 110, 100];
                        proof {
                            assert(t@ =~= value_not_found_bytes());
                        }
                        DispatchOutcome::Reply(Message::SimpleString(t))
                    },
                }
            } else {
                let t: Vec<u8> = vec![69, 82, 82, 32, 85, 110, 115, 117, 112, 112, 111, 114, 116, 101, 100, 32, 99, 111, 110, 102, 105, 103, 32, 97, 99, 116, 105, 111, 110];
                proof {
                    assert(t@ =~= bad_config_action_bytes());
                }
                DispatchOutcome::Reply(Message::Error(t))
            }
        },
        Command::Keys(p) => {
            if p.len() == 1 && p[0] == 42 {
                proof {
                    assert(p@ =~= seq![42u8]);
                }
                let keys = store.keys();
                let mut items: Vec<Message> = Vec::new();
                let mut i: usize = 0;
                while i < keys.len()
                    invariant
                        store.wf(),
                        0 <= i <= keys@.len(),
                        keys@.len() == store@.len(),
                        forall|j: int| 0 <= j < store@.len() ==> (#[trigger] keys@[j])@ == store@[j].0,
                        msgs_view(items@) == Seq::new(
                            i as nat,
                            |j: int| MessageVal::BulkString(store@[j].0),
                        ),
                    decreases keys@.len() - i,
                {
                    let b = Message::BulkString(copy_bytes(&keys[i]));
                    proof {
                        lemma_msgs_view_push(items@, b);
                        assert(msgs_view(items@).push(b@) =~= Seq::new(
                            (i + 1) as nat,
                            |j: int| MessageVal::BulkString(store@[j].0),
                        ));
                    }
                    items.push(b);
                    i += 1;
                }
                let m = Message::Array(items);
                DispatchOutcome::Reply(m)
            } else {
                proof {
                    if p@.len() == 1 && p@[0] == 42 {
                        assert(p@ =~= seq![42u8]);
                    }
                }
                let t: Vec<u8> = vec![69, 82, 82, 32, 85, 110, 115, 117, 112, 112, 111, 114, 116, 101, 100, 32, 107, 101, 121, 115, 32, 112, 97, 116, 116, 101, 114, 110];
                proof {
                    assert(t@ =~= bad_keys_pattern_bytes());
                }
                DispatchOutcome::Reply(Message::Error(t))
            }
        },
        Command::Type(k) => {
            if k.len() == 0 {
                let t: Vec<u8> = vec![69, 82, 82, 32, 78, 101, 101, 100, 32, 97, 32, 107, 101, 121, 32, 116, 111, 32, 102, 101, 116, 99, 104, 32, 116, 104, 101, 32, 116, 121, 112, 101];
                proof {
                    assert(t@ =~= need_key_bytes());
                }
                DispatchOutcome::Reply(Message::Error(t))
            } else {
                match store.get_value(&k) {
                    Some(item) => {
                        let t = item.value_type();
                        DispatchOutcome::Reply(Message::SimpleString(t))
                    },
                    None => {
                        let t: Vec<u8> = vec![110, 111, 110, 101];
                        proof {
                            assert(t@ =~= none_type_bytes());
                        }
                        DispatchOutcome::Reply(Message::SimpleString(t))
                    },
                }
            }
        },
        Command::XADD(p) => {
            match store.resolve_pattern_id(&p.key, &p.id, now_ms) {
                Some(rid) => {
                    match store.append_stream_value(&p.key, &rid, p.values) {
                        Ok(u) => DispatchOutcome::Reply(Message::BulkString(rid.to_bytes())),
                        Err(e) => DispatchOutcome::Reply(Message::Error(e.message())),
                    }
                },
                None => {
                    let t: Vec<u8> = vec![69, 82, 82, 32, 73, 110, 118, 97, 108, 105, 100, 32, 115, 116, 114, 101, 97, 109, 32, 73, 68, 32, 115, 112, 101, 99, 105, 102, 105, 101, 100, 32, 97, 115, 32, 115, 116, 114, 101, 97, 109, 32, 99, 111, 109, 109, 97, 110, 100, 32, 97, 114, 103, 117, 109, 101, 110, 116];
                    proof {
                        assert(t@ =~= invalid_stream_id_bytes());
                    }
                    DispatchOutcome::Reply(Message::Error(t))
                },
            }
        },
        Command::XRANGE(p) => {
            let lo = match parse_xrange_start(p.start.as_slice()) {
                Some(b) => b,
                None => {
                    let t: Vec<u8> = vec![69, 82, 82, 32, 73, 110, 118, 97, 108, 105, 100, 32, 115, 116, 114, 101, 97, 109, 32, 73, 68, 32, 115, 112, 101, 99, 105, 102, 105, 101, 100, 32, 97, 115, 32, 115, 116, 114, 101, 97, 109, 32, 99, 111, 109, 109, 97, 110, 100, 32, 97, 114, 103, 117, 109, 101, 110, 116];
                    proof {
                        assert(t@ =~= invalid_stream_id_bytes());
                    }
                    return DispatchOutcome::Reply(Message::Error(t));
                },
            };
            let hi = match parse_xrange_end(p.end.as_slice(), &p.key, store, now_ms) {
                Some(b) => b,
                None => {
                    let t: Vec<u8> = vec![69, 82, 82, 32, 73, 110, 118, 97, 108, 105, 100, 32, 115, 116, 114, 101, 97, 109, 32, 73, 68, 32, 115, 112, 101, 99, 105, 102, 105, 101, 100, 32, 97, 115, 32, 115, 116, 114, 101, 97, 109, 32, 99, 111, 109, 109, 97, 110, 100, 32, 97, 114, 103, 117, 109, 101, 110, 116];
                    proof {
                        assert(t@ =~= invalid_stream_id_bytes());
                    }
                    return DispatchOutcome::Reply(Message::Error(t));
                },
            };
            let lo_ref: Option<&StreamId> = match &lo {
                Some(l) => Some(l),
                None => None,
            };
            let hi_ref: Option<&StreamId> = match &hi {
                Some(h) => Some(h),
                None => None,
            };
            match store.get_stream_range(&p.key, lo_ref, hi_ref) {
                Some(st) => DispatchOutcome::Reply(stream_to_message(&st)),
                None => {
                    let t: Vec<u8> = vec![69, 82, 82, 32, 85, 110, 97, 98, 108, 101, 32, 116, 111, 32, 114, 101, 97, 100, 32, 115, 116, 114, 101, 97, 109];
                    proof {
                        assert(t@ =~= unable_to_read_stream_bytes());
                    }
                    DispatchOutcome::Reply(Message::Error(t))
                },
            }
        },
        Command::XREAD(p) => {
            let ghost rqv = p.requests@.map_values(|q: (Vec<u8>, Vec<u8>)| (q.0@, q.1@));
            let mut items: Vec<Message> = Vec::new();
            let mut i: usize = 0;
            while i < p.requests.len()
                invariant
                    store.wf(),
                    0 <= i <= p.requests@.len(),
                    rqv == p.requests@.map_values(|q: (Vec<u8>, Vec<u8>)| (q.0@, q.1@)),
                    rqv.len() == p.requests@.len(),
                    msgs_view(items@) == spec_xread_items(store@, rqv.take(i as int)),
                decreases p.requests@.len() - i,
            {
                let rq = &p.requests[i];
                proof {
                    assert(rqv.take(i + 1).drop_last() =~= rqv.take(i as int));
                    assert(rqv.take(i + 1).last() == rqv[i as int]);
                    assert(rqv[i as int] == (rq.0@, rq.1@));
                }
                match StreamId::from_bytes(rq.1.as_slice()) {
                    Some(id) => {
                        match store.get_stream_read(&rq.0, &id) {
                            Some(st) => {
                                let mut pair: Vec<Message> = Vec::new();
                                pair.push(Message::BulkString(copy_bytes(&rq.0)));
                                pair.push(stream_to_message(&st));
                                let em = Message::Array(pair);
                                proof {
                                    lemma_msgs_view_index(em->Array_0@);
                                    assert(em@->Array_0 =~= seq![
                                        MessageVal::BulkString(rq.0@),
                                        spec_stream_message(st@),
                                    ]);
                                    lemma_msgs_view_push(items@, em);
                                }
                                items.push(em);
                            },
                            None => {},
                        }
                    },
                    None => {},
                }
                i += 1;
            }
            proof {
                assert(rqv.take(rqv.len() as int) =~= rqv);
            }
            DispatchOutcome::Reply(Message::Array(items))
        },
    }
}

/// Apply one upstream message on a replica: writes land silently, a
/// `REPLCONF GETACK` is answered with the offset before this message, and
/// the returned offset has grown by this message's serialized length.
pub fn replica_apply(store: &mut Store, message: &Message, bytes_received: u64, now_ms: u64) -> (r:
    (Option<Message>, u64))
    requires
        old(store).wf(),
    ensures
        final(store).wf(),
        r.1 == spec_next_offset(message@, bytes_received, now_ms),
        (match crate::commands::spec_parse_client(message@, now_ms) {
            Ok(c) => match c {
                CommandVal::SetValue(k, e) => final(store).spec_lookup(k) == Some(
                    StoreItemVal::KeyValueEntry(e),
                ) && (forall|k2: Seq<u8>|
                    k2 != k ==> final(store).spec_lookup(k2) == old(store).spec_lookup(k2)) && r.0
                    is None,
                CommandVal::Replconf(args) => final(store)@ == old(store)@ && (if args.len() >= 1
                    && spec_lower(args[0]) == getack_bytes() {
                    r.0 matches Some(m) && m@ == spec_ack_message(bytes_received)
                } else {
                    r.0 is None
                }),
                _ => final(store)@ == old(store)@ && r.0 is None,
            },
            Err(e) => final(store)@ == old(store)@ && r.0 is None,
        }),
{
    let parsed = crate::commands::parse_client_command(message, now_ms);
    match parsed {
        Ok(cmd) => {
            let response: Option<Message> = match cmd {
                Command::SetValue(k, e) => {
                    store.set_kv_value(k, e);
                    None
                },
                Command::Replconf(args) => {
                    if args.len() >= 1 {
                        let lowered = to_lower(args[0].as_slice());
                        let lit: Vec<u8> = vec![103, 101, 116, 97, 99, 107];
                        proof {
                            assert(lit@ =~= getack_bytes());
                        }
                        if bytes_eq(lowered.as_slice(), lit.as_slice()) {
                            let mut items: Vec<Message> = Vec::new();
                            let a0: Vec<u8> = vec![82, 69, 80, 76, 67, 79, 78, 70];
                            let a1: Vec<u8> = vec![65, 67, 75];
                            proof {
                                assert(a0@ =~= seq![82u8, 69u8, 80u8, 76u8, 67u8, 79u8, 78u8, 70u8]);
                                assert(a1@ =~= seq![65u8, 67u8, 75u8]);
                            }
                            items.push(Message::BulkString(a0));
                            items.push(Message::BulkString(a1));
                            items.push(
                                Message::BulkString(crate::num::u64_to_dec(bytes_received)),
                            );
                            let m = Message::Array(items);
                            proof {
                                lemma_msgs_view_index(m->Array_0@);
                                assert(m@->Array_0 =~= spec_ack_message(bytes_received)->Array_0);
                            }
                            Some(m)
                        } else {
                            None
                        }
                    } else {
                        None
                    }
                },
                _ => None,
            };
            let ser = message.serialize();
            let grown: u64 = if (ser.len() as u64) <= u64::MAX - bytes_received {
                bytes_received + (ser.len() as u64)
            } else {
                u64::MAX
            };
            (response, grown)
        },
        Err(e) => (None, bytes_received),
    }
}

/// The error reply for a message that did not parse as a command.
pub fn command_error_response(e: &CommandError) -> (r: Message)
    ensures
        r@ == MessageVal::Error(
            (match e@ {
                CommandErrorVal::NotArray => seq![69u8, 82u8, 82u8, 32u8, 117u8, 110u8, 101u8, 120u8, 112u8, 101u8, 99u8, 116u8, 101u8, 100u8, 32u8, 99u8, 111u8, 109u8, 109u8, 97u8, 110u8, 100u8, 32u8, 102u8, 111u8, 114u8, 109u8, 97u8, 116u8],
                CommandErrorVal::BadArg => seq![69u8, 82u8, 82u8, 32u8, 119u8, 114u8, 111u8, 110u8, 103u8, 32u8, 97u8, 114u8, 103u8, 117u8, 109u8, 101u8, 110u8, 116u8, 115u8, 32u8, 102u8, 111u8, 114u8, 32u8, 99u8, 111u8, 109u8, 109u8, 97u8, 110u8, 100u8],
                CommandErrorVal::Incomplete => seq![69u8, 82u8, 82u8, 32u8, 105u8, 110u8, 99u8, 111u8, 109u8, 112u8, 108u8, 101u8, 116u8, 101u8, 32u8, 99u8, 111u8, 109u8, 109u8, 97u8, 110u8, 100u8],
                CommandErrorVal::NotPairs => seq![69u8, 82u8, 82u8, 32u8, 115u8, 116u8, 114u8, 101u8, 97u8, 109u8, 32u8, 100u8, 97u8, 116u8, 97u8, 32u8, 110u8, 101u8, 101u8, 100u8, 115u8, 32u8, 102u8, 105u8, 101u8, 108u8, 100u8, 32u8, 118u8, 97u8, 108u8, 117u8, 101u8, 32u8, 112u8, 97u8, 105u8, 114u8, 115u8],
                CommandErrorVal::BadNumber => seq![69u8, 82u8, 82u8, 32u8, 118u8, 97u8, 108u8, 117u8, 101u8, 32u8, 105u8, 115u8, 32u8, 110u8, 111u8, 116u8, 32u8, 97u8, 110u8, 32u8, 105u8, 110u8, 116u8, 101u8, 103u8, 101u8, 114u8, 32u8, 111u8, 114u8, 32u8, 111u8, 117u8, 116u8, 32u8, 111u8, 102u8, 32u8, 114u8, 97u8, 110u8, 103u8, 101u8],
                CommandErrorVal::BadXread => seq![69u8, 82u8, 82u8, 32u8, 117u8, 110u8, 101u8, 120u8, 112u8, 101u8, 99u8, 116u8, 101u8, 100u8, 32u8, 97u8, 114u8, 103u8, 117u8, 109u8, 101u8, 110u8, 116u8, 115u8, 32u8, 102u8, 111u8, 114u8, 32u8, 120u8, 114u8, 101u8, 97u8, 100u8],
                CommandErrorVal::Unsupported(verb) => seq![69u8, 82u8, 82u8, 32u8, 117u8, 110u8, 115u8, 117u8, 112u8, 112u8, 111u8, 114u8, 116u8, 101u8, 100u8, 32u8, 99u8, 111u8, 109u8, 109u8, 97u8, 110u8, 100u8, 44u8, 32u8]
                    + verb,
            }),
        ),
{
    match e {
        CommandError::NotArray => {
            let t: Vec<u8> = vec![69, 82, 82, 32, 117, 110, 101, 120, 112, 101, 99, 116, 101, 100, 32, 99, 111, 109, 109, 97, 110, 100, 32, 102, 111, 114, 109, 97, 116];
            proof {
                assert(t@ =~= seq![69u8, 82u8, 82u8, 32u8, 117u8, 110u8, 101u8, 120u8, 112u8, 101u8, 99u8, 116u8, 101u8, 100u8, 32u8, 99u8, 111u8, 109u8, 109u8, 97u8, 110u8, 100u8, 32u8, 102u8, 111u8, 114u8, 109u8, 97u8, 116u8]);
            }
            Message::Error(t)
        },
        CommandError::BadArg => {
            let t: Vec<u8> = vec![69, 82, 82, 32, 119, 114, 111, 110, 103, 32, 97, 114, 103, 117, 109, 101, 110, 116, 115, 32, 102, 111, 114, 32, 99, 111, 109, 109, 97, 110, 100];
            proof {
                assert(t@ =~= seq![69u8, 82u8, 82u8, 32u8, 119u8, 114u8, 111u8, 110u8, 103u8, 32u8, 97u8, 114u8, 103u8, 117u8, 109u8, 101u8, 110u8, 116u8, 115u8, 32u8, 102u8, 111u8, 114u8, 32u8, 99u8, 111u8, 109u8, 109u8, 97u8, 110u8, 100u8]);
            }
            Message::Error(t)
        },
        CommandError::Incomplete => {
            let t: Vec<u8> = vec![69, 82, 82, 32, 105, 110, 99, 111, 109, 112, 108, 101, 116, 101, 32, 99, 111, 109, 109, 97, 110, 100];
            proof {
                assert(t@ =~= seq![69u8, 82u8, 82u8, 32u8, 105u8, 110u8, 99u8, 111u8, 109u8, 112u8, 108u8, 101u8, 116u8, 101u8, 32u8, 99u8, 111u8, 109u8, 109u8, 97u8, 110u8, 100u8]);
            }
            Message::Error(t)
        },
        CommandError::NotPairs => {
            let t: Vec<u8> = vec![69, 82, 82, 32, 115, 116, 114, 101, 97, 109, 32, 100, 97, 116, 97, 32, 110, 101, 101, 100, 115, 32, 102, 105, 101, 108, 100, 32, 118, 97, 108, 117, 101, 32, 112, 97, 105, 114, 115];
            proof {
                assert(t@ =~= seq![69u8, 82u8, 82u8, 32u8, 115u8, 116u8, 114u8, 101u8, 97u8, 109u8, 32u8, 100u8, 97u8, 116u8, 97u8, 32u8, 110u8, 101u8, 101u8, 100u8, 115u8, 32u8, 102u8, 105u8, 101u8, 108u8, 100u8, 32u8, 118u8, 97u8, 108u8, 117u8, 101u8, 32u8, 112u8, 97u8, 105u8, 114u8, 115u8]);
            }
            Message::Error(t)
        },
        CommandError::BadNumber => {
            let t: Vec<u8> = vec![69, 82, 82, 32, 118, 97, 108, 117, 101, 32, 105, 115, 32, 110, 111, 116, 32, 97, 110, 32, 105, 110, 116, 101, 103, 101, 114, 32, 111, 114, 32, 111, 117, 116, 32, 111, 102, 32, 114, 97, 110, 103, 101];
            proof {
                assert(t@ =~= seq![69u8, 82u8, 82u8, 32u8, 118u8, 97u8, 108u8, 117u8, 101u8, 32u8, 105u8, 115u8, 32u8, 110u8, 111u8, 116u8, 32u8, 97u8, 110u8, 32u8, 105u8, 110u8, 116u8, 101u8, 103u8, 101u8, 114u8, 32u8, 111u8, 114u8, 32u8, 111u8, 117u8, 116u8, 32u8, 111u8, 102u8, 32u8, 114u8, 97u8, 110u8, 103u8, 101u8]);
            }
            Message::Error(t)
        },
        CommandError::BadXread => {
            let t: Vec<u8> = vec![69, 82, 82, 32, 117, 110, 101, 120, 112, 101, 99, 116, 101, 100, 32, 97, 114, 103, 117, 109, 101, 110, 116, 115, 32, 102, 111, 114, 32, 120, 114, 101, 97, 100];
            proof {
                assert(t@ =~= seq![69u8, 82u8, 82u8, 32u8, 117u8, 110u8, 101u8, 120u8, 112u8, 101u8, 99u8, 116u8, 101u8, 100u8, 32u8, 97u8, 114u8, 103u8, 117u8, 109u8, 101u8, 110u8, 116u8, 115u8, 32u8, 102u8, 111u8, 114u8, 32u8, 120u8, 114u8, 101u8, 97u8, 100u8]);
            }
            Message::Error(t)
        },
        CommandError::Unsupported(verb) => {
            let mut t: Vec<u8> = vec![69, 82, 82, 32, 117, 110, 115, 117, 112, 112, 111, 114, 116, 101, 100, 32, 99, 111, 109, 109, 97, 110, 100, 44, 32];
            push_bytes(&mut t, verb.as_slice());
            proof {
                assert(t@ =~= seq![69u8, 82u8, 82u8, 32u8, 117u8, 110u8, 115u8, 117u8, 112u8, 112u8, 111u8, 114u8, 116u8, 101u8, 100u8, 32u8, 99u8, 111u8, 109u8, 109u8, 97u8, 110u8, 100u8, 44u8, 32u8] + verb@);
            }
            Message::Error(t)
        },
    }
}

} // verus!
