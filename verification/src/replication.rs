//! Replication: the outbound handshake state machine, the per-replica
//! channel payloads, and the replica-side frame splitter.

use vstd::prelude::*;

use crate::messages::{Message, MessageVal, spec_parse, spec_find_crlf, find_crlf, crlf};
use crate::num::{spec_parse_i64, parse_i64};
use crate::config::{ServerInformation, ReplicationRole};
use crate::num::{spec_dec_digits, u64_to_dec};

verus! {

/// One message queued to a replica, with the optional acknowledgement
/// deadline in milliseconds that `WAIT` attaches.
pub struct ReplicaCommand {
    pub message: Message,
    pub timeout: Option<u64>,
}

impl ReplicaCommand {
    pub fn new(message: Message) -> (r: ReplicaCommand)
        ensures
            r.message@ == message@,
            r.timeout is None,
    {
        ReplicaCommand { message, timeout: None }
    }

    pub fn with_timeout(message: Message, duration: u64) -> (r: ReplicaCommand)
        ensures
            r.message@ == message@,
            r.timeout == Some(duration),
    {
        ReplicaCommand { message, timeout: Some(duration) }
    }
}

/// Whether a replica answered a `GETACK` before its deadline.
#[derive(Debug, Clone, Copy, PartialEq, Eq, Structural)]
pub struct ReplicaResponse {
    pub expired: bool,
}

impl ReplicaResponse {
    pub fn received() -> (r: ReplicaResponse)
        ensures
            r.expired == false,
    {
        ReplicaResponse { expired: false }
    }

    pub fn expired() -> (r: ReplicaResponse)
        ensures
            r.expired == true,
    {
        ReplicaResponse { expired: true }
    }
}

/// What a replica reads from its master: the snapshot payload once, then
/// ordinary messages.
pub enum ReplicaMessage {
    RdbFile(Vec<u8>),
    Response(Message),
}

pub enum ReplicaMessageVal {
    RdbFile(Seq<u8>),
    Response(MessageVal),
}

impl View for ReplicaMessage {
    type V = ReplicaMessageVal;

    open spec fn view(&self) -> ReplicaMessageVal {
        match self {
            ReplicaMessage::RdbFile(b) => ReplicaMessageVal::RdbFile(b@),
            ReplicaMessage::Response(m) => ReplicaMessageVal::Response(m@),
        }
    }
}

impl ReplicaMessage {
    pub fn is_rdb_file(&self) -> (r: bool)
        ensures
            r == (self@ is RdbFile),
    {
        match self {
            ReplicaMessage::RdbFile(b) => true,
            _ => false,
        }
    }

    pub fn is_response(&self) -> (r: bool)
        ensures
            r == (self@ is Response),
    {
        match self {
            ReplicaMessage::Response(m) => true,
            _ => false,
        }
    }
}

/// Only the replica role replicates.
pub fn needs_to_replicate(info: &ServerInformation) -> (r: bool)
    ensures
        r == (info.role is Replication),
{
    match &info.role {
        ReplicationRole::Master => false,
        ReplicationRole::Replication(a) => true,
    }
}

/// The upstream address text of a replica.
pub fn get_master_addr(info: &ServerInformation) -> (r: Option<&Vec<u8>>)
    ensures
        (match (info.role, r) {
            (ReplicationRole::Replication(a), Some(v)) => v@ == a@,
            (ReplicationRole::Master, None) => true,
            _ => false,
        }),
{
    match &info.role {
        ReplicationRole::Master => None,
        ReplicationRole::Replication(a) => Some(a),
    }
}

/// The four ordered steps of the outbound handshake, then steady state.
#[derive(Debug, Clone, Copy, PartialEq, Eq, Structural)]
pub enum HandshakeState {
    Ping,
    SendPort,
    SendCapa,
    SendPsync,
    Done,
}

pub open spec fn spec_handshake_message(state: HandshakeState, listening_port: u16) -> Option<
    MessageVal,
> {
    match state {
        HandshakeState::Ping => Some(
            MessageVal::Array(seq![MessageVal::BulkString(seq![112u8, 105u8, 110u8, 103u8])]),
        ),
        HandshakeState::SendPort => Some(
            MessageVal::Array(
                seq![
                    MessageVal::BulkString(seq![82u8, 69u8, 80u8, 76u8, 67u8, 79u8, 78u8, 70u8]),
                    MessageVal::BulkString(seq![108u8, 105u8, 115u8, 116u8, 101u8, 110u8, 105u8, 110u8, 103u8, 45u8, 112u8, 111u8, 114u8, 116u8]),
                    MessageVal::BulkString(spec_dec_digits(listening_port as nat)),
                ],
            ),
        ),
        HandshakeState::SendCapa => Some(
            MessageVal::Array(
                seq![
                    MessageVal::BulkString(seq![82u8, 69u8, 80u8, 76u8, 67u8, 79u8, 78u8, 70u8]),
                    MessageVal::BulkString(seq![99u8, 97u8, 112u8, 97u8]),
                    MessageVal::BulkString(seq![112u8, 115u8, 121u8, 110u8, 99u8, 50u8]),
                ],
            ),
        ),
        HandshakeState::SendPsync => Some(
            MessageVal::Array(
                seq![
                    MessageVal::BulkString(seq![80u8, 83u8, 89u8, 78u8, 67u8]),
                    MessageVal::BulkString(seq![63u8]),
                    MessageVal::BulkString(seq![45u8, 49u8]),
                ],
            ),
        ),
        HandshakeState::Done => None,
    }
}

/// The message to send upstream in this handshake step.
pub fn handshake_message(state: &HandshakeState, listening_port: u16) -> (r: Option<Message>)
    ensures
        (match (spec_handshake_message(*state, listening_port), r) {
            (Some(v), Some(m)) => m@ == v,
            (None, None) => true,
            _ => false,
        }),
{
    match state {
        HandshakeState::Ping => {
            let mut items: Vec<Message> = Vec::new();
            items.push(Message::BulkString(vec![112, 105, 110, 103]));
            let m = Message::Array(items);
            proof {
                crate::messages::lemma_msgs_view_index(m->Array_0@);
                assert(m@->Array_0 =~~= spec_handshake_message(*state, listening_port)->Some_0->Array_0);
            }
            Some(m)
        },
        HandshakeState::SendPort => {
            let mut items: Vec<Message> = Vec::new();
            items.push(Message::BulkString(vec![82, 69, 80, 76, 67, 79, 78, 70]));
            items.push(Message::BulkString(vec![108, 105, 115, 116, 101, 110, 105, 110, 103, 45, 112, 111, 114, 116]));
            items.push(Message::BulkString(u64_to_dec(listening_port as u64)));
            let m = Message::Array(items);
            proof {
                crate::messages::lemma_msgs_view_index(m->Array_0@);
                assert(m@->Array_0 =~~= spec_handshake_message(*state, listening_port)->Some_0->Array_0);
            }
            Some(m)
        },
        HandshakeState::SendCapa => {
            let mut items: Vec<Message> = Vec::new();
            items.push(Message::BulkString(vec![82, 69, 80, 76, 67, 79, 78, 70]));
            items.push(Message::BulkString(vec![99, 97, 112, 97]));
            items.push(Message::BulkString(vec![112, 115, 121, 110, 99, 50]));
            let m = Message::Array(items);
            proof {
                crate::messages::lemma_msgs_view_index(m->Array_0@);
                assert(m@->Array_0 =~~= spec_handshake_message(*state, listening_port)->Some_0->Array_0);
            }
            Some(m)
        },
        HandshakeState::SendPsync => {
            let mut items: Vec<Message> = Vec::new();
            let a0: Vec<u8> = vec![80, 83, 89, 78, 67];
            let a1: Vec<u8> = vec![63];
            let a2: Vec<u8> = vec![45, 49];
            proof {
                assert(a0@ =~= seq![80u8, 83u8, 89u8, 78u8, 67u8]);
                assert(a1@ =~= seq![63u8]);
                assert(a2@ =~= seq![45u8, 49u8]);
            }
            items.push(Message::BulkString(a0));
            items.push(Message::BulkString(a1));
            items.push(Message::BulkString(a2));
            let m = Message::Array(items);
            proof {
                crate::messages::lemma_msgs_view_index(m->Array_0@);
                assert(m@->Array_0 =~~= spec_handshake_message(*state, listening_port)->Some_0->Array_0);
            }
            Some(m)
        },
        HandshakeState::Done => None,
    }
}

/// The next handshake step; each step is taken once, in order.
pub fn handshake_advance(state: &HandshakeState) -> (r: HandshakeState)
    ensures
        r == (match *state {
            HandshakeState::Ping => HandshakeState::SendPort,
            HandshakeState::SendPort => HandshakeState::SendCapa,
            HandshakeState::SendCapa => HandshakeState::SendPsync,
            HandshakeState::SendPsync => HandshakeState::Done,
            HandshakeState::Done => HandshakeState::Done,
        }),
{
    match state {
        HandshakeState::Ping => HandshakeState::SendPort,
        HandshakeState::SendPort => HandshakeState::SendCapa,
        HandshakeState::SendCapa => HandshakeState::SendPsync,
        HandshakeState::SendPsync => HandshakeState::Done,
        HandshakeState::Done => HandshakeState::Done,
    }
}

/// How one upstream read splits: a `$`-tagged frame is the snapshot payload,
/// `+ - : *` start ordinary messages, anything else ends the scan.
pub open spec fn spec_split_replica(s: Seq<u8>) -> Seq<ReplicaMessageVal>
    decreases s.len(),
{
    if s.len() == 0 {
        Seq::empty()
    } else if s[0] == 0x24 {
        match spec_find_crlf(s.skip(1)) {
            Some(k) => match spec_parse_i64(s.skip(1).take(k)) {
                Some(n) => if n >= 0 && 0 <= k && 3 + k + n <= s.len() {
                    let payload = s.subrange(3 + k, 3 + k + n);
                    let used = 3 + k + n;
                    if used >= 1 {
                        seq![ReplicaMessageVal::RdbFile(payload)] + spec_split_replica(
                            s.skip(used),
                        )
                    } else {
                        seq![ReplicaMessageVal::RdbFile(payload)]
                    }
                } else {
                    Seq::empty()
                },
                None => Seq::empty(),
            },
            None => Seq::empty(),
        }
    } else if s[0] == 0x2B || s[0] == 0x2D || s[0] == 0x3A || s[0] == 0x2A {
        match spec_parse(s) {
            Some((v, used)) => if 1 <= used <= s.len() {
                seq![ReplicaMessageVal::Response(v)] + spec_split_replica(s.skip(used))
            } else {
                seq![ReplicaMessageVal::Response(v)]
            },
            None => Seq::empty(),
        }
    } else {
        Seq::empty()
    }
}


proof fn lemma_map_values_push_replica(s: Seq<ReplicaMessage>, m: ReplicaMessage)
    ensures
        s.push(m).map_values(|x: ReplicaMessage| x@) == s.map_values(|x: ReplicaMessage| x@).push(
            m@,
        ),
{
    assert(s.push(m).map_values(|x: ReplicaMessage| x@) =~= s.map_values(
        |x: ReplicaMessage| x@,
    ).push(m@));
}

/// Split one upstream read into snapshot and message frames.
pub fn split_replica_frames(data: &[u8]) -> (r: Vec<ReplicaMessage>)
    ensures
        r@.map_values(|m: ReplicaMessage| m@) == spec_split_replica(data@),
{
    let n = data.len();
    let mut out: Vec<ReplicaMessage> = Vec::new();
    let mut pos: usize = 0;
    proof {
        assert(data@.skip(0) =~= data@);
    }
    loop
        invariant
            0 <= pos <= n,
            n == data@.len(),
            spec_split_replica(data@) == out@.map_values(|m: ReplicaMessage| m@)
                + spec_split_replica(data@.skip(pos as int)),
        decreases n - pos,
    {
        let ghost pre = out@.map_values(|m: ReplicaMessage| m@);
        if pos >= n {
            proof {
                assert(pre + spec_split_replica(data@.skip(pos as int)) =~= pre);
            }
            return out;
        }
        let tag = data[pos];
        proof {
            assert(data@.skip(pos as int)[0] == data@[pos as int]);
            assert(data@.skip(pos as int).skip(1) =~= data@.skip(pos + 1));
        }
        if tag == 0x24 {
            let ghost suf = data@.skip(pos as int);
            match find_crlf(data, pos + 1) {
                Some(kabs) => {
                    let line = vstd::slice::slice_subrange(data, pos + 1, kabs);
                    proof {
                        assert(line@ =~= suf.skip(1).take(kabs - pos - 1));
                    }
                    match parse_i64(line) {
                        Some(nlen) => {
                            let content_start = kabs + 2;
                            let remaining = n - content_start;
                            if nlen >= 0 && (nlen as u64) <= remaining as u64 {
                                let len_usize = nlen as usize;
                                let payload = vstd::slice::slice_to_vec(
                                    vstd::slice::slice_subrange(
                                        data,
                                        content_start,
                                        content_start + len_usize,
                                    ),
                                );
                                let used_end = content_start + len_usize;
                                proof {
                                    let k = (kabs - pos - 1) as int;
                                    assert(suf.subrange(3 + k, 3 + k + nlen) =~= data@.subrange(
                                        content_start as int,
                                        content_start + len_usize,
                                    ));
                                    assert(suf.skip(3 + k + nlen) =~= data@.skip(used_end as int));
                                    lemma_map_values_push_replica(
                                        out@,
                                        ReplicaMessage::RdbFile(payload),
                                    );
                                    assert(pre + (seq![
                                        ReplicaMessageVal::RdbFile(payload@),
                                    ] + spec_split_replica(data@.skip(used_end as int))) =~= (
                                    pre.push(ReplicaMessageVal::RdbFile(payload@))
                                        + spec_split_replica(data@.skip(used_end as int))));
                                }
                                out.push(ReplicaMessage::RdbFile(payload));
                                pos = used_end;
                            } else {
                                proof {
                                    assert(pre + spec_split_replica(data@.skip(pos as int))
                                        =~= pre);
                                }
                                return out;
                            }
                        },
                        None => {
                            proof {
                                assert(pre + spec_split_replica(data@.skip(pos as int)) =~= pre);
                            }
                            return out;
                        },
                    }
                },
                None => {
                    proof {
                        assert(pre + spec_split_replica(data@.skip(pos as int)) =~= pre);
                    }
                    return out;
                },
            }
        } else if tag == 0x2B || tag == 0x2D || tag == 0x3A || tag == 0x2A {
            match Message::parse(vstd::slice::slice_subrange(data, pos, n)) {
                Ok((m, used)) => {
                    proof {
                        assert(data@.subrange(pos as int, n as int) =~= data@.skip(pos as int));
                        assert(data@.skip(pos as int).skip(used as int) =~= data@.skip(
                            pos + used,
                        ));
                        lemma_map_values_push_replica(
                            out@,
                            ReplicaMessage::Response(m),
                        );
                        assert(pre + (seq![ReplicaMessageVal::Response(m@)] + spec_split_replica(
                            data@.skip(pos + used as int),
                        )) =~= (pre.push(ReplicaMessageVal::Response(m@)) + spec_split_replica(
                            data@.skip(pos + used as int),
                        )));
                    }
                    out.push(ReplicaMessage::Response(m));
                    pos = pos + used;
                },
                Err(e) => {
                    proof {
                        assert(data@.subrange(pos as int, n as int) =~= data@.skip(pos as int));
                        assert(pre + spec_split_replica(data@.skip(pos as int)) =~= pre);
                    }
                    return out;
                },
            }
        } else {
            proof {
                assert(pre + spec_split_replica(data@.skip(pos as int)) =~= pre);
            }
            return out;
        }
    }
}

} // verus!
