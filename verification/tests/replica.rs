use miniredis::config::{ReplicationRole, ServerInformation};
use miniredis::dispatch::replica_apply;
use miniredis::messages::Message;
use miniredis::replication::{
    handshake_advance, handshake_message, needs_to_replicate, split_replica_frames,
    HandshakeState, ReplicaCommand, ReplicaMessage, ReplicaResponse,
};
use miniredis::store::Store;

fn cmd(parts: &[&[u8]]) -> Message {
    Message::Array(parts.iter().map(|p| Message::BulkString(p.to_vec())).collect())
}

#[test]
fn getack_reports_bytes_before_it() {
    let mut store = Store::new();
    let set = cmd(&[b"SET", b"x", b"1"]);
    let set_len = set.serialize().len() as u64;
    let (resp, bytes) = replica_apply(&mut store, &set, 0, 0);
    assert!(resp.is_none());
    assert_eq!(bytes, set_len);
    // the write landed silently
    assert_eq!(
        store.get_kv_value(&b"x".to_vec(), 0).unwrap().value,
        b"1".to_vec()
    );
    let getack = cmd(&[b"REPLCONF", b"GETACK", b"*"]);
    let (resp2, bytes2) = replica_apply(&mut store, &getack, bytes, 0);
    let ack = resp2.expect("GETACK must be answered");
    let expect = format!(
        "*3\r\n$8\r\nREPLCONF\r\n$3\r\nACK\r\n${}\r\n{}\r\n",
        set_len.to_string().len(),
        set_len
    );
    assert_eq!(ack.serialize(), expect.into_bytes());
    assert_eq!(bytes2, bytes + getack.serialize().len() as u64);
}

#[test]
fn ping_is_counted_but_silent() {
    let mut store = Store::new();
    let ping = cmd(&[b"PING"]);
    let (resp, bytes) = replica_apply(&mut store, &ping, 10, 0);
    assert!(resp.is_none());
    assert_eq!(bytes, 10 + ping.serialize().len() as u64);
}

#[test]
fn unparseable_message_is_not_counted() {
    let mut store = Store::new();
    let junk = Message::Integer(5);
    let (resp, bytes) = replica_apply(&mut store, &junk, 7, 0);
    assert!(resp.is_none());
    assert_eq!(bytes, 7);
}

#[test]
fn handshake_sequence() {
    let mut st = HandshakeState::Ping;
    let m1 = handshake_message(&st, 6380).unwrap();
    assert_eq!(m1.serialize(), b"*1\r\n$4\r\nping\r\n".to_vec());
    st = handshake_advance(&st);
    let m2 = handshake_message(&st, 6380).unwrap();
    assert_eq!(
        m2.serialize(),
        b"*3\r\n$8\r\nREPLCONF\r\n$14\r\nlistening-port\r\n$4\r\n6380\r\n".to_vec()
    );
    st = handshake_advance(&st);
    let m3 = handshake_message(&st, 6380).unwrap();
    assert_eq!(
        m3.serialize(),
        b"*3\r\n$8\r\nREPLCONF\r\n$4\r\ncapa\r\n$6\r\npsync2\r\n".to_vec()
    );
    st = handshake_advance(&st);
    let m4 = handshake_message(&st, 6380).unwrap();
    assert_eq!(
        m4.serialize(),
        b"*3\r\n$5\r\nPSYNC\r\n$1\r\n?\r\n$2\r\n-1\r\n".to_vec()
    );
    st = handshake_advance(&st);
    assert_eq!(st, HandshakeState::Done);
    assert!(handshake_message(&st, 6380).is_none());
}

#[test]
fn role_decides_replication() {
    let master = ServerInformation::new(ReplicationRole::Master, 6379, None, None);
    assert!(!needs_to_replicate(&master));
    let replica = ServerInformation::new(
        ReplicationRole::Replication(b"127.0.0.1:6379".to_vec()),
        6380,
        None,
        None,
    );
    assert!(needs_to_replicate(&replica));
}

#[test]
fn split_snapshot_then_commands() {
    // `$5\r\nhello` (no trailing CRLF) followed by +OK\r\n and a SET array
    let mut buffer = b"$5\r\nhello".to_vec();
    buffer.extend_from_slice(b"+OK\r\n");
    buffer.extend_from_slice(&cmd(&[b"SET", b"x", b"1"]).serialize());
    let frames = split_replica_frames(&buffer);
    assert_eq!(frames.len(), 3);
    match &frames[0] {
        ReplicaMessage::RdbFile(b) => assert_eq!(b, &b"hello".to_vec()),
        _ => panic!("expected the snapshot frame first"),
    }
    assert!(frames[0].is_rdb_file());
    assert!(!frames[0].is_response());
    match &frames[1] {
        ReplicaMessage::Response(m) => assert_eq!(*m, Message::SimpleString(b"OK".to_vec())),
        _ => panic!("expected a message"),
    }
    assert!(frames[2].is_response());
}

#[test]
fn split_stops_on_unknown_tag() {
    let mut buffer = b"+OK\r\n".to_vec();
    buffer.extend_from_slice(b"\x00junk");
    let frames = split_replica_frames(&buffer);
    assert_eq!(frames.len(), 1);
}

#[test]
fn replica_command_carries_timeout() {
    let c = ReplicaCommand::new(cmd(&[b"PING"]));
    assert!(c.timeout.is_none());
    let c2 = ReplicaCommand::with_timeout(cmd(&[b"PING"]), 500);
    assert_eq!(c2.timeout, Some(500));
    assert!(!ReplicaResponse::received().expired);
    assert!(ReplicaResponse::expired().expired);
}
