use miniredis::commands::parse_client_command;
use miniredis::config::{ReplicationRole, ServerInformation};
use miniredis::dispatch::{command_error_response, execute_command, DispatchOutcome};
use miniredis::messages::Message;
use miniredis::store::Store;

fn cmd(parts: &[&[u8]]) -> Message {
    Message::Array(parts.iter().map(|p| Message::BulkString(p.to_vec())).collect())
}

fn master_info() -> ServerInformation {
    ServerInformation::new(ReplicationRole::Master, 6379, None, None)
}

/// Run one command at `now_ms` and return the serialized reply.
fn run(store: &mut Store, info: &ServerInformation, message: &Message, now_ms: u64) -> Vec<u8> {
    let parsed = parse_client_command(message, now_ms).unwrap();
    match execute_command(store, info, 0, parsed, now_ms) {
        DispatchOutcome::Reply(m) => m.serialize(),
        DispatchOutcome::ReplyAndReplicate(m) => m.serialize(),
        DispatchOutcome::FullResync(m) => m.serialize(),
        DispatchOutcome::AwaitReplicas(_, _) => panic!("unexpected wait outcome"),
    }
}

#[test]
fn ping_pong() {
    let (m, _) = Message::parse(b"*1\r\n$4\r\nPING\r\n").unwrap();
    let mut store = Store::new();
    let info = master_info();
    assert_eq!(run(&mut store, &info, &m, 0), b"+PONG\r\n".to_vec());
}

#[test]
fn set_then_get() {
    let mut store = Store::new();
    let info = master_info();
    let (set, _) = Message::parse(b"*3\r\n$3\r\nSET\r\n$3\r\nfoo\r\n$3\r\nbar\r\n").unwrap();
    assert_eq!(run(&mut store, &info, &set, 0), b"+OK\r\n".to_vec());
    let (get, _) = Message::parse(b"*2\r\n$3\r\nGET\r\n$3\r\nfoo\r\n").unwrap();
    assert_eq!(run(&mut store, &info, &get, 0), b"$3\r\nbar\r\n".to_vec());
}

#[test]
fn set_with_px_expires() {
    let mut store = Store::new();
    let info = master_info();
    let set = cmd(&[b"SET", b"foo", b"bar", b"PX", b"100"]);
    assert_eq!(run(&mut store, &info, &set, 0), b"+OK\r\n".to_vec());
    let get = cmd(&[b"GET", b"foo"]);
    // still live exactly at the deadline
    assert_eq!(run(&mut store, &info, &get, 100), b"$3\r\nbar\r\n".to_vec());
    // 200 ms later the entry reads as absent
    assert_eq!(run(&mut store, &info, &get, 200), b"$-1\r\n".to_vec());
}

#[test]
fn set_overwrites_previous_value() {
    let mut store = Store::new();
    let info = master_info();
    run(&mut store, &info, &cmd(&[b"SET", b"k", b"one"]), 0);
    run(&mut store, &info, &cmd(&[b"SET", b"k", b"two"]), 0);
    assert_eq!(
        run(&mut store, &info, &cmd(&[b"GET", b"k"]), 0),
        b"$3\r\ntwo\r\n".to_vec()
    );
}

#[test]
fn get_missing_is_null() {
    let mut store = Store::new();
    let info = master_info();
    assert_eq!(
        run(&mut store, &info, &cmd(&[b"GET", b"nope"]), 0),
        b"$-1\r\n".to_vec()
    );
}

#[test]
fn echo_returns_bulk() {
    let mut store = Store::new();
    let info = master_info();
    assert_eq!(
        run(&mut store, &info, &cmd(&[b"ECHO", b"hey"]), 0),
        b"$3\r\nhey\r\n".to_vec()
    );
}

#[test]
fn xadd_equal_id_is_rejected() {
    let mut store = Store::new();
    let info = master_info();
    let first = cmd(&[b"XADD", b"s", b"1-1", b"a", b"1"]);
    assert_eq!(run(&mut store, &info, &first, 0), b"$3\r\n1-1\r\n".to_vec());
    let second = cmd(&[b"XADD", b"s", b"1-1", b"a", b"2"]);
    assert_eq!(
        run(&mut store, &info, &second, 0),
        b"-ERR The ID specified in XADD is equal or smaller than the target stream top item\r\n"
            .to_vec()
    );
}

#[test]
fn xadd_zero_id_is_rejected() {
    let mut store = Store::new();
    let info = master_info();
    let zero = cmd(&[b"XADD", b"s", b"0-0", b"a", b"1"]);
    assert_eq!(
        run(&mut store, &info, &zero, 0),
        b"-ERR The ID specified in XADD must be greater than 0-0\r\n".to_vec()
    );
}

#[test]
fn xadd_auto_seq_continues() {
    let mut store = Store::new();
    let info = master_info();
    let first = cmd(&[b"XADD", b"s", b"1-*", b"t", b"36"]);
    assert_eq!(run(&mut store, &info, &first, 0), b"$3\r\n1-0\r\n".to_vec());
    let second = cmd(&[b"XADD", b"s", b"1-*", b"t", b"36"]);
    assert_eq!(run(&mut store, &info, &second, 0), b"$3\r\n1-1\r\n".to_vec());
}

#[test]
fn xadd_auto_seq_at_ms_zero_starts_at_one() {
    let mut store = Store::new();
    let info = master_info();
    let first = cmd(&[b"XADD", b"s", b"0-*", b"t", b"1"]);
    assert_eq!(run(&mut store, &info, &first, 0), b"$3\r\n0-1\r\n".to_vec());
}

#[test]
fn xadd_full_auto_uses_clock() {
    let mut store = Store::new();
    let info = master_info();
    let m = cmd(&[b"XADD", b"s", b"*", b"t", b"1"]);
    assert_eq!(run(&mut store, &info, &m, 55), b"$4\r\n55-0\r\n".to_vec());
    assert_eq!(run(&mut store, &info, &m, 55), b"$4\r\n55-1\r\n".to_vec());
}

#[test]
fn xrange_inclusive_bounds() {
    let mut store = Store::new();
    let info = master_info();
    run(&mut store, &info, &cmd(&[b"XADD", b"s", b"1-1", b"a", b"1"]), 0);
    run(&mut store, &info, &cmd(&[b"XADD", b"s", b"2-1", b"b", b"2"]), 0);
    run(&mut store, &info, &cmd(&[b"XADD", b"s", b"3-1", b"c", b"3"]), 0);
    let q = cmd(&[b"XRANGE", b"s", b"1-0", b"2-1"]);
    let expect = b"*2\r\n*2\r\n$3\r\n1-1\r\n*2\r\n$1\r\na\r\n$1\r\n1\r\n*2\r\n$3\r\n2-1\r\n*2\r\n$1\r\nb\r\n$1\r\n2\r\n";
    assert_eq!(run(&mut store, &info, &q, 0), expect.to_vec());
    // a bare ms high bound resolves through `<ms>-*` against the newest id:
    // with the stream topped by 3-1, the bound `2` stands for 2-0
    let q2 = cmd(&[b"XRANGE", b"s", b"1", b"2"]);
    let expect2 = b"*1\r\n*2\r\n$3\r\n1-1\r\n*2\r\n$1\r\na\r\n$1\r\n1\r\n";
    assert_eq!(run(&mut store, &info, &q2, 0), expect2.to_vec());
    // and with the matching newest ms it covers every entry of that ms
    let q3 = cmd(&[b"XRANGE", b"s", b"1", b"3"]);
    let expect3 = b"*3\r\n*2\r\n$3\r\n1-1\r\n*2\r\n$1\r\na\r\n$1\r\n1\r\n*2\r\n$3\r\n2-1\r\n*2\r\n$1\r\nb\r\n$1\r\n2\r\n*2\r\n$3\r\n3-1\r\n*2\r\n$1\r\nc\r\n$1\r\n3\r\n";
    assert_eq!(run(&mut store, &info, &q3, 0), expect3.to_vec());
}

#[test]
fn xrange_open_bounds() {
    let mut store = Store::new();
    let info = master_info();
    run(&mut store, &info, &cmd(&[b"XADD", b"s", b"1-1", b"a", b"1"]), 0);
    let q = cmd(&[b"XRANGE", b"s", b"-", b"+"]);
    let expect = b"*1\r\n*2\r\n$3\r\n1-1\r\n*2\r\n$1\r\na\r\n$1\r\n1\r\n";
    assert_eq!(run(&mut store, &info, &q, 0), expect.to_vec());
}

#[test]
fn xread_strictly_after() {
    let mut store = Store::new();
    let info = master_info();
    run(&mut store, &info, &cmd(&[b"XADD", b"s", b"1-1", b"a", b"1"]), 0);
    run(&mut store, &info, &cmd(&[b"XADD", b"s", b"2-1", b"b", b"2"]), 0);
    let q = cmd(&[b"XREAD", b"STREAMS", b"s", b"1-1"]);
    let expect = b"*1\r\n*2\r\n$1\r\ns\r\n*1\r\n*2\r\n$3\r\n2-1\r\n*2\r\n$1\r\nb\r\n$1\r\n2\r\n";
    assert_eq!(run(&mut store, &info, &q, 0), expect.to_vec());
}

#[test]
fn type_of_entries() {
    let mut store = Store::new();
    let info = master_info();
    run(&mut store, &info, &cmd(&[b"SET", b"k", b"v"]), 0);
    run(&mut store, &info, &cmd(&[b"XADD", b"s", b"1-1", b"a", b"1"]), 0);
    assert_eq!(
        run(&mut store, &info, &cmd(&[b"TYPE", b"k"]), 0),
        b"+string\r\n".to_vec()
    );
    assert_eq!(
        run(&mut store, &info, &cmd(&[b"TYPE", b"s"]), 0),
        b"+stream\r\n".to_vec()
    );
    assert_eq!(
        run(&mut store, &info, &cmd(&[b"TYPE", b"zzz"]), 0),
        b"+none\r\n".to_vec()
    );
    // a TYPE with no key to look at is a command error
    assert_eq!(
        run(&mut store, &info, &cmd(&[b"TYPE"]), 0),
        b"-ERR Need a key to fetch the type\r\n".to_vec()
    );
}

#[test]
fn keys_star_lists_all() {
    let mut store = Store::new();
    let info = master_info();
    run(&mut store, &info, &cmd(&[b"SET", b"a", b"1"]), 0);
    run(&mut store, &info, &cmd(&[b"SET", b"b", b"2"]), 0);
    assert_eq!(
        run(&mut store, &info, &cmd(&[b"KEYS", b"*"]), 0),
        b"*2\r\n$1\r\na\r\n$1\r\nb\r\n".to_vec()
    );
    assert_eq!(
        run(&mut store, &info, &cmd(&[b"KEYS", b"a*"]), 0),
        b"-ERR Unsupported keys pattern\r\n".to_vec()
    );
}

#[test]
fn wait_with_no_writes_reports_replica_count() {
    let mut store = Store::new();
    let info = master_info();
    let parsed = parse_client_command(&cmd(&[b"WAIT", b"3", b"500"]), 0).unwrap();
    match execute_command(&mut store, &info, 2, parsed, 0) {
        DispatchOutcome::Reply(m) => assert_eq!(m.serialize(), b":2\r\n".to_vec()),
        _ => panic!("expected an immediate reply"),
    }
}

#[test]
fn wait_after_write_runs_ack_round() {
    let mut store = Store::new();
    let info = master_info();
    run(&mut store, &info, &cmd(&[b"SET", b"a", b"1"]), 0);
    let parsed = parse_client_command(&cmd(&[b"WAIT", b"3", b"500"]), 0).unwrap();
    match execute_command(&mut store, &info, 2, parsed, 0) {
        DispatchOutcome::AwaitReplicas(n, t) => {
            assert_eq!(n, 3);
            assert_eq!(t, 500);
        },
        _ => panic!("expected an acknowledgement round"),
    }
}

#[test]
fn info_replication_block() {
    let mut store = Store::new();
    let info = master_info();
    let reply = run(&mut store, &info, &cmd(&[b"INFO", b"replication"]), 0);
    let body = b"# Replication\nrole:master\nconnected_clients:0\nmaster_replid:8371b4fb1155b71f4a04d3e1bc3e18c4a990aeeb\nmaster_repl_offset:0\n";
    let mut expect = format!("${}\r\n", body.len()).into_bytes();
    expect.extend_from_slice(body);
    expect.extend_from_slice(b"\r\n");
    assert_eq!(reply, expect);
}

#[test]
fn config_get_dir() {
    let mut store = Store::new();
    let info = ServerInformation::new(
        ReplicationRole::Master,
        6379,
        Some(b"/tmp".to_vec()),
        None,
    );
    assert_eq!(
        run(&mut store, &info, &cmd(&[b"CONFIG", b"GET", b"dir"]), 0),
        b"*2\r\n$3\r\ndir\r\n$4\r\n/tmp\r\n".to_vec()
    );
    assert_eq!(
        run(&mut store, &info, &cmd(&[b"CONFIG", b"GET", b"dbfilename"]), 0),
        b"+Value not found\r\n".to_vec()
    );
    assert_eq!(
        run(&mut store, &info, &cmd(&[b"CONFIG", b"SET", b"dir"]), 0),
        b"-ERR Unsupported config action\r\n".to_vec()
    );
}

#[test]
fn psync_enters_full_resync() {
    let mut store = Store::new();
    let info = master_info();
    let parsed = parse_client_command(&cmd(&[b"PSYNC", b"?", b"-1"]), 0).unwrap();
    match execute_command(&mut store, &info, 0, parsed, 0) {
        DispatchOutcome::FullResync(m) => assert_eq!(
            m.serialize(),
            b"+FULLRESYNC 8371b4fb1155b71f4a04d3e1bc3e18c4a990aeeb 0\r\n".to_vec()
        ),
        _ => panic!("expected a full resync"),
    }
}

#[test]
fn unsupported_command_error() {
    let err = parse_client_command(&cmd(&[b"FLUSHALL"]), 0).unwrap_err();
    let reply = command_error_response(&err);
    assert_eq!(
        reply.serialize(),
        b"-ERR unsupported command, flushall\r\n".to_vec()
    );
}

#[test]
fn non_array_command_error() {
    let err = parse_client_command(&Message::SimpleString(b"hi".to_vec()), 0).unwrap_err();
    let reply = command_error_response(&err);
    assert_eq!(
        reply.serialize(),
        b"-ERR unexpected command format\r\n".to_vec()
    );
}

#[test]
fn incomplete_set_error() {
    let err = parse_client_command(&cmd(&[b"SET", b"k"]), 0).unwrap_err();
    let reply = command_error_response(&err);
    assert_eq!(reply.serialize(), b"-ERR incomplete command\r\n".to_vec());
}

#[test]
fn xadd_odd_fields_error() {
    let err = parse_client_command(&cmd(&[b"XADD", b"s", b"1-1", b"a"]), 0).unwrap_err();
    let reply = command_error_response(&err);
    assert_eq!(
        reply.serialize(),
        b"-ERR stream data needs field value pairs\r\n".to_vec()
    );
}

#[test]
fn wait_bad_number_error() {
    let err = parse_client_command(&cmd(&[b"WAIT", b"x", b"500"]), 0).unwrap_err();
    let reply = command_error_response(&err);
    assert_eq!(
        reply.serialize(),
        b"-ERR value is not an integer or out of range\r\n".to_vec()
    );
}

#[test]
fn xread_bad_first_token_error() {
    let err = parse_client_command(&cmd(&[b"XREAD", b"NOW", b"s", b"1-1"]), 0).unwrap_err();
    let reply = command_error_response(&err);
    assert_eq!(
        reply.serialize(),
        b"-ERR unexpected arguments for xread\r\n".to_vec()
    );
}

#[test]
fn xadd_bad_id_error() {
    let mut store = Store::new();
    let info = master_info();
    let reply = run(&mut store, &info, &cmd(&[b"XADD", b"s", b"junk!", b"a", b"1"]), 0);
    assert_eq!(
        reply,
        b"-ERR Invalid stream ID specified as stream command argument\r\n".to_vec()
    );
}

#[test]
fn xrange_missing_stream_error() {
    let mut store = Store::new();
    let info = master_info();
    let reply = run(&mut store, &info, &cmd(&[b"XRANGE", b"nope", b"-", b"+"]), 0);
    assert_eq!(reply, b"-ERR Unable to read stream\r\n".to_vec());
}

#[test]
fn get_mut_stream_borrows_the_stream() {
    let mut store = Store::new();
    let info = master_info();
    run(&mut store, &info, &cmd(&[b"XADD", b"s", b"1-1", b"a", b"1"]), 0);
    assert!(store.get_mut_stream(&b"nope".to_vec()).is_none());
    run(&mut store, &info, &cmd(&[b"SET", b"k", b"v"]), 0);
    assert!(store.get_mut_stream(&b"k".to_vec()).is_none());
    let st = store.get_mut_stream(&b"s".to_vec()).expect("the stream is there");
    assert_eq!(st.entries.len(), 1);
    assert_eq!(st.entries[0].0.ms, 1);
    assert_eq!(st.entries[0].0.seq, 1);
}

#[test]
fn set_px_bad_count_error() {
    let err = parse_client_command(&cmd(&[b"SET", b"k", b"v", b"PX", b"soon"]), 0).unwrap_err();
    let reply = command_error_response(&err);
    assert_eq!(
        reply.serialize(),
        b"-ERR value is not an integer or out of range\r\n".to_vec()
    );
    // a third argument that is not PX still means no expiry
    let mut store = Store::new();
    let info = master_info();
    let set = cmd(&[b"SET", b"k", b"v", b"EX", b"soon"]);
    assert_eq!(run(&mut store, &info, &set, 0), b"+OK\r\n".to_vec());
    assert_eq!(
        run(&mut store, &info, &cmd(&[b"GET", b"k"]), u64::MAX),
        b"$1\r\nv\r\n".to_vec()
    );
}
