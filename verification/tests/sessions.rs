//! Sessions, connections, and how they are shared out.

use cache_server::connection::{Action, Conn, Interest, Received, Sent};
use cache_server::reply::{make_array, make_bulk};
use cache_server::server::{listen_address, next_connection, started_line, thread_count};
use cache_server::session::{
    event_data, event_opened, run_requests, take_requests, try_event_data,
};
use cache_server::store::Store;

fn wire(list: &[&[u8]]) -> Vec<u8> {
    let mut out = make_array(list.len());
    for w in list {
        out.extend(make_bulk(&w.to_vec()));
    }
    out
}

fn receive(conn: &mut Conn, bytes: &[u8], store: &mut Store) -> Option<Action> {
    match conn.received(Received::Bytes(bytes.to_vec())) {
        Some(Action::Run { requests }) => Some(conn.run(&requests, store)),
        other => other,
    }
}

fn stored(store: &Store, key: &[u8]) -> Option<Vec<u8>> {
    store.get(&key.to_vec()).cloned()
}

#[test]
fn nobody_is_greeted() {
    assert_eq!(event_opened(1), (Vec::new(), false));
}

#[test]
fn a_request_is_answered_and_carried_out() {
    let mut store = Store::new();
    let mut input = wire(&[b"SET", b"k", b"a\r\nb"]);
    assert_eq!(event_data(1, &mut input, &mut store), (b"+OK\r\n".to_vec(), false));
    assert!(input.is_empty());
    input = wire(&[b"GET", b"k"]);
    assert_eq!(event_data(2, &mut input, &mut store), (b"$4\r\na\r\nb\r\n".to_vec(), false));
    assert!(input.is_empty());
}

#[test]
fn a_pipeline_is_answered_in_order() {
    let mut store = Store::new();
    let mut input = wire(&[b"SET", b"k", b"1"]);
    input.extend(wire(&[b"GET", b"k"]));
    input.extend_from_slice(b"\r\nset k 2\r\nget k\r\n");
    input.extend(wire(&[b"DEL", b"k"]));
    input.extend(wire(&[b"GET", b"k"]));
    assert_eq!(
        event_data(1, &mut input, &mut store),
        (b"+OK\r\n$1\r\n1\r\n+OK\r\n$1\r\n2\r\n:1\r\n$-1\r\n".to_vec(), false),
    );
    assert!(input.is_empty());
    assert!(store.keys().is_empty());
}

#[test]
fn what_is_not_complete_is_kept() {
    let mut store = Store::new();
    let mut input = b"ping\r\n*1\r\n$4\r\nPI".to_vec();
    assert_eq!(event_data(1, &mut input, &mut store), (b"+PONG\r\n".to_vec(), false));
    assert_eq!(input, b"*1\r\n$4\r\nPI".to_vec());
    assert_eq!(event_data(1, &mut input, &mut store), (Vec::new(), false));
    assert_eq!(input, b"*1\r\n$4\r\nPI".to_vec());
    input.extend_from_slice(b"NG\r\n");
    assert_eq!(event_data(1, &mut input, &mut store), (b"+PONG\r\n".to_vec(), false));
    assert!(input.is_empty());
}

#[test]
fn two_reads_add_up_to_one() {
    let whole = b"set k v\r\nget k\r\n*1\r\n$4\r\nPING\r\nget k".to_vec();
    let mut one = Store::new();
    let mut input = whole.clone();
    let expected = event_data(1, &mut input, &mut one);
    for cut in 0..whole.len() {
        let mut store = Store::new();
        let mut rest = whole[..cut].to_vec();
        let (mut out, close) = event_data(1, &mut rest, &mut store);
        assert!(!close);
        rest.extend_from_slice(&whole[cut..]);
        let (more, close) = event_data(1, &mut rest, &mut store);
        out.extend(more);
        assert_eq!((out, close), expected);
        assert_eq!(rest, input);
        assert_eq!(stored(&store, b"k"), stored(&one, b"k"));
    }
}

#[test]
fn a_request_cut_inside_an_argument_is_waited_for() {
    let mut store = Store::new();
    let mut input = b"*2\r\n$3\r\nGE".to_vec();
    assert_eq!(event_data(1, &mut input, &mut store), (Vec::new(), false));
    assert_eq!(input, b"*2\r\n$3\r\nGE".to_vec());
    input.extend_from_slice(b"T\r\n$1\r\nk\r\n");
    assert_eq!(event_data(1, &mut input, &mut store), (b"$-1\r\n".to_vec(), false));
    assert!(input.is_empty());
}

#[test]
fn a_pipeline_in_two_reads_is_answered_as_in_one() {
    let mut whole = wire(&[b"SET", b"key", b"value"]);
    whole.extend(wire(&[b"GET", b"key"]));
    whole.extend(wire(&[b"DEL", b"key"]));
    for cut in 0..whole.len() + 1 {
        let mut store = Store::new();
        let mut rest = whole[..cut].to_vec();
        let (mut out, first) = event_data(1, &mut rest, &mut store);
        rest.extend_from_slice(&whole[cut..]);
        let (more, second) = event_data(1, &mut rest, &mut store);
        out.extend(more);
        assert_eq!(out, b"+OK\r\n$5\r\nvalue\r\n:1\r\n".to_vec(), "{}", cut);
        assert!(!first && !second);
        assert!(rest.is_empty() && store.keys().is_empty());
    }
}

#[test]
fn a_long_pipeline_comes_in_with_many_reads() {
    let mut whole: Vec<u8> = Vec::new();
    let mut expected: Vec<u8> = Vec::new();
    for n in 0u32..1000 {
        let key = n.to_string();
        whole.extend(wire(&[b"SET", key.as_bytes(), b"some value"]));
        expected.extend_from_slice(b"+OK\r\n");
    }
    let mut store = Store::new();
    let mut conn = Conn::new();
    let mut out: Vec<u8> = Vec::new();
    for packet in whole.chunks(4096) {
        assert!(receive(&mut conn, packet, &mut store).is_some());
        assert!(!conn.close);
        out.extend_from_slice(&conn.output);
        let sent: usize = conn.output.len();
        conn.sent(Sent::Accepted(sent));
    }
    assert_eq!(out, expected);
    assert!(conn.input.is_empty());
    assert_eq!(store.keys().len(), 1000);
}

#[test]
fn quit_leaves_the_requests_behind_it() {
    let mut store = Store::new();
    let mut input = b"set k 1\r\nquit\r\nset k 2\r\nleft".to_vec();
    assert_eq!(event_data(1, &mut input, &mut store), (b"+OK\r\n+OK\r\n".to_vec(), true));
    assert_eq!(stored(&store, b"k"), Some(b"1".to_vec()));
    assert_eq!(input, b"left".to_vec());
}

#[test]
fn a_protocol_error_is_all_that_is_answered() {
    let mut store = Store::new();
    let mut input = b"set k 1\r\n*x\r\nping\r\n".to_vec();
    assert_eq!(
        event_data(1, &mut input, &mut store),
        (b"-ERR Protocol error: invalid multibulk length\r\n".to_vec(), true),
    );
    assert!(store.keys().is_empty());
    assert_eq!(input, b"*x\r\nping\r\n".to_vec());
    let mut quoted = b"get \"k\r\n".to_vec();
    assert_eq!(
        event_data(1, &mut quoted, &mut store),
        (b"-ERR Protocol error: unbalanced quotes in request\r\n".to_vec(), true),
    );
    let mut bulk = b"*1\r\n$x\r\n".to_vec();
    assert_eq!(
        event_data(1, &mut bulk, &mut store),
        (b"-ERR Protocol error: invalid bulk length\r\n".to_vec(), true),
    );
    let mut dollar = b"*1\r\n:3\r\n".to_vec();
    assert_eq!(
        event_data(1, &mut dollar, &mut store),
        (b"-ERR Protocol error: expected '$', got ':'\r\n".to_vec(), true),
    );
}

#[test]
fn input_that_cannot_be_read_changes_nothing() {
    let mut store = Store::new();
    let mut input = b"set k 1\r\n\"\\".to_vec();
    assert_eq!(try_event_data(1, &mut input, &mut store), None);
    assert_eq!(input, b"set k 1\r\n\"\\".to_vec());
    assert!(store.keys().is_empty());
}

#[test]
fn requests_are_run_up_to_quit() {
    let mut store = Store::new();
    let requests: Vec<Vec<Vec<u8>>> = vec![
        vec![b"set".to_vec(), b"k".to_vec(), b"1".to_vec()],
        vec![b"quit".to_vec()],
        vec![b"flushdb".to_vec()],
    ];
    assert_eq!(run_requests(&requests, &mut store), (b"+OK\r\n+OK\r\n".to_vec(), true));
    assert_eq!(stored(&store, b"k"), Some(b"1".to_vec()));
    assert_eq!(run_requests(&Vec::new(), &mut store), (Vec::new(), false));
}

#[test]
fn a_new_connection_is_read_from() {
    let mut conn = Conn::new();
    assert!(conn.input.is_empty() && conn.output.is_empty());
    assert!(!conn.close && !conn.reg_write);
    assert_eq!(conn.opened(Vec::new(), false), Some(Interest::Readable));
    assert_eq!(conn.ready(), Action::Read);
}

#[test]
fn a_greeting_is_sent_first() {
    let mut conn = Conn::new();
    assert_eq!(conn.opened(b"hi".to_vec(), true), Some(Interest::ReadableWritable));
    assert!(conn.reg_write && conn.close);
    assert_eq!(conn.ready(), Action::Write);
    assert_eq!(
        conn.sent(Sent::Accepted(2)),
        Action::Finish { watch: Some(Interest::Readable), drop: true },
    );
    let mut refused = Conn::new();
    assert_eq!(refused.opened(Vec::new(), true), None);
}

#[test]
fn a_reply_is_written_at_once() {
    let mut store = Store::new();
    let mut conn = Conn::new();
    assert_eq!(conn.ready(), Action::Read);
    assert_eq!(
        receive(&mut conn, b"ping\r\npi", &mut store),
        Some(Action::Write),
    );
    assert_eq!(conn.output, b"+PONG\r\n".to_vec());
    assert_eq!(conn.input, b"pi".to_vec());
    assert_eq!(conn.sent(Sent::Accepted(7)), Action::Finish { watch: None, drop: false });
    assert!(conn.output.is_empty());
}

#[test]
fn requests_that_came_in_are_to_be_run() {
    let mut store = Store::new();
    let mut conn = Conn::new();
    let ping: Vec<Vec<u8>> = vec![b"ping".to_vec()];
    let quit: Vec<Vec<u8>> = vec![b"quit".to_vec()];
    let action = conn.received(Received::Bytes(b"ping\r\n\r\nquit\r\nrest".to_vec()));
    assert_eq!(action, Some(Action::Run { requests: vec![ping.clone(), quit.clone()] }));
    assert_eq!(conn.input, b"rest".to_vec());
    assert!(conn.output.is_empty() && !conn.close);
    assert_eq!(conn.run(&vec![ping, quit], &mut store), Action::Write);
    assert_eq!(conn.output, b"+PONG\r\n+OK\r\n".to_vec());
    assert!(conn.close);
}

#[test]
fn a_protocol_error_is_answered_without_running_requests() {
    let mut conn = Conn::new();
    let action = conn.received(Received::Bytes(b"set k 1\r\n*x\r\n".to_vec()));
    assert_eq!(action, Some(Action::Write));
    assert_eq!(conn.output, b"-ERR Protocol error: invalid multibulk length\r\n".to_vec());
    assert_eq!(conn.input, b"*x\r\n".to_vec());
    assert!(conn.close);
}

#[test]
fn what_is_received_and_run_is_what_is_handled() {
    let inputs: [&[u8]; 5] =
        [b"ping\r\npi", b"set k 1\r\nquit\r\nget k\r\n", b"ping\r\n*x\r\n", b"\r\n", b"p"];
    for bytes in inputs {
        let mut apart = Store::new();
        let mut conn = Conn::new();
        assert!(receive(&mut conn, bytes, &mut apart).is_some());
        let mut whole = Store::new();
        let mut input = bytes.to_vec();
        let (out, close) = event_data(1, &mut input, &mut whole);
        assert_eq!(conn.output, out);
        assert_eq!(conn.close, close);
        assert_eq!(conn.input, input);
        assert_eq!(stored(&apart, b"k"), stored(&whole, b"k"));
    }
}

#[test]
fn requests_are_taken_out_of_the_input() {
    let mut input = b"ping\r\n*x\r\n".to_vec();
    assert_eq!(
        take_requests(&mut input),
        Some((
            vec![vec![b"ping".to_vec()]],
            "ERR Protocol error: invalid multibulk length".to_string(),
        )),
    );
    assert_eq!(input, b"*x\r\n".to_vec());
    let mut dangling = b"ping\r\n'\\".to_vec();
    assert_eq!(take_requests(&mut dangling), None);
    assert_eq!(dangling, b"ping\r\n'\\".to_vec());
}

#[test]
fn output_that_was_not_accepted_is_kept() {
    let mut conn = Conn::new();
    conn.output = b"abcdef".to_vec();
    conn.close = true;
    assert_eq!(
        conn.sent(Sent::Accepted(2)),
        Action::Finish { watch: Some(Interest::ReadableWritable), drop: false },
    );
    assert_eq!(conn.output, b"cdef".to_vec());
    assert!(conn.reg_write);
    assert_eq!(conn.sent(Sent::Blocked), Action::Finish { watch: None, drop: false });
    assert_eq!(conn.output, b"cdef".to_vec());
    assert_eq!(conn.sent(Sent::Accepted(0)), Action::Finish { watch: None, drop: false });
    assert_eq!(
        conn.sent(Sent::Accepted(4)),
        Action::Finish { watch: Some(Interest::Readable), drop: true },
    );
    assert!(conn.output.is_empty() && !conn.reg_write);
}

#[test]
fn a_socket_that_fails_is_dropped() {
    let mut conn = Conn::new();
    conn.output = b"abc".to_vec();
    assert_eq!(
        conn.sent(Sent::Failed),
        Action::Finish { watch: Some(Interest::ReadableWritable), drop: true },
    );
    let mut read = Conn::new();
    assert_eq!(
        read.received(Received::Failed),
        Some(Action::Finish { watch: None, drop: true }),
    );
    let mut ended = Conn::new();
    assert_eq!(
        ended.received(Received::Bytes(Vec::new())),
        Some(Action::Finish { watch: None, drop: true }),
    );
}

#[test]
fn a_socket_that_is_not_ready_is_waited_for() {
    let mut store = Store::new();
    let mut conn = Conn::new();
    assert_eq!(
        conn.received(Received::Blocked),
        Some(Action::Finish { watch: None, drop: false }),
    );
    assert_eq!(
        receive(&mut conn, b"pin", &mut store),
        Some(Action::Finish { watch: None, drop: false }),
    );
    assert_eq!(conn.input, b"pin".to_vec());
}

#[test]
fn a_connection_that_quits_is_closed_after_the_reply() {
    let mut store = Store::new();
    let mut conn = Conn::new();
    assert_eq!(
        receive(&mut conn, b"quit\r\n", &mut store),
        Some(Action::Write),
    );
    assert!(conn.close);
    assert_eq!(conn.ready(), Action::Write);
    assert_eq!(
        conn.sent(Sent::Accepted(2)),
        Action::Finish { watch: Some(Interest::ReadableWritable), drop: false },
    );
    assert_eq!(
        conn.sent(Sent::Accepted(3)),
        Action::Finish { watch: Some(Interest::Readable), drop: true },
    );
    assert_eq!(conn.ready(), Action::Finish { watch: None, drop: true });
}

#[test]
fn bytes_that_cannot_be_read_are_kept() {
    let mut store = Store::new();
    let mut conn = Conn::new();
    conn.input = b"set k 1\r\n".to_vec();
    assert_eq!(receive(&mut conn, b"'\\", &mut store), None);
    assert_eq!(conn.input, b"set k 1\r\n'\\".to_vec());
    assert!(conn.output.is_empty() && !conn.close && !conn.reg_write);
    assert!(store.keys().is_empty());
}

#[test]
fn there_is_at_least_one_thread() {
    assert_eq!(thread_count(0), 1);
    assert_eq!(thread_count(1), 1);
    assert_eq!(thread_count(8), 8);
}

#[test]
fn threads_take_turns() {
    assert_eq!(next_connection(0, 3), (1, 1));
    assert_eq!(next_connection(1, 3), (2, 2));
    assert_eq!(next_connection(2, 3), (3, 0));
    assert_eq!(next_connection(3, 3), (4, 1));
    assert_eq!(next_connection(41, 1), (42, 0));
}

#[test]
fn the_server_says_where_it_listens() {
    assert_eq!(listen_address(6380), "0.0.0.0:6380");
    assert_eq!(started_line(6380, 1), "Server started on port 6380 using 1 thread");
    assert_eq!(started_line(70000, 12), "Server started on port 70000 using 12 threads");
}
