//! Commands, their replies, and the store.

use cache_server::command::{arg_match, handle_command};
use cache_server::reply::{
    invalid_num_args, keys_reply, make_array, make_bulk, protocol_error_reply,
    unknown_command_reply, wrong_arity_reply,
};
use cache_server::store::Store;
use cache_server::text::{safe_line_from_slice, safe_line_from_string};

fn run(store: &mut Store, args: &[&[u8]]) -> (Vec<u8>, bool, bool) {
    let list: Vec<Vec<u8>> = args.iter().map(|a| a.to_vec()).collect();
    handle_command(&list, store)
}

fn reply(text: &str, write: bool, close: bool) -> (Vec<u8>, bool, bool) {
    (text.as_bytes().to_vec(), write, close)
}

#[test]
fn an_empty_store_has_no_keys() {
    let store = Store::new();
    assert!(store.keys().is_empty());
    assert_eq!(store.get(&b"k".to_vec()), None);
}

#[test]
fn a_store_keeps_the_last_value() {
    let mut store = Store::new();
    store.insert(b"k".to_vec(), b"1".to_vec());
    store.insert(b"k".to_vec(), b"2".to_vec());
    store.insert(b"".to_vec(), b"3".to_vec());
    assert_eq!(store.get(&b"k".to_vec()), Some(&b"2".to_vec()));
    assert_eq!(store.get(&b"".to_vec()), Some(&b"3".to_vec()));
    assert_eq!(store.keys().len(), 2);
    assert_eq!(store.remove(&b"k".to_vec()), Some(b"2".to_vec()));
    assert_eq!(store.remove(&b"k".to_vec()), None);
    assert_eq!(store.keys(), vec![&b"".to_vec()]);
    store.clear();
    assert!(store.keys().is_empty());
}

#[test]
fn a_store_lists_each_key_once() {
    let mut store = Store::new();
    let mut expected: Vec<Vec<u8>> = Vec::new();
    for n in 0u32..500 {
        let key = n.to_be_bytes().to_vec();
        store.insert(key.clone(), vec![1]);
        store.insert(key.clone(), vec![2]);
        expected.push(key);
    }
    let mut listed: Vec<Vec<u8>> = store.keys().into_iter().cloned().collect();
    listed.sort();
    assert_eq!(listed, expected);
    for key in &expected {
        assert_eq!(store.get(key), Some(&vec![2]));
    }
}

#[test]
fn names_match_in_either_case() {
    assert!(arg_match(b"PING", "PING"));
    assert!(arg_match(b"ping", "PING"));
    assert!(arg_match(b"pInG", "PING"));
    assert!(arg_match(b"PING", "ping"));
    assert!(!arg_match(b"PIN", "PING"));
    assert!(!arg_match(b"PONG", "PING"));
    assert!(!arg_match(b"pong", "PING"));
    assert!(arg_match(b"", ""));
}

#[test]
fn a_byte_that_is_no_letter_matches_anything() {
    assert!(arg_match(b"P1NG", "PING"));
    assert!(arg_match(b"\xff\x00[~", "PING"));
    assert!(!arg_match(b"1", "PING"));
    let mut store = Store::new();
    store.insert(b"k".to_vec(), b"v".to_vec());
    assert_eq!(run(&mut store, &[b"G3T", b"k"]), reply("$1\r\nv\r\n", false, false));
    assert_eq!(run(&mut store, &[b"123", b"k", b"w"]), reply("+OK\r\n", true, false));
    assert_eq!(store.get(&b"k".to_vec()), Some(&b"w".to_vec()));
}

#[test]
fn ping_answers() {
    let mut store = Store::new();
    assert_eq!(run(&mut store, &[b"ping"]), reply("+PONG\r\n", false, false));
    assert_eq!(run(&mut store, &[b"PING", b"a\r\nb"]), reply("$4\r\na\r\nb\r\n", false, false));
    assert_eq!(
        run(&mut store, &[b"PiNG", b"a", b"b"]),
        reply("-ERR wrong number of arguments for 'PiNG' command\r\n", false, false),
    );
}

#[test]
fn a_value_that_was_set_is_got() {
    let mut store = Store::new();
    assert_eq!(run(&mut store, &[b"GET", b"k"]), reply("$-1\r\n", false, false));
    assert_eq!(run(&mut store, &[b"SET", b"k", b"value"]), reply("+OK\r\n", true, false));
    assert_eq!(run(&mut store, &[b"get", b"k"]), reply("$5\r\nvalue\r\n", false, false));
    assert_eq!(run(&mut store, &[b"SET", b"k", b""]), reply("+OK\r\n", true, false));
    assert_eq!(run(&mut store, &[b"GET", b"k"]), reply("$0\r\n\r\n", false, false));
}

#[test]
fn keys_are_apart() {
    let mut store = Store::new();
    run(&mut store, &[b"SET", b"a", b"1"]);
    run(&mut store, &[b"SET", b"b", b"2"]);
    assert_eq!(run(&mut store, &[b"GET", b"a"]), reply("$1\r\n1\r\n", false, false));
    run(&mut store, &[b"DEL", b"b"]);
    assert_eq!(run(&mut store, &[b"GET", b"a"]), reply("$1\r\n1\r\n", false, false));
    assert_eq!(run(&mut store, &[b"GET", b"A"]), reply("$-1\r\n", false, false));
}

#[test]
fn a_deleted_key_is_gone() {
    let mut store = Store::new();
    run(&mut store, &[b"SET", b"k", b"v"]);
    assert_eq!(run(&mut store, &[b"DEL", b"k"]), reply(":1\r\n", true, false));
    assert_eq!(run(&mut store, &[b"DEL", b"k"]), reply(":0\r\n", false, false));
    assert_eq!(run(&mut store, &[b"GET", b"k"]), reply("$-1\r\n", false, false));
}

#[test]
fn a_flushed_store_is_empty() {
    let mut store = Store::new();
    run(&mut store, &[b"SET", b"a", b"1"]);
    run(&mut store, &[b"SET", b"b", b"2"]);
    assert_eq!(run(&mut store, &[b"FLUSHDB"]), reply("+OK\r\n", true, false));
    assert_eq!(run(&mut store, &[b"GET", b"a"]), reply("$-1\r\n", false, false));
    assert_eq!(run(&mut store, &[b"KEYS", b"*"]), reply("*0\r\n", false, false));
}

#[test]
fn reads_leave_the_store() {
    let mut store = Store::new();
    run(&mut store, &[b"SET", b"k", b"v"]);
    let reads: [Vec<&[u8]>; 8] = [
        vec![b"PING"],
        vec![b"GET", b"k"],
        vec![b"DEL", b"other"],
        vec![b"KEYS", b"*"],
        vec![b"SET", b"k"],
        vec![b"FLUSHDB", b"now"],
        vec![b"nonsense"],
        vec![b"QUIT"],
    ];
    for args in &reads {
        assert!(!run(&mut store, args).1);
        assert_eq!(store.get(&b"k".to_vec()), Some(&b"v".to_vec()));
        assert_eq!(store.keys().len(), 1);
    }
}

#[test]
fn keys_are_listed_by_pattern() {
    let mut store = Store::new();
    run(&mut store, &[b"SET", b"abc", b"1"]);
    run(&mut store, &[b"SET", b"axc", b"2"]);
    run(&mut store, &[b"SET", b"zzz", b"3"]);
    let (both, write, close) = run(&mut store, &[b"KEYS", b"a?c"]);
    assert!(!write && !close);
    assert!(
        both == b"*2\r\n$3\r\nabc\r\n$3\r\naxc\r\n".to_vec()
            || both == b"*2\r\n$3\r\naxc\r\n$3\r\nabc\r\n".to_vec()
    );
    assert_eq!(run(&mut store, &[b"KEYS", b"z*"]), reply("*1\r\n$3\r\nzzz\r\n", false, false));
    assert_eq!(run(&mut store, &[b"KEYS", b"zzz"]), reply("*1\r\n$3\r\nzzz\r\n", false, false));
    assert_eq!(run(&mut store, &[b"KEYS", b"[!a]zz"]), reply("*1\r\n$3\r\nzzz\r\n", false, false));
    assert_eq!(run(&mut store, &[b"KEYS", b"zz"]), reply("*0\r\n", false, false));
    assert_eq!(run(&mut store, &[b"KEYS", b"ZZZ"]), reply("*0\r\n", false, false));
    assert_eq!(run(&mut store, &[b"KEYS", b""]), reply("*0\r\n", false, false));
    let (all, _, _) = run(&mut store, &[b"KEYS", b"*"]);
    assert!(all.starts_with(b"*3\r\n"));
    assert_eq!(all.len(), 4 + 3 * 9);
}

#[test]
fn a_pattern_that_is_not_valid_lists_nil() {
    let mut store = Store::new();
    run(&mut store, &[b"SET", b"a", b"1"]);
    assert_eq!(run(&mut store, &[b"KEYS", b"***"]), reply("$-1\r\n", false, false));
    assert_eq!(run(&mut store, &[b"KEYS", b"[a"]), reply("$-1\r\n", false, false));
}

#[test]
fn keys_that_are_not_text_are_listed_by_their_text() {
    let mut store = Store::new();
    run(&mut store, &[b"SET", b"a\xffb", b"1"]);
    assert_eq!(
        run(&mut store, &[b"KEYS", b"a?b"]),
        (b"*1\r\n$3\r\na\xffb\r\n".to_vec(), false, false),
    );
    assert_eq!(
        run(&mut store, &[b"KEYS", b"a\xfeb"]),
        (b"*1\r\n$3\r\na\xffb\r\n".to_vec(), false, false),
    );
}

#[test]
fn quit_closes() {
    let mut store = Store::new();
    assert_eq!(run(&mut store, &[b"QUIT"]), reply("+OK\r\n", false, true));
    assert_eq!(run(&mut store, &[b"quit", b"now", b"please"]), reply("+OK\r\n", false, true));
}

#[test]
fn the_wrong_number_of_arguments_is_refused() {
    let mut store = Store::new();
    let wrong: [Vec<&[u8]>; 11] = [
        vec![b"SET"],
        vec![b"SET", b"k"],
        vec![b"SET", b"k", b"v", b"w"],
        vec![b"FLUSHDB", b"k"],
        vec![b"DEL"],
        vec![b"DEL", b"k", b"l"],
        vec![b"GET"],
        vec![b"GET", b"k", b"l"],
        vec![b"KEYS"],
        vec![b"KEYS", b"*", b"*"],
        vec![b"PING", b"a", b"b"],
    ];
    for args in &wrong {
        let name = String::from_utf8(args[0].to_vec()).unwrap();
        let text = format!("-ERR wrong number of arguments for '{}' command\r\n", name);
        assert_eq!(run(&mut store, args), reply(&text, false, false));
    }
    assert!(store.keys().is_empty());
}

#[test]
fn a_name_that_is_not_text_is_shown_with_replacements() {
    assert_eq!(
        invalid_num_args(&b"G\xffT".to_vec()),
        "-ERR wrong number of arguments for 'G\u{fffd}T' command\r\n".as_bytes().to_vec(),
    );
    let mut store = Store::new();
    assert_eq!(
        run(&mut store, &[b"G\xffT"]),
        reply("-ERR wrong number of arguments for 'G\u{fffd}T' command\r\n", false, false),
    );
}

#[test]
fn an_unknown_command_is_answered_on_one_line() {
    let mut store = Store::new();
    assert_eq!(
        run(&mut store, &[b"INCR", b"k"]),
        reply("-ERR unknown command 'INCR'\r\n", false, false),
    );
    assert_eq!(
        run(&mut store, &[b"a\r\n+OK\r\nb\xff"]),
        reply("-ERR unknown command 'a  +OK  b\u{fffd}'\r\n", false, false),
    );
    assert_eq!(run(&mut store, &[b""]), reply("-ERR unknown command ''\r\n", false, false));
}

#[test]
fn lines_hold_no_control_characters() {
    assert_eq!(safe_line_from_slice(b"a\x01b\r\n\x1f\x20\x7f"), "a b    \u{7f}");
    assert_eq!(safe_line_from_slice(b"\xffz\xc3"), "\u{fffd}z\u{fffd}");
    assert_eq!(safe_line_from_string("caf\u{e9}\n\u{2028}".to_string()), "caf\u{e9} \u{2028}");
    assert_eq!(safe_line_from_slice(b""), "");
}

#[test]
fn replies_are_framed() {
    assert_eq!(make_bulk(&b"hello world".to_vec()), b"$11\r\nhello world\r\n".to_vec());
    assert_eq!(make_bulk(&Vec::new()), b"$0\r\n\r\n".to_vec());
    assert_eq!(make_array(0), b"*0\r\n".to_vec());
    assert_eq!(make_array(120), b"*120\r\n".to_vec());
    assert_eq!(protocol_error_reply("ERR no"), b"-ERR no\r\n".to_vec());
    assert_eq!(unknown_command_reply("x"), b"-ERR unknown command 'x'\r\n".to_vec());
    assert_eq!(
        wrong_arity_reply("x"),
        b"-ERR wrong number of arguments for 'x' command\r\n".to_vec(),
    );
}

#[test]
fn the_keys_that_were_hit_are_listed() {
    let a = b"a".to_vec();
    let b = b"bb".to_vec();
    let c = b"".to_vec();
    let keys = vec![&a, &b, &c];
    assert_eq!(
        keys_reply(&keys, &Some(vec![true, false, true])),
        b"*2\r\n$1\r\na\r\n$0\r\n\r\n".to_vec(),
    );
    assert_eq!(keys_reply(&keys, &Some(vec![false, true, false])), b"*1\r\n$2\r\nbb\r\n".to_vec());
    assert_eq!(keys_reply(&keys, &Some(vec![false, false, false])), b"*0\r\n".to_vec());
    assert_eq!(keys_reply(&keys, &None), b"$-1\r\n".to_vec());
}
