//! Requests taken from the input.

use cache_server::bytes::{decimal_bytes, parse_usize};
use cache_server::inline::{redcon_take_inline_args, try_take_inline_args};
use cache_server::multibulk::{redcon_take_multibulk_args, try_take_multibulk_args};
use cache_server::reply::{make_array, make_bulk};
use cache_server::request::{redcon_take_args, try_take_args, try_take_batch};

fn words(list: &[&[u8]]) -> Vec<Vec<u8>> {
    list.iter().map(|w| w.to_vec()).collect()
}

fn wire(list: &[&[u8]]) -> Vec<u8> {
    let mut out = make_array(list.len());
    for w in list {
        out.extend(make_bulk(&w.to_vec()));
    }
    out
}

fn complete(list: &[&[u8]], next: usize) -> (Vec<Vec<u8>>, String, usize, bool) {
    (words(list), String::new(), next, true)
}

fn refused(err: &str, next: usize) -> (Vec<Vec<u8>>, String, usize, bool) {
    (Vec::new(), err.to_string(), next, false)
}

fn waiting(next: usize) -> (Vec<Vec<u8>>, String, usize, bool) {
    (Vec::new(), String::new(), next, false)
}

#[test]
fn numbers_are_read() {
    assert_eq!(parse_usize(b"0"), Some(0));
    assert_eq!(parse_usize(b"12"), Some(12));
    assert_eq!(parse_usize(b"+12"), Some(12));
    assert_eq!(parse_usize(b"007"), Some(7));
    assert_eq!(parse_usize(b"18446744073709551615"), Some(usize::MAX));
    assert_eq!(parse_usize(b"18446744073709551616"), None);
    assert_eq!(parse_usize(b"99999999999999999999999"), None);
    assert_eq!(parse_usize(b""), None);
    assert_eq!(parse_usize(b"+"), None);
    assert_eq!(parse_usize(b"-1"), None);
    assert_eq!(parse_usize(b"1 "), None);
    assert_eq!(parse_usize(b"++1"), None);
    assert_eq!(parse_usize(b"\xff"), None);
}

#[test]
fn numbers_are_written() {
    assert_eq!(decimal_bytes(0), b"0".to_vec());
    assert_eq!(decimal_bytes(10), b"10".to_vec());
    assert_eq!(decimal_bytes(4096), b"4096".to_vec());
    assert_eq!(decimal_bytes(usize::MAX), b"18446744073709551615".to_vec());
}

#[test]
fn numbers_are_read_back() {
    for n in [0usize, 9, 10, 99, 100, 6380, usize::MAX] {
        assert_eq!(parse_usize(decimal_bytes(n).as_slice()), Some(n));
    }
}

#[test]
fn a_line_is_parted_at_spaces() {
    let input = b"set  key value\r\nget".to_vec();
    assert_eq!(redcon_take_inline_args(&input, 0), complete(&[b"set", b"key", b"value"], 16));
    assert_eq!(redcon_take_inline_args(&input, 5), complete(&[b"key", b"value"], 16));
    assert_eq!(redcon_take_inline_args(&input, 16), waiting(16));
    assert_eq!(redcon_take_inline_args(&input, 19), waiting(19));
    assert_eq!(redcon_take_inline_args(&input, 40), waiting(40));
}

#[test]
fn a_line_ends_with_or_without_a_carriage_return() {
    assert_eq!(redcon_take_args(&b"ping\n".to_vec(), 0), complete(&[b"ping"], 5));
    assert_eq!(redcon_take_args(&b"ping\r\n".to_vec(), 0), complete(&[b"ping"], 6));
    assert_eq!(redcon_take_args(&b"ping\r\r\n".to_vec(), 0), complete(&[b"ping\r"], 7));
    assert_eq!(redcon_take_args(&b"a\rb\n".to_vec(), 0), complete(&[b"a\rb"], 4));
}

#[test]
fn an_empty_line_has_no_words() {
    assert_eq!(redcon_take_args(&b"\r\n".to_vec(), 0), complete(&[], 2));
    assert_eq!(redcon_take_args(&b"\n".to_vec(), 0), complete(&[], 1));
    assert_eq!(redcon_take_args(&b"   \r\n".to_vec(), 0), complete(&[], 5));
}

#[test]
fn quotes_keep_spaces() {
    assert_eq!(
        redcon_take_args(&b"set \"a b\" 'c  d'\r\n".to_vec(), 0),
        complete(&[b"set", b"a b", b"c  d"], 18),
    );
    assert_eq!(redcon_take_args(&b"\"\"\n".to_vec(), 0), complete(&[b""], 3));
    assert_eq!(redcon_take_args(&b"\"it's\"\n".to_vec(), 0), complete(&[b"it's"], 7));
    assert_eq!(redcon_take_args(&b"'say \"hi\"'\n".to_vec(), 0), complete(&[b"say \"hi\""], 11));
}

#[test]
fn bytes_before_a_quote_are_dropped() {
    assert_eq!(redcon_take_args(&b"abc\"def\"\r\n".to_vec(), 0), complete(&[b"def"], 10));
    assert_eq!(redcon_take_args(&b"\"a\"b\r\n".to_vec(), 0), complete(&[b"a", b"b"], 6));
    assert_eq!(redcon_take_args(&b"\"a\"\"b\"\r\n".to_vec(), 0), complete(&[b"a", b"b"], 8));
}

#[test]
fn escapes_stand_for_bytes() {
    assert_eq!(
        redcon_take_args(&b"\"\\n\\r\\t\\b\\a\\\\\\\"\\q\"\n".to_vec(), 0),
        complete(&[b"\n\r\t\x08\x07\\\"q"], 19),
    );
    assert_eq!(redcon_take_args(&b"\"a\\\nb\"\n".to_vec(), 0), complete(&[b"a\nb"], 7));
}

#[test]
fn hexadecimal_escapes_shift_the_high_digit() {
    assert_eq!(redcon_take_args(&b"\"\\x40\"\n".to_vec(), 0), complete(&[b"\x40"], 7));
    assert_eq!(redcon_take_args(&b"\"\\x41\"\n".to_vec(), 0), complete(&[b"\x80"], 7));
    assert_eq!(redcon_take_args(&b"\"\\x4a\"\n".to_vec(), 0), complete(&[b"\x00"], 7));
    assert_eq!(redcon_take_args(&b"\"\\xF4\"\n".to_vec(), 0), complete(&[b"\x0f"], 7));
    assert_eq!(redcon_take_args(&b"\"\\x1F\"\n".to_vec(), 0), complete(&[b"\x08"], 7));
    assert_eq!(redcon_take_args(&b"\"\\xb0\"\n".to_vec(), 0), complete(&[b"\xb0"], 7));
    assert_eq!(redcon_take_args(&b"\"\\x4g\"\n".to_vec(), 0), complete(&[b"x4g"], 7));
    assert_eq!(redcon_take_args(&b"\"\\x4".to_vec(), 0), waiting(0));
}

#[test]
fn a_line_end_inside_quotes_is_refused() {
    let err = "ERR Protocol error: unbalanced quotes in request";
    assert_eq!(redcon_take_args(&b"set \"a\r\n".to_vec(), 0), refused(err, 0));
    assert_eq!(redcon_take_args(&b"x\nset 'a\n".to_vec(), 2), refused(err, 2));
}

#[test]
fn a_line_that_has_not_ended_is_waited_upon() {
    for front in [&b"s"[..], b"set a", b"set \"a", b"set \"a b\"", b"set a\r"] {
        assert_eq!(redcon_take_args(&front.to_vec(), 0), waiting(0));
    }
    assert_eq!(redcon_take_args(&Vec::new(), 0), waiting(0));
}

#[test]
fn a_backslash_at_the_end_of_the_input_is_not_read() {
    assert_eq!(try_take_inline_args(&b"\"a\\".to_vec(), 0), None);
    assert_eq!(try_take_args(&b"\"a\\".to_vec(), 0), None);
    assert_eq!(try_take_batch(&b"ping\r\n'\\".to_vec()), None);
    assert_eq!(try_take_args(&b"a\\".to_vec(), 0), Some(waiting(0)));
}

#[test]
fn a_multibulk_request_is_read() {
    let input = b"*2\r\n$3\r\nGET\r\n$1\r\nk\r\n".to_vec();
    assert_eq!(redcon_take_multibulk_args(&input, 0), complete(&[b"GET", b"k"], 20));
    assert_eq!(redcon_take_args(&input, 0), complete(&[b"GET", b"k"], 20));
    assert_eq!(redcon_take_args(&b"*0\r\n".to_vec(), 0), complete(&[], 4));
    assert_eq!(redcon_take_args(&b"*+1\r\n$+2\r\nab\r\n".to_vec(), 0), complete(&[b"ab"], 14));
}

#[test]
fn the_bytes_behind_a_bulk_string_are_not_looked_at() {
    assert_eq!(redcon_take_args(&b"*1\r\n$2\r\nabXY".to_vec(), 0), complete(&[b"ab"], 12));
}

#[test]
fn a_multibulk_request_stands_anywhere() {
    let mut input = b"ping\r\n".to_vec();
    input.extend(wire(&[b"GET", b"k"]));
    assert_eq!(redcon_take_args(&input, 6), complete(&[b"GET", b"k"], 26));
    assert_eq!(redcon_take_args(&input[6..].to_vec(), 0), complete(&[b"GET", b"k"], 20));
}

#[test]
fn a_length_that_is_no_number_is_refused() {
    let arrays = "ERR Protocol error: invalid multibulk length";
    assert_eq!(redcon_take_args(&b"*x\r\n".to_vec(), 0), refused(arrays, 3));
    assert_eq!(redcon_take_args(&b"*-1\r\n".to_vec(), 0), refused(arrays, 4));
    assert_eq!(redcon_take_args(&b"*\r\n".to_vec(), 0), refused(arrays, 2));
    let bulks = "ERR Protocol error: invalid bulk length";
    assert_eq!(redcon_take_args(&b"*1\r\n$x\r\n".to_vec(), 0), refused(bulks, 7));
    assert_eq!(redcon_take_args(&b"*1\r\n$-1\r\n".to_vec(), 0), refused(bulks, 8));
}

#[test]
fn a_bulk_string_starts_with_a_dollar() {
    assert_eq!(
        redcon_take_args(&b"*1\r\n:3\r\n".to_vec(), 0),
        refused("ERR Protocol error: expected '$', got ':'", 7),
    );
    assert_eq!(
        redcon_take_args(&b"*1\r\n\x013\r\n".to_vec(), 0),
        refused("ERR Protocol error: expected '$', got ' '", 7),
    );
    assert_eq!(
        redcon_take_args(&b"*1\r\n\xe93\r\n".to_vec(), 0),
        refused("ERR Protocol error: expected '$', got '\u{e9}'", 7),
    );
}

#[test]
fn arguments_before_an_error_are_returned() {
    let (args, err, next, whole) = redcon_take_args(&b"*2\r\n$1\r\na\r\n:1\r\n".to_vec(), 0);
    assert_eq!(args, words(&[b"a"]));
    assert_eq!(err, "ERR Protocol error: expected '$', got ':'");
    assert_eq!(next, 14);
    assert!(!whole);
}

#[test]
fn the_last_argument_is_waited_for() {
    assert_eq!(redcon_take_args(&b"*1\r\n$3\r\nab".to_vec(), 0), waiting(7));
    assert_eq!(redcon_take_args(&b"*1\r\n$3\r\nabc\r".to_vec(), 0), waiting(7));
}

#[test]
fn an_argument_before_the_last_is_waited_for() {
    assert_eq!(redcon_take_multibulk_args(&b"*2\r\n$3\r\nGE".to_vec(), 0), waiting(7));
    assert_eq!(redcon_take_args(&b"*2\r\n$3\r\n".to_vec(), 0), waiting(7));
    assert_eq!(redcon_take_args(&b"*2\r\n$3\r\nabc\r".to_vec(), 0), waiting(7));
    let (args, err, next, done) = redcon_take_args(&b"*3\r\n$1\r\na\r\n$3\r\nb".to_vec(), 0);
    assert_eq!(args, words(&[b"a"]));
    assert_eq!(err, "");
    assert_eq!(next, 14);
    assert!(!done);
}

#[test]
fn the_front_of_a_request_is_waited_upon() {
    let args: [&[u8]; 3] = [b"SET", b"key", b"value"];
    let whole = wire(&args);
    for k in 0..whole.len() {
        let (_, err, _, done) = redcon_take_args(&whole[..k].to_vec(), 0);
        assert!(!done);
        assert_eq!(err, "", "{}", k);
    }
    assert_eq!(redcon_take_args(&whole, 0), complete(&args, whole.len()));
}

#[test]
fn the_front_of_the_first_line_is_waited_upon() {
    assert_eq!(redcon_take_multibulk_args(&b"*".to_vec(), 0), waiting(1));
    assert_eq!(redcon_take_multibulk_args(&b"*1".to_vec(), 0), waiting(2));
    assert_eq!(redcon_take_multibulk_args(&b"*1\r".to_vec(), 0), waiting(3));
    assert_eq!(redcon_take_multibulk_args(&b"*1\r\n".to_vec(), 0), waiting(4));
    assert_eq!(redcon_take_multibulk_args(&b"*1\r\n$1".to_vec(), 0), waiting(6));
    assert_eq!(redcon_take_multibulk_args(&Vec::new(), 0), waiting(1));
}

#[test]
fn lengths_past_the_address_space_are_not_read() {
    let head = b"*1\r\n$18446744073709551615\r\n".to_vec();
    assert_eq!(head.len(), 27);
    assert_eq!(try_take_args(&head, 0), Some(waiting(26)));
    let mut longer = head.clone();
    longer.push(b'x');
    assert_eq!(try_take_args(&longer, 0), None);
    assert_eq!(try_take_multibulk_args(&longer, 0), None);
    assert_eq!(try_take_batch(&longer), None);
}

#[test]
fn a_bare_line_end_is_no_multibulk_request() {
    assert_eq!(try_take_multibulk_args(&b"\r\n".to_vec(), 0), None);
}

#[test]
fn a_request_is_read_back() {
    let cases: [Vec<&[u8]>; 5] = [
        vec![b"PING"],
        vec![b"SET", b"", b""],
        vec![b"SET", b"a\r\nb", b"$3\r\n\x00\xff"],
        vec![b"*1\r\n", b"\"", b"'"],
        vec![b"GET", &[0u8; 1000]],
    ];
    for args in cases {
        let mut input = wire(&args);
        let end: usize = input.len();
        input.extend_from_slice(b"anything else");
        assert_eq!(redcon_take_args(&input, 0), complete(&args, end));
    }
}

#[test]
fn a_quoted_line_is_read_back() {
    let input = b"\"a\\\nb\" \"\\\\\" \"\\\"\" \"\xff\x00\"\r\nmore".to_vec();
    assert_eq!(
        redcon_take_args(&input, 0),
        complete(&[b"a\nb", b"\\", b"\"", b"\xff\x00"], input.len() - 4),
    );
}

#[test]
fn a_complete_request_stands_when_more_follows() {
    for front in [&b"set a b\r\n"[..], b"*1\r\n$4\r\nPING\r\n", b"'a' \"b\"\n"] {
        let alone = redcon_take_args(&front.to_vec(), 0);
        assert!(alone.3);
        for more in [&b"x"[..], b"\r\n", b"*1\r\n$4\r\nPING\r\n", b"\"\\"] {
            let mut input = front.to_vec();
            input.extend_from_slice(more);
            assert_eq!(try_take_args(&input, 0), Some(alone.clone()));
        }
    }
}

#[test]
fn a_batch_holds_the_complete_requests() {
    let mut input = b"ping\r\n\r\n*0\r\n".to_vec();
    input.extend(wire(&[b"GET", b"k"]));
    let end: usize = input.len();
    input.extend_from_slice(b"*1\r\n$4\r\nPI");
    assert_eq!(
        try_take_batch(&input),
        Some((vec![words(&[b"ping"]), words(&[b"GET", b"k"])], String::new(), end)),
    );
}

#[test]
fn a_batch_ends_at_an_error() {
    assert_eq!(
        try_take_batch(&b"ping\r\n*x\r\nping\r\n".to_vec()),
        Some((
            vec![words(&[b"ping"])],
            "ERR Protocol error: invalid multibulk length".to_string(),
            6,
        )),
    );
    assert_eq!(try_take_batch(&Vec::new()), Some((Vec::new(), String::new(), 0)));
}

#[test]
fn pipelined_requests_are_read_back() {
    let requests: [Vec<&[u8]>; 3] =
        [vec![b"SET", b"a", b"1"], vec![b"GET", b"a"], vec![b"PING", b"\r\n"]];
    let mut input: Vec<u8> = Vec::new();
    let mut expected: Vec<Vec<Vec<u8>>> = Vec::new();
    for r in &requests {
        input.extend(wire(r));
        expected.push(words(r));
    }
    assert_eq!(try_take_batch(&input), Some((expected, String::new(), input.len())));
}

#[test]
fn pipelined_requests_may_be_cut_anywhere() {
    let mut input = wire(&[b"SET", b"key", b"a\r\n$1\r\n"]);
    let first: usize = input.len();
    input.extend(wire(&[b"GET", b"key"]));
    for k in 0..input.len() {
        let (requests, err, next) = try_take_batch(&input[..k].to_vec()).unwrap();
        assert_eq!(err, "", "{}", k);
        assert_eq!(requests.len(), if k < first { 0 } else { 1 });
        assert_eq!(next, if k < first { 0 } else { first });
    }
}

#[test]
fn a_refusal_stands_when_more_follows() {
    for front in [&b"ping\r\n*x\r\n"[..], b"*1\r\n$x\r\n", b"*2\r\n:1\r\n", b"'a\n"] {
        let alone = try_take_batch(&front.to_vec());
        assert!(!alone.as_ref().unwrap().1.is_empty());
        for more in [&b"x"[..], b"\r\n", b"*1\r\n$4\r\nPING\r\n", b"'"] {
            let mut input = front.to_vec();
            input.extend_from_slice(more);
            assert_eq!(try_take_batch(&input), alone);
        }
    }
}

#[test]
fn requests_come_apart_where_they_were_joined() {
    let parts: [Vec<u8>; 4] = [
        b"ping\r\n".to_vec(),
        wire(&[b"GET", b"'\r\n"]),
        b"'a b' \"c\"\n".to_vec(),
        b"*1\r\n$2\r\nabXY".to_vec(),
    ];
    let mut input: Vec<u8> = Vec::new();
    let mut expected: Vec<Vec<Vec<u8>>> = Vec::new();
    for part in &parts {
        let at: usize = input.len();
        let (args, err, next, whole) = redcon_take_args(part, 0);
        assert!(whole && next == part.len());
        input.extend_from_slice(part);
        assert_eq!(redcon_take_args(&input, at), (args.clone(), err, at + next, true));
        expected.push(args);
    }
    assert_eq!(try_take_batch(&input), Some((expected.clone(), String::new(), input.len())));
    let end: usize = input.len();
    input.extend_from_slice(b"*x\r\n");
    let err = "ERR Protocol error: invalid multibulk length".to_string();
    assert_eq!(try_take_batch(&input), Some((expected, err, end)));
}

#[test]
fn a_line_that_cannot_be_read_ends_with_a_backslash() {
    let typed = b"set \"a\\n\\\\b\" 'c\\d".to_vec();
    for k in 1..typed.len() + 1 {
        match try_take_args(&typed[..k].to_vec(), 0) {
            Some(taken) => assert_eq!(taken, waiting(0)),
            None => assert_eq!(typed[k - 1], b'\\'),
        }
    }
}
