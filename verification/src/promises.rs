//! What each command promises, in terms of the arguments that were sent and the
//! bytes that are sent back.

use crate::bytes::{crlf, decimal};
use crate::command::{
    answers, byte_matches, closes, command, effect, keys_where, lists, name_matches, text_of, verb,
    writes, Verb,
};
use crate::pattern::{is_plain, is_prefix_pattern, pattern_matches, pattern_valid};
use crate::reply::{
    array_bytes, bulk_bytes, bulks_bytes, is_line_reply, lemma_bulks_push, list_bytes,
    nil_bytes, protocol_error_bytes, selected, unknown_command_bytes, wrong_arity_bytes,
};
use crate::store::{is_listing, key_views};
use crate::text::{
    is_line, law_line_bytes, lemma_safe_encoding, lemma_utf8_add, lossy_text, safe_bytes,
    safe_chars, utf8,
};
use vstd::prelude::*;
use vstd::utf8::{decode_utf8, encode_utf8, valid_utf8};

verus! {

// How replies are framed.

/// A bulk string: `$`, the number of its bytes, the bytes, each on a line.
pub open spec fn bulk(value: Seq<u8>) -> Seq<u8> {
    seq![36u8] + decimal(value.len()) + seq![13u8, 10u8] + value + seq![13u8, 10u8]
}

/// Bulk strings one behind the other.
pub open spec fn bulks(list: Seq<Seq<u8>>) -> Seq<u8>
    decreases list.len(),
{
    if list.len() == 0 {
        Seq::empty()
    } else {
        bulks(list.drop_last()) + bulk(list.last())
    }
}

/// An array: `*`, the number of its bulk strings, and these.
pub open spec fn array(list: Seq<Seq<u8>>) -> Seq<u8> {
    seq![42u8] + decimal(list.len()) + seq![13u8, 10u8] + bulks(list)
}

/// A value is framed as a bulk string, and the front of an array holds the number
/// of its elements.
pub proof fn law_frames(value: Seq<u8>, n: nat)
    ensures
        bulk_bytes(value) == bulk(value),
        array_bytes(n) == seq![42u8] + decimal(n) + seq![13u8, 10u8],
{
}

/// A list is framed as an array.
pub proof fn law_list_frame(list: Seq<Seq<u8>>)
    ensures
        list_bytes(list) == array(list),
        bulks_bytes(list) == bulks(list),
    decreases list.len(),
{
    if list.len() > 0 {
        law_list_frame(list.drop_last());
        lemma_bulks_push(list.drop_last(), list.last());
        law_frames(list.last(), 0);
        assert(list.drop_last().push(list.last()) =~= list);
    }
    assert(list_bytes(list) =~= array(list));
}

/// An error is framed as one line, with the name or the text in its place. A
/// value that is not there is a length of minus one.
pub proof fn law_error_frames(text: Seq<char>)
    ensures
        nil_bytes() == seq![36u8, 45u8, 49u8, 13u8, 10u8],
        protocol_error_bytes(text) == encode_utf8("-"@ + text + "\r\n"@),
        wrong_arity_bytes(text) == encode_utf8(
            "-ERR wrong number of arguments for '"@ + text + "' command\r\n"@,
        ),
        unknown_command_bytes(text) == encode_utf8("-ERR unknown command '"@ + text + "'\r\n"@),
{
    reveal_strlit("$-1\r\n");
    vstd::utf8::is_ascii_chars_encode_utf8("$-1\r\n"@);
    assert(nil_bytes() =~= seq![36u8, 45u8, 49u8, 13u8, 10u8]);
    lemma_utf8_add("-"@, text);
    lemma_utf8_add("-"@ + text, "\r\n"@);
    lemma_utf8_add("-ERR wrong number of arguments for '"@, text);
    lemma_utf8_add("-ERR wrong number of arguments for '"@ + text, "' command\r\n"@);
    lemma_utf8_add("-ERR unknown command '"@, text);
    lemma_utf8_add("-ERR unknown command '"@ + text, "'\r\n"@);
}

/// A reply on one line has no control character but the CR LF at its end.
pub proof fn law_line_reply(reply: Seq<u8>)
    requires
        is_line_reply(reply),
    ensures
        reply.len() >= 2,
        reply[reply.len() - 2] == 13,
        reply.last() == 10,
        forall|i: int| 0 <= i < reply.len() - 2 ==> 32 <= #[trigger] reply[i],
{
    let line = choose|line: Seq<char>|
        is_line(line) && reply == #[trigger] utf8(line) + crlf();
    law_line_bytes(line);
    assert forall|i: int| 0 <= i < reply.len() - 2 implies 32 <= #[trigger] reply[i] by {
        assert(reply[i] == utf8(line)[i]);
    }
}

/// Blanking out replaces each control character by a space, and nothing else.
pub proof fn law_blanked(bytes: Seq<u8>, text: Seq<char>)
    ensures
        safe_bytes(bytes).len() == bytes.len(),
        forall|i: int|
            0 <= i < bytes.len() ==> #[trigger] safe_bytes(bytes)[i] == if bytes[i] < 32 {
                32u8
            } else {
                bytes[i]
            },
        safe_chars(text).len() == text.len(),
        forall|i: int|
            0 <= i < text.len() ==> #[trigger] safe_chars(text)[i] == if ' ' <= text[i] {
                text[i]
            } else {
                ' '
            },
{
}

/// The keys that were hit are picked one by one, in order.
pub proof fn law_selected(
    a: Seq<Seq<u8>>,
    b: Seq<Seq<u8>>,
    hits_a: Seq<bool>,
    hits_b: Seq<bool>,
    key: Seq<u8>,
)
    requires
        a.len() == hits_a.len(),
        b.len() == hits_b.len(),
    ensures
        selected(a + b, hits_a + hits_b) == selected(a, hits_a) + selected(b, hits_b),
        selected(seq![key], seq![true]) == seq![key],
        selected(seq![key], seq![false]) == Seq::<Seq<u8>>::empty(),
    decreases b.len(),
{
    assert(seq![key].drop_last() =~= Seq::empty());
    assert(selected(seq![key].drop_last(), seq![true]) =~= Seq::empty());
    assert(selected(seq![key].drop_last(), seq![false]) =~= Seq::empty());
    assert(selected(seq![key], seq![true]) =~= seq![key]);
    let all = a + b;
    let hits = hits_a + hits_b;
    if b.len() == 0 {
        assert(all =~= a);
        assert(hits =~= hits_a);
        assert(selected(b, hits_b) =~= Seq::empty());
        assert(selected(a, hits_a) + selected(b, hits_b) =~= selected(a, hits_a));
    } else {
        law_selected(a, b.drop_last(), hits_a, hits_b.drop_last(), key);
        assert(all.drop_last() =~= a + b.drop_last());
        assert(hits.drop_last() =~= hits_a + hits_b.drop_last());
        lemma_selected_hits(all.drop_last(), hits, hits.drop_last());
        lemma_selected_hits(b.drop_last(), hits_b, hits_b.drop_last());
        assert(hits[all.len() - 1] == hits_b.last());
        assert(selected(all, hits) =~= selected(a, hits_a) + selected(b, hits_b));
    }
}

proof fn lemma_selected_hits(list: Seq<Seq<u8>>, one: Seq<bool>, other: Seq<bool>)
    requires
        forall|i: int| 0 <= i < list.len() ==> #[trigger] one[i] == other[i],
    ensures
        selected(list, one) == selected(list, other),
    decreases list.len(),
{
    if list.len() > 0 {
        assert(one[list.len() - 1] == other[list.len() - 1]);
        lemma_selected_hits(list.drop_last(), one, other);
    }
}

/// A listing holds each wanted key once, and no other; a list of keys holds them
/// as they are.
pub proof fn law_listing(list: Seq<Seq<u8>>, wanted: Set<Seq<u8>>, keys: Seq<&Vec<u8>>)
    requires
        is_listing(list, wanted),
    ensures
        list.no_duplicates(),
        forall|key: Seq<u8>| #[trigger] list.contains(key) <==> wanted.contains(key),
        key_views(keys).len() == keys.len(),
        forall|i: int| 0 <= i < keys.len() ==> #[trigger] key_views(keys)[i] == keys[i]@,
{
    assert forall|key: Seq<u8>| #[trigger] list.contains(key) <==> wanted.contains(key) by {
        assert(list.to_set().contains(key) == list.contains(key));
    }
}

// Which command a name stands for.

/// Whether a name spells a command: byte by byte it is the same, or the same
/// letter in the other case, or no letter at all.
pub open spec fn spells(name: Seq<u8>, wanted: Seq<u8>) -> bool {
    &&& name.len() == wanted.len()
    &&& forall|i: int|
        0 <= i < name.len() ==> {
            let b = #[trigger] name[i];
            ||| b == wanted[i]
            ||| 97 <= b <= 122 && wanted[i] == b - 32
            ||| 65 <= b <= 90 && wanted[i] == b + 32
            ||| !(97 <= b <= 122 || 65 <= b <= 90)
        }
}

/// A name matches the names that it spells, and no others.
pub proof fn law_name_matches(name: Seq<u8>, wanted: Seq<u8>)
    ensures
        name_matches(name, wanted) == spells(name, wanted),
{
    if spells(name, wanted) {
        assert forall|i: int| 0 <= i < name.len() implies #[trigger] byte_matches(
            name[i],
            wanted[i],
        ) by {
            assert(name[i] == name[i]);
        }
    }
    if name_matches(name, wanted) {
        assert forall|i: int| 0 <= i < name.len() implies {
            let b = #[trigger] name[i];
            ||| b == wanted[i]
            ||| 97 <= b <= 122 && wanted[i] == b - 32
            ||| 65 <= b <= 90 && wanted[i] == b + 32
            ||| !(97 <= b <= 122 || 65 <= b <= 90)
        } by {
            assert(byte_matches(name[i], wanted[i]));
        }
    }
}

/// A name stands for the first of PING, SET, FLUSHDB, DEL, GET, KEYS and QUIT that
/// it spells.
pub proof fn law_names(name: Seq<u8>)
    ensures
        ({
            let ping = spells(name, seq![80u8, 73u8, 78u8, 71u8]);
            let set_key = spells(name, seq![83u8, 69u8, 84u8]);
            let flushdb = spells(name, seq![70u8, 76u8, 85u8, 83u8, 72u8, 68u8, 66u8]);
            let del = spells(name, seq![68u8, 69u8, 76u8]);
            let get = spells(name, seq![71u8, 69u8, 84u8]);
            let list_keys = spells(name, seq![75u8, 69u8, 89u8, 83u8]);
            let quit = spells(name, seq![81u8, 85u8, 73u8, 84u8]);
            &&& verb(name) is Ping <==> ping
            &&& verb(name) is SetKey <==> set_key
            &&& verb(name) is FlushDb <==> flushdb
            &&& verb(name) is DelKey <==> del && !set_key
            &&& verb(name) is GetKey <==> get && !set_key && !del
            &&& verb(name) is ListKeys <==> list_keys && !ping
            &&& verb(name) is Quit <==> quit && !ping && !list_keys
            &&& verb(name) is Unknown <==> !(ping || set_key || flushdb || del || get || list_keys
                || quit)
        }),
{
    reveal_strlit("PING");
    reveal_strlit("SET");
    reveal_strlit("FLUSHDB");
    reveal_strlit("DEL");
    reveal_strlit("GET");
    reveal_strlit("KEYS");
    reveal_strlit("QUIT");
    vstd::utf8::is_ascii_chars_encode_utf8("PING"@);
    vstd::utf8::is_ascii_chars_encode_utf8("SET"@);
    vstd::utf8::is_ascii_chars_encode_utf8("FLUSHDB"@);
    vstd::utf8::is_ascii_chars_encode_utf8("DEL"@);
    vstd::utf8::is_ascii_chars_encode_utf8("GET"@);
    vstd::utf8::is_ascii_chars_encode_utf8("KEYS"@);
    vstd::utf8::is_ascii_chars_encode_utf8("QUIT"@);
    assert(utf8("PING"@) =~= seq![80u8, 73u8, 78u8, 71u8]);
    assert(utf8("SET"@) =~= seq![83u8, 69u8, 84u8]);
    assert(utf8("FLUSHDB"@) =~= seq![70u8, 76u8, 85u8, 83u8, 72u8, 68u8, 66u8]);
    assert(utf8("DEL"@) =~= seq![68u8, 69u8, 76u8]);
    assert(utf8("GET"@) =~= seq![71u8, 69u8, 84u8]);
    assert(utf8("KEYS"@) =~= seq![75u8, 69u8, 89u8, 83u8]);
    assert(utf8("QUIT"@) =~= seq![81u8, 85u8, 73u8, 84u8]);
    law_name_matches(name, utf8("PING"@));
    law_name_matches(name, utf8("SET"@));
    law_name_matches(name, utf8("FLUSHDB"@));
    law_name_matches(name, utf8("DEL"@));
    law_name_matches(name, utf8("GET"@));
    law_name_matches(name, utf8("KEYS"@));
    law_name_matches(name, utf8("QUIT"@));
}

// What each command does.

/// Whether a command leaves the store as it is, is no write, and does not end the
/// connection.
pub open spec fn only_replies(args: Seq<Seq<u8>>, keys: Map<Seq<u8>, Seq<u8>>) -> bool {
    &&& effect(command(args), keys) == keys
    &&& !writes(command(args), keys)
    &&& !closes(command(args))
}

/// PING is answered `+PONG`, and PING with a message is answered the message.
pub proof fn law_ping(
    name: Seq<u8>,
    message: Seq<u8>,
    keys: Map<Seq<u8>, Seq<u8>>,
    reply: Seq<u8>,
)
    requires
        verb(name) is Ping,
    ensures
        answers(command(seq![name]), keys, reply) ==> reply == seq![
            43u8,
            80u8,
            79u8,
            78u8,
            71u8,
            13u8,
            10u8,
        ],
        only_replies(seq![name], keys),
        answers(command(seq![name, message]), keys, reply) ==> reply == bulk(message),
        only_replies(seq![name, message], keys),
{
    reveal_strlit("+PONG\r\n");
    vstd::utf8::is_ascii_chars_encode_utf8("+PONG\r\n"@);
    assert(utf8("+PONG\r\n"@) =~= seq![43u8, 80u8, 79u8, 78u8, 71u8, 13u8, 10u8]);
    law_frames(message, 0);
}

proof fn lemma_ok()
    ensures
        utf8("+OK\r\n"@) == seq![43u8, 79u8, 75u8, 13u8, 10u8],
        utf8(":1\r\n"@) == seq![58u8, 49u8, 13u8, 10u8],
        utf8(":0\r\n"@) == seq![58u8, 48u8, 13u8, 10u8],
{
    reveal_strlit("+OK\r\n");
    reveal_strlit(":1\r\n");
    reveal_strlit(":0\r\n");
    vstd::utf8::is_ascii_chars_encode_utf8("+OK\r\n"@);
    vstd::utf8::is_ascii_chars_encode_utf8(":1\r\n"@);
    vstd::utf8::is_ascii_chars_encode_utf8(":0\r\n"@);
    assert(utf8("+OK\r\n"@) =~= seq![43u8, 79u8, 75u8, 13u8, 10u8]);
    assert(utf8(":1\r\n"@) =~= seq![58u8, 49u8, 13u8, 10u8]);
    assert(utf8(":0\r\n"@) =~= seq![58u8, 48u8, 13u8, 10u8]);
}

/// SET gives the key the whole value, and leaves all other keys as they are. It
/// is answered `+OK`.
pub proof fn law_set(
    name: Seq<u8>,
    key: Seq<u8>,
    value: Seq<u8>,
    keys: Map<Seq<u8>, Seq<u8>>,
    reply: Seq<u8>,
)
    requires
        verb(name) is SetKey,
    ensures
        ({
            let args = seq![name, key, value];
            let after = effect(command(args), keys);
            &&& after.contains_key(key) && after[key] == value
            &&& forall|other: Seq<u8>|
                other != key ==> (#[trigger] after.contains_key(other) <==> keys.contains_key(
                    other,
                )) && (keys.contains_key(other) ==> after[other] == keys[other])
            &&& after == keys.insert(key, value)
            &&& answers(command(args), keys, reply) ==> reply == seq![43u8, 79u8, 75u8, 13u8, 10u8]
            &&& writes(command(args), keys)
            &&& !closes(command(args))
        }),
{
    lemma_ok();
}

/// GET is answered the whole value of the key, or that there is none.
pub proof fn law_get(
    name: Seq<u8>,
    key: Seq<u8>,
    keys: Map<Seq<u8>, Seq<u8>>,
    reply: Seq<u8>,
)
    requires
        verb(name) is GetKey,
        answers(command(seq![name, key]), keys, reply),
    ensures
        keys.contains_key(key) ==> reply == bulk(keys[key]),
        !keys.contains_key(key) ==> reply == seq![36u8, 45u8, 49u8, 13u8, 10u8],
        only_replies(seq![name, key], keys),
{
    law_error_frames(Seq::empty());
    if keys.contains_key(key) {
        law_frames(keys[key], 0);
    }
}

/// What was set for a key is what is got for it, whatever the key and the value
/// are.
pub proof fn law_set_is_got(
    set_name: Seq<u8>,
    get_name: Seq<u8>,
    key: Seq<u8>,
    value: Seq<u8>,
    keys: Map<Seq<u8>, Seq<u8>>,
    reply: Seq<u8>,
)
    requires
        verb(set_name) is SetKey,
        verb(get_name) is GetKey,
        answers(
            command(seq![get_name, key]),
            effect(command(seq![set_name, key, value]), keys),
            reply,
        ),
    ensures
        reply == bulk(value),
{
    let after = effect(command(seq![set_name, key, value]), keys);
    law_set(set_name, key, value, keys, reply);
    law_get(get_name, key, after, reply);
}

/// DEL is answered `:1` where the key is there, whatever else is, and `:0` where
/// it is not. It takes out the key, and leaves all others as they are.
pub proof fn law_del(
    name: Seq<u8>,
    key: Seq<u8>,
    keys: Map<Seq<u8>, Seq<u8>>,
    reply: Seq<u8>,
)
    requires
        verb(name) is DelKey,
    ensures
        ({
            let args = seq![name, key];
            let after = effect(command(args), keys);
            &&& answers(command(args), keys, reply) && keys.contains_key(key) ==> reply == seq![
                58u8,
                49u8,
                13u8,
                10u8,
            ]
            &&& answers(command(args), keys, reply) && !keys.contains_key(key) ==> reply == seq![
                58u8,
                48u8,
                13u8,
                10u8,
            ]
            &&& !after.contains_key(key)
            &&& forall|other: Seq<u8>|
                other != key ==> (#[trigger] after.contains_key(other) <==> keys.contains_key(
                    other,
                )) && (keys.contains_key(other) ==> after[other] == keys[other])
            &&& writes(command(args), keys) <==> keys.contains_key(key)
            &&& !closes(command(args))
        }),
{
    lemma_ok();
}

/// FLUSHDB takes out every key, and is answered `+OK`.
pub proof fn law_flushdb(name: Seq<u8>, keys: Map<Seq<u8>, Seq<u8>>, reply: Seq<u8>)
    requires
        verb(name) is FlushDb,
    ensures
        forall|key: Seq<u8>| !(#[trigger] effect(command(seq![name]), keys).contains_key(key)),
        answers(command(seq![name]), keys, reply) ==> reply == seq![43u8, 79u8, 75u8, 13u8, 10u8],
        writes(command(seq![name]), keys),
        !closes(command(seq![name])),
{
    lemma_ok();
}

/// QUIT ends the connection, with any arguments, and is answered `+OK`. No other
/// command does.
pub proof fn law_quit(args: Seq<Seq<u8>>, keys: Map<Seq<u8>, Seq<u8>>, reply: Seq<u8>)
    requires
        args.len() > 0,
    ensures
        closes(command(args)) <==> verb(args[0]) is Quit,
        verb(args[0]) is Quit && answers(command(args), keys, reply) ==> reply == seq![
            43u8,
            79u8,
            75u8,
            13u8,
            10u8,
        ],
        verb(args[0]) is Quit ==> effect(command(args), keys) == keys && !writes(
            command(args),
            keys,
        ),
{
    lemma_ok();
}

/// Whether a command takes that many arguments, its name among them.
pub open spec fn takes(verb: Verb, n: nat) -> bool {
    match verb {
        Verb::Ping => n == 1 || n == 2,
        Verb::SetKey => n == 3,
        Verb::FlushDb => n == 1,
        Verb::DelKey => n == 2,
        Verb::GetKey => n == 2,
        Verb::ListKeys => n == 2,
        Verb::Quit => true,
        Verb::Unknown => true,
    }
}

/// A command with the wrong number of arguments does nothing. The reply shows its
/// name as it was sent.
pub proof fn law_wrong_number_of_arguments(
    args: Seq<Seq<u8>>,
    text: Seq<char>,
    keys: Map<Seq<u8>, Seq<u8>>,
    reply: Seq<u8>,
)
    requires
        args.len() > 0,
        !takes(verb(args[0]), args.len()),
        answers(command(args), keys, reply),
    ensures
        reply == encode_utf8(
            "-ERR wrong number of arguments for '"@ + lossy_text(args[0]) + "' command\r\n"@,
        ),
        args[0] == encode_utf8(text) ==> reply == encode_utf8(
            "-ERR wrong number of arguments for '"@ + text + "' command\r\n"@,
        ),
        only_replies(args, keys),
{
    law_error_frames(lossy_text(args[0]));
    law_error_frames(text);
    if args[0] == encode_utf8(text) {
        vstd::utf8::encode_utf8_valid_utf8(text);
        vstd::utf8::encode_utf8_decode_utf8(text);
    }
}

/// An unknown command does nothing. The reply shows its name on one line, with
/// spaces in place of control characters.
pub proof fn law_unknown(
    args: Seq<Seq<u8>>,
    text: Seq<char>,
    keys: Map<Seq<u8>, Seq<u8>>,
    reply: Seq<u8>,
)
    requires
        args.len() > 0,
        verb(args[0]) is Unknown,
        answers(command(args), keys, reply),
    ensures
        reply == encode_utf8(
            "-ERR unknown command '"@ + lossy_text(
                Seq::new(
                    args[0].len(),
                    |i: int|
                        if args[0][i] < 32 {
                            32u8
                        } else {
                            args[0][i]
                        },
                ),
            ) + "'\r\n"@,
        ),
        args[0] == encode_utf8(text) ==> reply == encode_utf8(
            "-ERR unknown command '"@ + Seq::new(
                text.len(),
                |i: int|
                    if ' ' <= text[i] {
                        text[i]
                    } else {
                        ' '
                    },
            ) + "'\r\n"@,
        ),
        only_replies(args, keys),
{
    let name = args[0];
    assert(safe_bytes(name) =~= Seq::new(
        name.len(),
        |i: int|
            if name[i] < 32 {
                32u8
            } else {
                name[i]
            },
    ));
    assert(safe_chars(text) =~= Seq::new(
        text.len(),
        |i: int|
            if ' ' <= text[i] {
                text[i]
            } else {
                ' '
            },
    ));
    law_error_frames(lossy_text(safe_bytes(name)));
    law_error_frames(safe_chars(text));
    if name == encode_utf8(text) {
        lemma_safe_encoding(text);
        vstd::utf8::encode_utf8_valid_utf8(safe_chars(text));
        vstd::utf8::encode_utf8_decode_utf8(safe_chars(text));
    }
}

// Which keys are listed.

/// Whether a reply is an array of keys, each once.
pub open spec fn is_key_list(reply: Seq<u8>, list: Seq<Seq<u8>>) -> bool {
    reply == array(list) && list.no_duplicates()
}

proof fn lemma_key_list(reply: Seq<u8>, wanted: Set<Seq<u8>>)
    requires
        lists(reply, wanted),
    ensures
        exists|list: Seq<Seq<u8>>| #[trigger]
            is_key_list(reply, list) && forall|key: Seq<u8>| #[trigger]
                list.contains(key) <==> wanted.contains(key),
{
    let list = choose|list: Seq<Seq<u8>>|
        is_listing(list, wanted) && reply == #[trigger] list_bytes(list);
    law_list_frame(list);
    law_listing(list, wanted, Seq::empty());
    assert(is_key_list(reply, list));
}

/// KEYS lists each key that is there and whose text the pattern matches, and no
/// other, whatever the key and the pattern are. A pattern that is not valid lists
/// nil.
pub proof fn law_keys(
    name: Seq<u8>,
    pattern: Seq<u8>,
    keys: Map<Seq<u8>, Seq<u8>>,
    reply: Seq<u8>,
)
    requires
        verb(name) is ListKeys,
        answers(command(seq![name, pattern]), keys, reply),
    ensures
        ({
            let text = |bytes: Seq<u8>|
                if valid_utf8(bytes) {
                    decode_utf8(bytes)
                } else {
                    lossy_text(bytes)
                };
            if pattern_valid(text(pattern)) {
                exists|list: Seq<Seq<u8>>| #[trigger]
                    is_key_list(reply, list) && forall|key: Seq<u8>| #[trigger]
                        list.contains(key) <==> keys.contains_key(key) && pattern_matches(
                            text(pattern),
                            text(key),
                        )
            } else {
                reply == seq![36u8, 45u8, 49u8, 13u8, 10u8]
            }
        }),
        only_replies(seq![name, pattern], keys),
{
    law_error_frames(Seq::empty());
    let shown = text_of(pattern);
    if pattern_valid(shown) {
        let wanted = keys_where(keys, |t: Seq<char>| pattern_matches(shown, t));
        lemma_key_list(reply, wanted);
        let list = choose|list: Seq<Seq<u8>>| #[trigger]
            is_key_list(reply, list) && forall|key: Seq<u8>| #[trigger]
                list.contains(key) <==> wanted.contains(key);
        assert(is_key_list(reply, list));
    }
}

/// The pattern `*` lists every key.
pub proof fn law_keys_all(name: Seq<u8>, keys: Map<Seq<u8>, Seq<u8>>, reply: Seq<u8>)
    requires
        verb(name) is ListKeys,
        answers(command(seq![name, seq![42u8]]), keys, reply),
    ensures
        exists|list: Seq<Seq<u8>>| #[trigger]
            is_key_list(reply, list) && forall|key: Seq<u8>| #[trigger]
                list.contains(key) <==> keys.contains_key(key),
{
    lemma_key_list(reply, keys.dom());
    let list = choose|list: Seq<Seq<u8>>| #[trigger]
        is_key_list(reply, list) && forall|key: Seq<u8>| #[trigger]
            list.contains(key) <==> keys.dom().contains(key);
    assert(is_key_list(reply, list));
}

/// A text without metacharacters and path separators.
pub open spec fn is_literal(text: Seq<char>) -> bool {
    forall|i: int|
        0 <= i < text.len() ==> !seq!['?', '*', '[', '/', '\\'].contains(#[trigger] text[i])
}

proof fn lemma_literal(text: Seq<char>)
    requires
        is_literal(text),
    ensures
        is_plain(text),
{
    let special = seq!['?', '*', '[', '/', '\\'];
    assert forall|i: int| 0 <= i < text.len() implies #[trigger] text[i] != '?' && text[i] != '*'
        && text[i] != '[' && text[i] != '/' && text[i] != '\\' by {
        assert(!special.contains(text[i]));
        assert(special[0] == '?' && special[1] == '*' && special[2] == '[' && special[3] == '/'
            && special[4] == '\\');
    }
}

proof fn lemma_encoded(text: Seq<char>)
    ensures
        text_of(encode_utf8(text)) == text,
{
    vstd::utf8::encode_utf8_valid_utf8(text);
    vstd::utf8::encode_utf8_decode_utf8(text);
}

/// A pattern without metacharacters and path separators lists the key that it is,
/// if it is there, and no other key that is UTF-8.
pub proof fn law_keys_literal(
    name: Seq<u8>,
    text: Seq<char>,
    keys: Map<Seq<u8>, Seq<u8>>,
    reply: Seq<u8>,
)
    requires
        verb(name) is ListKeys,
        is_literal(text),
        answers(command(seq![name, encode_utf8(text)]), keys, reply),
    ensures
        exists|list: Seq<Seq<u8>>| #[trigger]
            is_key_list(reply, list) && forall|key: Seq<char>|
                list.contains(#[trigger] encode_utf8(key)) <==> keys.contains_key(
                    encode_utf8(key),
                ) && key == text,
{
    lemma_literal(text);
    lemma_encoded(text);
    let wanted = keys_where(keys, |t: Seq<char>| t == text);
    lemma_key_list(reply, wanted);
    let list = choose|list: Seq<Seq<u8>>| #[trigger]
        is_key_list(reply, list) && forall|key: Seq<u8>| #[trigger]
            list.contains(key) <==> wanted.contains(key);
    assert forall|key: Seq<char>|
        list.contains(#[trigger] encode_utf8(key)) <==> keys.contains_key(encode_utf8(key)) && key
            == text by {
        lemma_encoded(key);
    }
    assert(is_key_list(reply, list));
}

/// A pattern that is a text without metacharacters and path separators, and then
/// a `*`, lists the keys that start with the text, however long they are, and no
/// other key that is UTF-8.
pub proof fn law_keys_prefix(
    name: Seq<u8>,
    text: Seq<char>,
    keys: Map<Seq<u8>, Seq<u8>>,
    reply: Seq<u8>,
)
    requires
        verb(name) is ListKeys,
        is_literal(text),
        answers(command(seq![name, encode_utf8(text.push('*'))]), keys, reply),
    ensures
        exists|list: Seq<Seq<u8>>| #[trigger]
            is_key_list(reply, list) && forall|key: Seq<char>|
                list.contains(#[trigger] encode_utf8(key)) <==> keys.contains_key(
                    encode_utf8(key),
                ) && text.is_prefix_of(key),
{
    let pattern = text.push('*');
    lemma_literal(text);
    lemma_encoded(pattern);
    assert(pattern.drop_last() =~= text);
    assert(is_prefix_pattern(pattern));
    let wanted = keys_where(keys, |t: Seq<char>| pattern.drop_last().is_prefix_of(t));
    lemma_key_list(reply, wanted);
    let list = choose|list: Seq<Seq<u8>>| #[trigger]
        is_key_list(reply, list) && forall|key: Seq<u8>| #[trigger]
            list.contains(key) <==> wanted.contains(key);
    assert forall|key: Seq<char>|
        list.contains(#[trigger] encode_utf8(key)) <==> keys.contains_key(encode_utf8(key))
            && text.is_prefix_of(key) by {
        lemma_encoded(key);
    }
    assert(is_key_list(reply, list));
}

} // verus!
