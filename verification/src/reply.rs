//! Replies, as they are sent to the client.

use crate::bytes::{append_bytes, crlf, decimal, decimal_bytes, CR, DOLLAR, LF, STAR};
use crate::store::key_views;
use crate::text::{append_text, decode_lossy, is_line, lemma_utf8_add, lossy_text, utf8};
use vstd::prelude::*;
use vstd::utf8::{decode_utf8, valid_utf8};

verus! {

/// A bulk string: its length, and its bytes.
pub open spec fn bulk_bytes(value: Seq<u8>) -> Seq<u8> {
    seq![DOLLAR] + decimal(value.len()) + crlf() + value + crlf()
}

/// The front of an array: the number of its elements.
pub open spec fn array_bytes(count: nat) -> Seq<u8> {
    seq![STAR] + decimal(count) + crlf()
}

/// Bulk strings, one behind the other.
pub open spec fn bulks_bytes(list: Seq<Seq<u8>>) -> Seq<u8>
    decreases list.len(),
{
    if list.len() == 0 {
        Seq::empty()
    } else {
        bulk_bytes(list[0]) + bulks_bytes(list.drop_first())
    }
}

/// An array of bulk strings.
pub open spec fn list_bytes(list: Seq<Seq<u8>>) -> Seq<u8> {
    array_bytes(list.len()) + bulks_bytes(list)
}

/// The reply for a value that is not there.
pub open spec fn nil_bytes() -> Seq<u8> {
    utf8("$-1\r\n"@)
}

/// The reply to a command with the wrong number of arguments.
pub open spec fn wrong_arity_bytes(shown: Seq<char>) -> Seq<u8> {
    utf8("-ERR wrong number of arguments for '"@) + utf8(shown) + utf8("' command\r\n"@)
}

/// The reply to a command that does not exist.
pub open spec fn unknown_command_bytes(shown: Seq<char>) -> Seq<u8> {
    utf8("-ERR unknown command '"@) + utf8(shown) + utf8("'\r\n"@)
}

/// The reply to input that breaks the protocol.
pub open spec fn protocol_error_bytes(err: Seq<char>) -> Seq<u8> {
    utf8("-"@) + utf8(err) + utf8("\r\n"@)
}

/// One line of text, and the end of the line: nothing that a client could take
/// for a second reply.
pub open spec fn is_line_reply(reply: Seq<u8>) -> bool {
    exists|line: Seq<char>| is_line(line) && reply == #[trigger] utf8(line) + crlf()
}

proof fn lemma_crlf_text()
    ensures
        utf8("\r\n"@) == crlf(),
        utf8("'\r\n"@) == utf8("'"@) + crlf(),
{
    reveal_strlit("\r\n");
    reveal_strlit("'\r\n");
    reveal_strlit("'");
    vstd::utf8::is_ascii_chars_encode_utf8("\r\n"@);
    assert(utf8("\r\n"@) =~= crlf());
    lemma_utf8_add("'"@, "\r\n"@);
    assert("'\r\n"@ =~= "'"@ + "\r\n"@);
}

/// The reply to a protocol error is one line, if the error is.
pub(crate) proof fn lemma_error_line(err: Seq<char>)
    requires
        is_line(err),
    ensures
        is_line_reply(protocol_error_bytes(err)),
{
    let line = "-"@ + err;
    reveal_strlit("-");
    lemma_crlf_text();
    lemma_utf8_add("-"@, err);
    assert(is_line(line));
    assert(protocol_error_bytes(err) =~= utf8(line) + crlf());
}

/// The reply to a protocol error is not empty.
pub(crate) proof fn lemma_error_reply_sent(err: Seq<char>)
    ensures
        protocol_error_bytes(err).len() > 0,
{
    lemma_crlf_text();
}

/// The reply to an unknown command is one line, if the name is shown as a line.
pub(crate) proof fn lemma_unknown_line(shown: Seq<char>)
    requires
        is_line(shown),
    ensures
        is_line_reply(unknown_command_bytes(shown)),
{
    let head = "-ERR unknown command '"@;
    let line = head + shown + "'"@;
    reveal_strlit("-ERR unknown command '");
    reveal_strlit("'");
    lemma_crlf_text();
    lemma_utf8_add(head, shown);
    lemma_utf8_add(head + shown, "'"@);
    assert(is_line(line));
    assert(unknown_command_bytes(shown) =~= utf8(line) + crlf());
}

/// Makes a bulk string.
pub fn make_bulk(bulk: &Vec<u8>) -> (resp: Vec<u8>)
    ensures
        resp@ == bulk_bytes(bulk@),
{
    let mut resp: Vec<u8> = Vec::new();
    resp.push(DOLLAR);
    append_bytes(&mut resp, decimal_bytes(bulk.len()).as_slice());
    resp.push(CR);
    resp.push(LF);
    append_bytes(&mut resp, bulk.as_slice());
    resp.push(CR);
    resp.push(LF);
    assert(resp@ =~= bulk_bytes(bulk@));
    resp
}

/// Makes the front of an array.
pub fn make_array(count: usize) -> (resp: Vec<u8>)
    ensures
        resp@ == array_bytes(count as nat),
{
    let mut resp: Vec<u8> = Vec::new();
    resp.push(STAR);
    append_bytes(&mut resp, decimal_bytes(count).as_slice());
    resp.push(CR);
    resp.push(LF);
    assert(resp@ =~= array_bytes(count as nat));
    resp
}

/// Answers a command, named `shown`, with the wrong number of arguments.
pub fn wrong_arity_reply(shown: &str) -> (resp: Vec<u8>)
    ensures
        resp@ == wrong_arity_bytes(shown@),
{
    let mut resp: Vec<u8> = Vec::new();
    append_text(&mut resp, "-ERR wrong number of arguments for '");
    append_text(&mut resp, shown);
    append_text(&mut resp, "' command\r\n");
    assert(resp@ =~= wrong_arity_bytes(shown@));
    resp
}

/// Answers a command with the wrong number of arguments. Its name is shown as it
/// is, if it is UTF-8.
pub fn invalid_num_args(cmd: &Vec<u8>) -> (resp: Vec<u8>)
    ensures
        resp@ == wrong_arity_bytes(lossy_text(cmd@)),
        valid_utf8(cmd@) ==> resp@ == wrong_arity_bytes(decode_utf8(cmd@)),
{
    wrong_arity_reply(decode_lossy(cmd.as_slice()).as_str())
}

/// Answers a command, named `shown`, that does not exist.
pub fn unknown_command_reply(shown: &str) -> (resp: Vec<u8>)
    ensures
        resp@ == unknown_command_bytes(shown@),
{
    let mut resp: Vec<u8> = Vec::new();
    append_text(&mut resp, "-ERR unknown command '");
    append_text(&mut resp, shown);
    append_text(&mut resp, "'\r\n");
    assert(resp@ =~= unknown_command_bytes(shown@));
    resp
}

/// Answers input that breaks the protocol.
pub fn protocol_error_reply(err: &str) -> (resp: Vec<u8>)
    ensures
        resp@ == protocol_error_bytes(err@),
{
    let mut resp: Vec<u8> = Vec::new();
    append_text(&mut resp, "-");
    append_text(&mut resp, err);
    append_text(&mut resp, "\r\n");
    assert(resp@ =~= protocol_error_bytes(err@));
    resp
}

/// The keys that were hit.
pub open spec fn selected(list: Seq<Seq<u8>>, hits: Seq<bool>) -> Seq<Seq<u8>>
    decreases list.len(),
{
    if list.len() == 0 {
        Seq::empty()
    } else if hits[list.len() - 1] {
        selected(list.drop_last(), hits).push(list.last())
    } else {
        selected(list.drop_last(), hits)
    }
}

pub(crate) proof fn lemma_bulks_push(list: Seq<Seq<u8>>, value: Seq<u8>)
    ensures
        bulks_bytes(list.push(value)) == bulks_bytes(list) + bulk_bytes(value),
    decreases list.len(),
{
    if list.len() == 0 {
        assert(list.push(value).drop_first() =~= Seq::empty());
        assert(bulks_bytes(list.push(value).drop_first()) =~= Seq::empty());
        assert(bulks_bytes(list.push(value)) =~= bulks_bytes(list) + bulk_bytes(value));
    } else {
        lemma_bulks_push(list.drop_first(), value);
        assert(list.push(value).drop_first() =~= list.drop_first().push(value));
        assert(bulks_bytes(list.push(value)) =~= bulks_bytes(list) + bulk_bytes(value));
    }
}

proof fn lemma_selected_prefix(list: Seq<Seq<u8>>, hits: Seq<bool>, i: int)
    requires
        0 <= i < list.len(),
    ensures
        selected(list.take(i + 1), hits) == if hits[i] {
            selected(list.take(i), hits).push(list[i])
        } else {
            selected(list.take(i), hits)
        },
        selected(list.take(i), hits).len() <= i,
    decreases i,
{
    assert(list.take(i + 1).drop_last() =~= list.take(i));
    if i > 0 {
        lemma_selected_prefix(list, hits, i - 1);
    }
}

/// Lists the keys that were hit; where there is nothing to go by, the reply is
/// nil.
pub fn keys_reply(keys: &Vec<&Vec<u8>>, hits: &Option<Vec<bool>>) -> (resp: Vec<u8>)
    requires
        hits matches Some(h) ==> h.len() == keys.len(),
    ensures
        match hits {
            Some(h) => resp@ == list_bytes(selected(key_views(keys@), h@)),
            None => resp@ == nil_bytes(),
        },
{
    match hits {
        None => {
            let mut resp: Vec<u8> = Vec::new();
            append_text(&mut resp, "$-1\r\n");
            assert(resp@ =~= nil_bytes());
            resp
        },
        Some(h) => {
            let ghost list = key_views(keys@);
            let mut count: usize = 0;
            let mut bulks: Vec<u8> = Vec::new();
            let mut i: usize = 0;
            assert(list.take(0) =~= Seq::empty());
            while i < keys.len()
                invariant
                    i <= keys.len(),
                    h.len() == keys.len(),
                    list == key_views(keys@),
                    count <= i,
                    count == selected(list.take(i as int), h@).len(),
                    bulks@ == bulks_bytes(selected(list.take(i as int), h@)),
                decreases keys.len() - i,
            {
                proof {
                    lemma_selected_prefix(list, h@, i as int);
                }
                if h[i] {
                    proof {
                        lemma_bulks_push(selected(list.take(i as int), h@), list[i as int]);
                    }
                    append_bytes(&mut bulks, make_bulk(keys[i]).as_slice());
                    count = count + 1;
                }
                i = i + 1;
            }
            assert(list.take(keys.len() as int) =~= list);
            let mut resp: Vec<u8> = make_array(count);
            append_bytes(&mut resp, bulks.as_slice());
            resp
        },
    }
}

} // verus!
