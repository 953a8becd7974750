//! Commands: what they reply, and what they do to the store.

use crate::bytes::{views, STAR};
use crate::pattern::{
    any_name, check_pattern, is_plain, is_prefix_pattern, match_pattern, pattern_matches,
    pattern_valid,
};
use crate::reply::{
    bulk_bytes, invalid_num_args, is_line_reply, keys_reply, lemma_unknown_line, list_bytes,
    make_bulk, nil_bytes, selected, unknown_command_bytes, unknown_command_reply,
    wrong_arity_bytes,
};
use crate::store::{is_listing, key_views, Store};
use crate::text::{decode_lossy, lossy_text, safe_bytes, safe_line_from_slice, text_bytes, utf8};
use vstd::prelude::*;
use vstd::utf8::{decode_utf8, valid_utf8};

verus! {

pub open spec fn is_lower(b: u8) -> bool {
    97 <= b <= 122
}

pub open spec fn is_upper(b: u8) -> bool {
    65 <= b <= 90
}

/// Whether a byte of a name matches: it is the wanted byte, or the same letter in
/// the other case. A byte that is not a letter matches anything.
pub open spec fn byte_matches(b: u8, wanted: u8) -> bool {
    ||| b == wanted
    ||| is_lower(b) && b - 32 == wanted
    ||| is_upper(b) && b + 32 == wanted
    ||| !is_lower(b) && !is_upper(b)
}

/// Whether a name is the wanted one, byte by byte.
pub open spec fn name_matches(name: Seq<u8>, wanted: Seq<u8>) -> bool {
    &&& name.len() == wanted.len()
    &&& forall|i: int| 0 <= i < name.len() ==> #[trigger] byte_matches(name[i], wanted[i])
}

/// A command, told by its name.
pub enum Verb {
    Ping,
    SetKey,
    FlushDb,
    DelKey,
    GetKey,
    ListKeys,
    Quit,
    Unknown,
}

/// The command with the given name.
pub open spec fn verb(name: Seq<u8>) -> Verb {
    if name_matches(name, utf8("PING"@)) {
        Verb::Ping
    } else if name_matches(name, utf8("SET"@)) {
        Verb::SetKey
    } else if name_matches(name, utf8("FLUSHDB"@)) {
        Verb::FlushDb
    } else if name_matches(name, utf8("DEL"@)) {
        Verb::DelKey
    } else if name_matches(name, utf8("GET"@)) {
        Verb::GetKey
    } else if name_matches(name, utf8("KEYS"@)) {
        Verb::ListKeys
    } else if name_matches(name, utf8("QUIT"@)) {
        Verb::Quit
    } else {
        Verb::Unknown
    }
}

/// A command with its arguments.
#[verifier::ext_equal]
pub enum Command {
    Ping,
    Echo { message: Seq<u8> },
    SetKey { key: Seq<u8>, value: Seq<u8> },
    FlushDb,
    DelKey { key: Seq<u8> },
    GetKey { key: Seq<u8> },
    ListKeys { pattern: Seq<u8> },
    Quit,
    /// A command with the wrong number of arguments.
    WrongArity { name: Seq<u8> },
    Unknown { name: Seq<u8> },
}

/// The command that a request stands for.
pub open spec fn command(args: Seq<Seq<u8>>) -> Command {
    let name = args[0];
    match verb(name) {
        Verb::Ping if args.len() == 1 => Command::Ping,
        Verb::Ping if args.len() == 2 => Command::Echo { message: args[1] },
        Verb::SetKey if args.len() == 3 => Command::SetKey { key: args[1], value: args[2] },
        Verb::FlushDb if args.len() == 1 => Command::FlushDb,
        Verb::DelKey if args.len() == 2 => Command::DelKey { key: args[1] },
        Verb::GetKey if args.len() == 2 => Command::GetKey { key: args[1] },
        Verb::ListKeys if args.len() == 2 => Command::ListKeys { pattern: args[1] },
        Verb::Quit => Command::Quit,
        Verb::Unknown => Command::Unknown { name },
        _ => Command::WrongArity { name },
    }
}

/// What a command leaves in the store.
pub open spec fn effect(command: Command, keys: Map<Seq<u8>, Seq<u8>>) -> Map<Seq<u8>, Seq<u8>> {
    match command {
        Command::SetKey { key, value } => keys.insert(key, value),
        Command::FlushDb => Map::empty(),
        Command::DelKey { key } => keys.remove(key),
        _ => keys,
    }
}

/// Whether a command counts as a write.
pub open spec fn writes(command: Command, keys: Map<Seq<u8>, Seq<u8>>) -> bool {
    match command {
        Command::SetKey { .. } => true,
        Command::FlushDb => true,
        Command::DelKey { key } => keys.contains_key(key),
        _ => false,
    }
}

/// Whether a command ends the connection.
pub open spec fn closes(command: Command) -> bool {
    command is Quit
}

/// The keys whose text matches a pattern.
pub open spec fn matching_keys(keys: Map<Seq<u8>, Seq<u8>>, pattern: Seq<u8>) -> Set<Seq<u8>> {
    Set::new(
        |key: Seq<u8>|
            keys.contains_key(key) && pattern_matches(lossy_text(pattern), lossy_text(key)),
    )
}

/// The keys with the same text as a byte string.
pub open spec fn keys_with_text(keys: Map<Seq<u8>, Seq<u8>>, like: Seq<u8>) -> Set<Seq<u8>> {
    Set::new(|key: Seq<u8>| keys.contains_key(key) && lossy_text(key) == lossy_text(like))
}

/// The text of a byte string: what it encodes, if it is UTF-8.
pub open spec fn text_of(bytes: Seq<u8>) -> Seq<char> {
    if valid_utf8(bytes) {
        decode_utf8(bytes)
    } else {
        lossy_text(bytes)
    }
}

/// The keys whose text is wanted.
pub open spec fn keys_where(
    keys: Map<Seq<u8>, Seq<u8>>,
    wanted: spec_fn(Seq<char>) -> bool,
) -> Set<Seq<u8>> {
    Set::new(|key: Seq<u8>| keys.contains_key(key) && wanted(text_of(key)))
}

/// An array of the wanted keys, each once, in some order.
pub open spec fn lists(reply: Seq<u8>, wanted: Set<Seq<u8>>) -> bool {
    exists|list: Seq<Seq<u8>>| is_listing(list, wanted) && reply == #[trigger] list_bytes(list)
}

/// Whether `reply` answers a command. The pattern `*` lists all keys, and one
/// without metacharacters and path separators lists the keys whose text it is,
/// or, with a `*` at its end, the keys whose text starts with it.
/// A name is shown as it is, if it is UTF-8; the name of an unknown command is
/// shown on one line.
pub open spec fn answers(
    command: Command,
    keys: Map<Seq<u8>, Seq<u8>>,
    reply: Seq<u8>,
) -> bool {
    match command {
        Command::Ping => reply == utf8("+PONG\r\n"@),
        Command::Echo { message } => reply == bulk_bytes(message),
        Command::SetKey { .. } => reply == utf8("+OK\r\n"@),
        Command::FlushDb => reply == utf8("+OK\r\n"@),
        Command::DelKey { key } => reply == if keys.contains_key(key) {
            utf8(":1\r\n"@)
        } else {
            utf8(":0\r\n"@)
        },
        Command::GetKey { key } => reply == if keys.contains_key(key) {
            bulk_bytes(keys[key])
        } else {
            nil_bytes()
        },
        Command::ListKeys { pattern } => {
            &&& if pattern_valid(lossy_text(pattern)) {
                lists(reply, matching_keys(keys, pattern))
            } else {
                reply == nil_bytes()
            }
            &&& pattern == seq![STAR] ==> lists(reply, keys.dom())
            &&& is_plain(lossy_text(pattern)) ==> lists(reply, keys_with_text(keys, pattern))
            &&& {
                let text = text_of(pattern);
                &&& if pattern_valid(text) {
                    lists(reply, keys_where(keys, |name: Seq<char>| pattern_matches(text, name)))
                } else {
                    reply == nil_bytes()
                }
                &&& is_plain(text) ==> lists(
                    reply,
                    keys_where(keys, |name: Seq<char>| name == text),
                )
                &&& is_prefix_pattern(text) ==> lists(
                    reply,
                    keys_where(keys, |name: Seq<char>| text.drop_last().is_prefix_of(name)),
                )
            }
        },
        Command::Quit => reply == utf8("+OK\r\n"@),
        Command::WrongArity { name } => {
            &&& reply == wrong_arity_bytes(lossy_text(name))
            &&& valid_utf8(name) ==> reply == wrong_arity_bytes(decode_utf8(name))
        },
        Command::Unknown { name } => {
            &&& reply == unknown_command_bytes(lossy_text(safe_bytes(name)))
            &&& valid_utf8(safe_bytes(name)) ==> reply == unknown_command_bytes(
                decode_utf8(safe_bytes(name)),
            )
            &&& is_line_reply(reply)
        },
    }
}

// What commands have to do with each other.

/// A value that was set is what is got.
pub proof fn law_set_then_get(
    set_args: Seq<Seq<u8>>,
    get_args: Seq<Seq<u8>>,
    key: Seq<u8>,
    value: Seq<u8>,
    keys: Map<Seq<u8>, Seq<u8>>,
    reply: Seq<u8>,
)
    requires
        command(set_args) == (Command::SetKey { key, value }),
        command(get_args) == (Command::GetKey { key }),
        answers(command(get_args), effect(command(set_args), keys), reply),
    ensures
        reply == bulk_bytes(value),
{
}

/// What is got for one key does not depend on what is set or deleted for another.
pub proof fn law_keys_are_apart(
    args: Seq<Seq<u8>>,
    key: Seq<u8>,
    other: Seq<u8>,
    keys: Map<Seq<u8>, Seq<u8>>,
    reply: Seq<u8>,
)
    requires
        key != other,
        match command(args) {
            Command::SetKey { key: k, .. } => k == key,
            Command::DelKey { key: k } => k == key,
            _ => false,
        },
    ensures
        answers(Command::GetKey { key: other }, effect(command(args), keys), reply) == answers(
            Command::GetKey { key: other },
            keys,
            reply,
        ),
{
}

/// A key that was deleted has no value, and cannot be deleted again.
pub proof fn law_del_then_gone(
    del_args: Seq<Seq<u8>>,
    key: Seq<u8>,
    keys: Map<Seq<u8>, Seq<u8>>,
    reply: Seq<u8>,
)
    requires
        command(del_args) == (Command::DelKey { key }),
    ensures
        ({
            let after = effect(command(del_args), keys);
            &&& answers(Command::GetKey { key }, after, reply) ==> reply == nil_bytes()
            &&& answers(command(del_args), after, reply) ==> reply == utf8(":0\r\n"@)
            &&& !writes(command(del_args), after)
            &&& effect(command(del_args), after) == after
        }),
{
    let after = effect(command(del_args), keys);
    assert(after.remove(key) =~= after);
}

/// A store that was flushed holds nothing: no key has a value, and a valid
/// pattern lists none.
pub proof fn law_flush_then_empty(
    flush_args: Seq<Seq<u8>>,
    key: Seq<u8>,
    pattern: Seq<u8>,
    keys: Map<Seq<u8>, Seq<u8>>,
    reply: Seq<u8>,
)
    requires
        command(flush_args) is FlushDb,
    ensures
        ({
            let after = effect(command(flush_args), keys);
            &&& answers(Command::GetKey { key }, after, reply) ==> reply == nil_bytes()
            &&& pattern_valid(lossy_text(pattern)) && answers(
                Command::ListKeys { pattern },
                after,
                reply,
            ) ==> reply == list_bytes(Seq::empty())
        }),
{
    let after = effect(command(flush_args), keys);
    if pattern_valid(lossy_text(pattern)) && answers(Command::ListKeys { pattern }, after, reply) {
        let wanted = matching_keys(after, pattern);
        let list = choose|list: Seq<Seq<u8>>|
            is_listing(list, wanted) && reply == #[trigger] list_bytes(list);
        if list.len() > 0 {
            assert(list.to_set().contains(list[0]));
        }
        assert(list =~= Seq::empty());
    }
}

/// A command that is not a write leaves the store as it was.
pub proof fn law_reads_change_nothing(args: Seq<Seq<u8>>, keys: Map<Seq<u8>, Seq<u8>>)
    requires
        !writes(command(args), keys),
    ensures
        effect(command(args), keys) == keys,
{
    if let Command::DelKey { key } = command(args) {
        assert(keys.remove(key) =~= keys);
    }
}

/// A letter in the other case; any other byte as it is.
pub open spec fn other_case(b: u8) -> u8 {
    if is_lower(b) {
        (b - 32) as u8
    } else if is_upper(b) {
        (b + 32) as u8
    } else {
        b
    }
}

/// The same name, but for the case of its letters.
pub open spec fn same_name(a: Seq<u8>, b: Seq<u8>) -> bool {
    &&& a.len() == b.len()
    &&& forall|i: int| 0 <= i < a.len() ==> #[trigger] a[i] == b[i] || a[i] == other_case(b[i])
}

proof fn lemma_same_name(a: Seq<u8>, b: Seq<u8>, wanted: Seq<u8>)
    requires
        same_name(a, b),
    ensures
        name_matches(a, wanted) == name_matches(b, wanted),
{
    if name_matches(b, wanted) {
        assert forall|i: int| 0 <= i < a.len() implies #[trigger] byte_matches(a[i], wanted[i]) by {
            assert(byte_matches(b[i], wanted[i]));
        }
    }
    if name_matches(a, wanted) {
        assert forall|i: int| 0 <= i < b.len() implies #[trigger] byte_matches(b[i], wanted[i]) by {
            assert(byte_matches(a[i], wanted[i]));
        }
    }
}

/// Commands are told apart without regard to the case of letters.
pub proof fn law_case_does_not_matter(a: Seq<u8>, b: Seq<u8>)
    requires
        same_name(a, b),
    ensures
        verb(a) == verb(b),
{
    lemma_same_name(a, b, utf8("PING"@));
    lemma_same_name(a, b, utf8("SET"@));
    lemma_same_name(a, b, utf8("FLUSHDB"@));
    lemma_same_name(a, b, utf8("DEL"@));
    lemma_same_name(a, b, utf8("GET"@));
    lemma_same_name(a, b, utf8("KEYS"@));
    lemma_same_name(a, b, utf8("QUIT"@));
}

/// A name of letters matches just the names that differ from it in case at most.
pub proof fn law_letters_must_agree(name: Seq<u8>, wanted: Seq<u8>)
    requires
        forall|i: int| 0 <= i < name.len() ==> is_lower(#[trigger] name[i]) || is_upper(name[i]),
    ensures
        name_matches(name, wanted) == same_name(wanted, name),
{
    if name_matches(name, wanted) {
        assert forall|i: int| 0 <= i < wanted.len() implies #[trigger] wanted[i] == name[i]
            || wanted[i] == other_case(name[i]) by {
            assert(byte_matches(name[i], wanted[i]));
        }
    }
    if same_name(wanted, name) {
        assert forall|i: int| 0 <= i < name.len() implies #[trigger] byte_matches(
            name[i],
            wanted[i],
        ) by {
            assert(wanted[i] == name[i] || wanted[i] == other_case(name[i]));
        }
    }
}

/// Tells whether `arg` names the command `what`.
pub fn arg_match(arg: &[u8], what: &str) -> (r: bool)
    ensures
        r == name_matches(arg@, utf8(what@)),
{
    let wanted = what.as_bytes();
    if arg.len() != wanted.len() {
        return false;
    }
    let mut i: usize = 0;
    while i < arg.len()
        invariant
            i <= arg.len(),
            arg.len() == wanted.len(),
            wanted@ == utf8(what@),
            forall|j: int| 0 <= j < i ==> #[trigger] byte_matches(arg@[j], wanted@[j]),
        decreases arg.len() - i,
    {
        let b: u8 = arg[i];
        let w: u8 = wanted[i];
        if b != w {
            if b >= 97 && b <= 122 {
                if b - 32 != w {
                    assert(!byte_matches(arg@[i as int], wanted@[i as int]));
                    return false;
                }
            } else if b >= 65 && b <= 90 {
                if b + 32 != w {
                    assert(!byte_matches(arg@[i as int], wanted@[i as int]));
                    return false;
                }
            }
        }
        i = i + 1;
    }
    true
}

/// The pattern `*`, as it is sent, and as it is read.
proof fn lemma_star_text()
    ensures
        utf8(any_name()) == seq![STAR],
        valid_utf8(seq![STAR]),
        decode_utf8(seq![STAR]) == any_name(),
{
    let chars = any_name();
    vstd::utf8::is_ascii_chars_encode_utf8(chars);
    assert(utf8(chars) =~= seq![STAR]);
    vstd::utf8::encode_utf8_valid_utf8(chars);
    vstd::utf8::encode_utf8_decode_utf8(chars);
}

/// Holds the pattern against each key. Returns nothing where the pattern is not
/// a valid one.
fn match_keys(pattern: &Vec<u8>, keys: &Vec<&Vec<u8>>) -> (r: Option<Vec<bool>>)
    ensures
        match r {
            Some(hits) => {
                &&& pattern_valid(lossy_text(pattern@))
                &&& hits.len() == keys.len()
                &&& forall|i: int|
                    0 <= i < hits.len() ==> #[trigger] hits[i] == pattern_matches(
                        lossy_text(pattern@),
                        lossy_text(keys[i]@),
                    )
                &&& pattern@ == seq![STAR] ==> forall|i: int|
                    0 <= i < hits.len() ==> #[trigger] hits[i]
                &&& is_plain(lossy_text(pattern@)) ==> forall|i: int|
                    0 <= i < hits.len() ==> #[trigger] hits[i] == (lossy_text(keys[i]@)
                        == lossy_text(pattern@))
                &&& is_prefix_pattern(lossy_text(pattern@)) ==> forall|i: int|
                    0 <= i < hits.len() ==> #[trigger] hits[i] == lossy_text(
                        pattern@,
                    ).drop_last().is_prefix_of(lossy_text(keys[i]@))
                &&& forall|i: int|
                    0 <= i < keys.len() ==> text_of(#[trigger] keys[i]@) == lossy_text(keys[i]@)
            },
            None => {
                &&& !is_prefix_pattern(lossy_text(pattern@))
                &&& !pattern_valid(lossy_text(pattern@))
                &&& pattern@ != seq![STAR]
                &&& !is_plain(lossy_text(pattern@))
            },
        },
        text_of(pattern@) == lossy_text(pattern@),
{
    let text = decode_lossy(pattern.as_slice());
    proof {
        lemma_star_text();
    }
    if !check_pattern(text.as_str()) {
        return None;
    }
    let mut hits: Vec<bool> = Vec::new();
    let mut i: usize = 0;
    while i < keys.len()
        invariant
            i <= keys.len(),
            text@ == lossy_text(pattern@),
            pattern@ == seq![STAR] ==> text@ == any_name(),
            pattern_valid(text@),
            hits.len() == i,
            forall|j: int|
                0 <= j < i ==> #[trigger] hits[j] == pattern_matches(
                    lossy_text(pattern@),
                    lossy_text(keys[j]@),
                ),
            pattern@ == seq![STAR] ==> forall|j: int| 0 <= j < i ==> #[trigger] hits[j],
            is_plain(text@) ==> forall|j: int|
                0 <= j < i ==> #[trigger] hits[j] == (lossy_text(keys[j]@) == text@),
            is_prefix_pattern(text@) ==> forall|j: int|
                0 <= j < i ==> #[trigger] hits[j] == text@.drop_last().is_prefix_of(
                    lossy_text(keys[j]@),
                ),
            forall|j: int|
                0 <= j < i ==> text_of(#[trigger] keys[j]@) == lossy_text(keys[j]@),
        decreases keys.len() - i,
    {
        let name = decode_lossy(keys[i].as_slice());
        hits.push(match_pattern(text.as_str(), name.as_str()));
        i = i + 1;
    }
    Some(hits)
}

proof fn lemma_selected_members(list: Seq<Seq<u8>>, hits: Seq<bool>)
    requires
        list.no_duplicates(),
        hits.len() >= list.len(),
    ensures
        selected(list, hits).no_duplicates(),
        forall|k: Seq<u8>| #[trigger]
            selected(list, hits).contains(k) <==> exists|i: int|
                0 <= i < list.len() && list[i] == k && #[trigger] hits[i],
    decreases list.len(),
{
    let chosen = selected(list, hits);
    if list.len() > 0 {
        let front = list.drop_last();
        let n = front.len() as int;
        lemma_selected_members(front, hits);
        let before = selected(front, hits);
        if hits[n] {
            assert(!before.contains(list.last())) by {
                if before.contains(list.last()) {
                    let i = choose|i: int|
                        0 <= i < front.len() && front[i] == list.last() && #[trigger] hits[i];
                    assert(list[i] == list[n]);
                }
            }
            assert(chosen == before.push(list.last()));
            assert(chosen.no_duplicates()) by {
                assert forall|i: int, j: int|
                    0 <= i < chosen.len() && 0 <= j < chosen.len() && i != j implies chosen[i]
                    != chosen[j] by {
                    if i == before.len() {
                        assert(before.contains(before[j]));
                    } else if j == before.len() {
                        assert(before.contains(before[i]));
                    }
                }
            }
        }
        assert forall|k: Seq<u8>| #[trigger] chosen.contains(k) <==> exists|i: int|
            0 <= i < list.len() && list[i] == k && #[trigger] hits[i] by {
            if chosen.contains(k) {
                if before.contains(k) {
                    let i = choose|i: int|
                        0 <= i < front.len() && front[i] == k && #[trigger] hits[i];
                    assert(list[i] == k && hits[i]);
                } else {
                    let i = chosen.index_of(k);
                    if i < before.len() {
                        assert(before[i] == k);
                    }
                    assert(list[n] == k && hits[n]);
                }
            }
            if exists|i: int| 0 <= i < list.len() && list[i] == k && #[trigger] hits[i] {
                let i = choose|i: int| 0 <= i < list.len() && list[i] == k && #[trigger] hits[i];
                if i < n {
                    assert(front[i] == k && hits[i]);
                    assert(before.contains(k));
                    let j = before.index_of(k);
                    assert(chosen[j] == k);
                } else {
                    assert(chosen[before.len() as int] == k);
                }
            }
        }
    }
}

/// What is selected from a list of `all` is the set of the hits.
proof fn lemma_selected_set(
    list: Seq<Seq<u8>>,
    hits: Seq<bool>,
    all: Set<Seq<u8>>,
    wanted: Set<Seq<u8>>,
)
    requires
        is_listing(list, all),
        hits.len() == list.len(),
        wanted.subset_of(all),
        forall|i: int| 0 <= i < list.len() ==> #[trigger] hits[i] == wanted.contains(list[i]),
    ensures
        is_listing(selected(list, hits), wanted),
{
    let chosen = selected(list, hits);
    lemma_selected_members(list, hits);
    assert forall|k: Seq<u8>| wanted.contains(k) implies chosen.contains(k) by {
        assert(list.to_set().contains(k));
        let i = list.index_of(k);
        assert(list[i] == k && hits[i]);
    }
    assert forall|k: Seq<u8>| chosen.contains(k) implies wanted.contains(k) by {
        let i = choose|i: int| 0 <= i < list.len() && list[i] == k && #[trigger] hits[i];
        assert(hits[i]);
    }
    assert(chosen.to_set() =~= wanted);
}

/// Lists the keys whose text matches a pattern.
fn list_keys(pattern: &Vec<u8>, keys: &Store) -> (r: Vec<u8>)
    ensures
        answers(Command::ListKeys { pattern: pattern@ }, keys@, r@),
{
    let list = keys.keys();
    let hits = match_keys(pattern, &list);
    proof {
        if hits is Some {
            let names = key_views(list@);
            let h = hits->0@;
            let chosen = selected(names, h);
            assert forall|i: int| 0 <= i < names.len() implies keys@.contains_key(
                #[trigger] names[i],
            ) by {
                assert(names.to_set().contains(names[i]));
            }
            lemma_selected_set(names, h, keys@.dom(), matching_keys(keys@, pattern@));
            if pattern@ == seq![STAR] {
                lemma_selected_set(names, h, keys@.dom(), keys@.dom());
                assert(is_listing(chosen, keys@.dom()));
            }
            if is_plain(lossy_text(pattern@)) {
                lemma_selected_set(
                    names,
                    h,
                    keys@.dom(),
                    keys_with_text(keys@, pattern@),
                );
                assert(is_listing(chosen, keys_with_text(keys@, pattern@)));
            }
            let text = text_of(pattern@);
            assert forall|i: int| 0 <= i < names.len() implies text_of(#[trigger] names[i])
                == lossy_text(names[i]) by {
                assert(names[i] == list[i]@);
            }
            let matched = keys_where(keys@, |name: Seq<char>| pattern_matches(text, name));
            lemma_selected_set(names, h, keys@.dom(), matched);
            assert(is_listing(chosen, matched));
            if is_plain(text) {
                let same = keys_where(keys@, |name: Seq<char>| name == text);
                lemma_selected_set(names, h, keys@.dom(), same);
                assert(is_listing(chosen, same));
            }
            if is_prefix_pattern(text) {
                let starting = keys_where(
                    keys@,
                    |name: Seq<char>| text.drop_last().is_prefix_of(name),
                );
                lemma_selected_set(names, h, keys@.dom(), starting);
                assert(is_listing(chosen, starting));
            }
        }
    }
    keys_reply(&list, &hits)
}

/// Carries out a command. Returns the reply, whether the command was a write, and
/// whether it ends the connection.
pub fn handle_command(args: &Vec<Vec<u8>>, keys: &mut Store) -> (r: (Vec<u8>, bool, bool))
    requires
        args.len() > 0,
    ensures
        answers(command(views(args@)), old(keys)@, r.0@),
        final(keys)@ == effect(command(views(args@)), old(keys)@),
        r.1 == writes(command(views(args@)), old(keys)@),
        r.2 == closes(command(views(args@))),
{
    let name = args[0].as_slice();
    let n: usize = args.len();
    if arg_match(name, "PING") {
        if n == 1 {
            (text_bytes("+PONG\r\n"), false, false)
        } else if n == 2 {
            (make_bulk(&args[1]), false, false)
        } else {
            (invalid_num_args(&args[0]), false, false)
        }
    } else if arg_match(name, "SET") {
        if n == 3 {
            keys.insert(args[1].clone(), args[2].clone());
            (text_bytes("+OK\r\n"), true, false)
        } else {
            (invalid_num_args(&args[0]), false, false)
        }
    } else if arg_match(name, "FLUSHDB") {
        if n == 1 {
            keys.clear();
            (text_bytes("+OK\r\n"), true, false)
        } else {
            (invalid_num_args(&args[0]), false, false)
        }
    } else if arg_match(name, "DEL") {
        if n == 2 {
            match keys.remove(&args[1]) {
                Some(_) => (text_bytes(":1\r\n"), true, false),
                None => (text_bytes(":0\r\n"), false, false),
            }
        } else {
            (invalid_num_args(&args[0]), false, false)
        }
    } else if arg_match(name, "GET") {
        if n == 2 {
            match keys.get(&args[1]) {
                Some(v) => (make_bulk(v), false, false),
                None => (text_bytes("$-1\r\n"), false, false),
            }
        } else {
            (invalid_num_args(&args[0]), false, false)
        }
    } else if arg_match(name, "KEYS") {
        if n == 2 {
            (list_keys(&args[1], keys), false, false)
        } else {
            (invalid_num_args(&args[0]), false, false)
        }
    } else if arg_match(name, "QUIT") {
        (text_bytes("+OK\r\n"), false, true)
    } else {
        let shown = safe_line_from_slice(name);
        proof {
            lemma_unknown_line(shown@);
        }
        (unknown_command_reply(shown.as_str()), false, false)
    }
}

} // verus!
