//! A session: what a client sends is answered.

use crate::bytes::{append_bytes, views};
use crate::command::{answers, closes, command, effect, handle_command, Command};
use crate::promises::law_error_frames;
use crate::reply::{
    bulk_bytes, is_line_reply, lemma_error_line, list_bytes, protocol_error_bytes,
    protocol_error_reply,
};
use crate::request::{batch, lemma_batch_error_line, request_views, try_take_batch, Batch};
use crate::store::Store;
use crate::stream::{law_cut_anywhere, lemma_consumed};
use crate::text::utf8;
use crate::wire::{
    law_pipeline_front, law_pipeline_read_back, law_request_front, law_request_read_back,
    pipeline_bytes,
};
use vstd::prelude::*;
use vstd::utf8::encode_utf8;

verus! {

/// How many requests are carried out, when those before `i` are: up to the end,
/// or up to the one that ends the connection.
pub open spec fn served_from(requests: Seq<Seq<Seq<u8>>>, i: nat) -> nat
    decreases requests.len() - i,
{
    if i >= requests.len() {
        requests.len()
    } else if closes(command(requests[i as int])) {
        i + 1
    } else {
        served_from(requests, i + 1)
    }
}

/// How many requests are carried out.
pub open spec fn served(requests: Seq<Seq<Seq<u8>>>) -> nat {
    served_from(requests, 0)
}

/// Whether one of the requests ends the connection.
pub open spec fn ends(requests: Seq<Seq<Seq<u8>>>) -> bool {
    exists|i: int| 0 <= i < requests.len() && closes(command(#[trigger] requests[i]))
}

/// The store after the first `n` requests.
pub open spec fn keys_after(
    requests: Seq<Seq<Seq<u8>>>,
    keys: Map<Seq<u8>, Seq<u8>>,
    n: nat,
) -> Map<Seq<u8>, Seq<u8>>
    decreases n,
{
    if n == 0 {
        keys
    } else {
        effect(
            command(requests[n - 1]),
            keys_after(requests, keys, (n - 1) as nat),
        )
    }
}

/// Byte strings, one behind the other.
pub open spec fn joined(parts: Seq<Seq<u8>>) -> Seq<u8>
    decreases parts.len(),
{
    if parts.len() == 0 {
        Seq::empty()
    } else {
        joined(parts.drop_last()) + parts.last()
    }
}

/// Each reply answers its request, in the store that the requests before it
/// left.
pub open spec fn replies_to(
    parts: Seq<Seq<u8>>,
    requests: Seq<Seq<Seq<u8>>>,
    keys: Map<Seq<u8>, Seq<u8>>,
) -> bool {
    forall|i: int|
        0 <= i < parts.len() ==> #[trigger] answers(
            command(requests[i]),
            keys_after(requests, keys, i as nat),
            parts[i],
        )
}

/// Whether `out` is what the requests are answered, one after the other.
pub open spec fn answered(
    requests: Seq<Seq<Seq<u8>>>,
    keys: Map<Seq<u8>, Seq<u8>>,
    out: Seq<u8>,
) -> bool {
    exists|parts: Seq<Seq<u8>>|
        {
            &&& parts.len() == served(requests)
            &&& #[trigger] replies_to(parts, requests, keys)
            &&& out == joined(parts)
        }
}

/// What handling the input comes to: the reply, whether the connection is to be
/// closed, the input that is left, and the store. Input that breaks the
/// protocol is answered with the error alone, and none of its requests is
/// carried out.
pub open spec fn handled(
    input: Seq<u8>,
    keys: Map<Seq<u8>, Seq<u8>>,
    out: Seq<u8>,
    close: bool,
    rest: Seq<u8>,
    after: Map<Seq<u8>, Seq<u8>>,
) -> bool {
    &&& batch(input, 0) matches Some(b)
    &&& rest == input.skip(b.consumed)
    &&& if b.err.len() > 0 {
        out == protocol_error_bytes(b.err) && close && after == keys
    } else {
        &&& answered(b.requests, keys, out)
        &&& close == ends(b.requests)
        &&& after == keys_after(b.requests, keys, served(b.requests))
    }
}

proof fn lemma_served_bounds(requests: Seq<Seq<Seq<u8>>>, i: nat)
    requires
        i <= requests.len(),
    ensures
        i <= served_from(requests, i) <= requests.len(),
        (forall|j: int| i <= j < requests.len() ==> !closes(command(#[trigger] requests[j])))
            ==> served_from(requests, i) == requests.len(),
    decreases requests.len() - i,
{
    if i < requests.len() && !closes(command(requests[i as int])) {
        lemma_served_bounds(requests, i + 1);
    }
}

proof fn lemma_served_behind(
    first: Seq<Seq<Seq<u8>>>,
    next: Seq<Seq<Seq<u8>>>,
    i: nat,
)
    requires
        i <= next.len(),
    ensures
        served_from(first + next, first.len() + i) == first.len() + served_from(next, i),
    decreases next.len() - i,
{
    if i < next.len() {
        assert((first + next)[(first.len() + i) as int] == next[i as int]);
        if !closes(command(next[i as int])) {
            lemma_served_behind(first, next, i + 1);
        }
    }
}

proof fn lemma_served_skip(requests: Seq<Seq<Seq<u8>>>, i: nat, j: nat)
    requires
        i <= j <= requests.len(),
        forall|k: int| i <= k < j ==> !closes(command(#[trigger] requests[k])),
    ensures
        served_from(requests, i) == served_from(requests, j),
    decreases j - i,
{
    if i < j {
        lemma_served_skip(requests, i + 1, j);
    }
}

proof fn lemma_keys_front(
    first: Seq<Seq<Seq<u8>>>,
    next: Seq<Seq<Seq<u8>>>,
    keys: Map<Seq<u8>, Seq<u8>>,
    n: nat,
)
    requires
        n <= first.len(),
    ensures
        keys_after(first + next, keys, n) == keys_after(first, keys, n),
    decreases n,
{
    if n > 0 {
        lemma_keys_front(first, next, keys, (n - 1) as nat);
        assert((first + next)[n - 1] == first[n - 1]);
    }
}

proof fn lemma_keys_behind(
    first: Seq<Seq<Seq<u8>>>,
    next: Seq<Seq<Seq<u8>>>,
    keys: Map<Seq<u8>, Seq<u8>>,
    n: nat,
)
    requires
        n <= next.len(),
    ensures
        keys_after(first + next, keys, first.len() + n) == keys_after(
            next,
            keys_after(first, keys, first.len()),
            n,
        ),
    decreases n,
{
    if n == 0 {
        lemma_keys_front(first, next, keys, first.len());
    } else {
        lemma_keys_behind(first, next, keys, (n - 1) as nat);
        assert((first + next)[first.len() + n - 1] == next[n - 1]);
    }
}

proof fn lemma_joined_add(a: Seq<Seq<u8>>, b: Seq<Seq<u8>>)
    ensures
        joined(a + b) == joined(a) + joined(b),
    decreases b.len(),
{
    if b.len() == 0 {
        assert(a + b =~= a);
        assert(joined(a + b) =~= joined(a) + joined(b));
    } else {
        lemma_joined_add(a, b.drop_last());
        assert((a + b).drop_last() =~= a + b.drop_last());
        assert(joined(a + b) =~= joined(a) + joined(b));
    }
}

/// Where there are no requests, there is nothing to answer.
pub(crate) proof fn lemma_none_answered(
    requests: Seq<Seq<Seq<u8>>>,
    keys: Map<Seq<u8>, Seq<u8>>,
)
    requires
        requests.len() == 0,
    ensures
        answered(requests, keys, Seq::empty()),
        !ends(requests),
        keys_after(requests, keys, served(requests)) == keys,
{
    let parts = Seq::<Seq<u8>>::empty();
    assert(replies_to(parts, requests, keys));
    assert(joined(parts) == Seq::<u8>::empty());
}

/// Requests that are answered in two goes are answered as in one, if the first
/// go does not end the connection.
proof fn lemma_answered_add(
    first: Seq<Seq<Seq<u8>>>,
    next: Seq<Seq<Seq<u8>>>,
    keys: Map<Seq<u8>, Seq<u8>>,
    out_first: Seq<u8>,
    out_next: Seq<u8>,
)
    requires
        !ends(first),
        answered(first, keys, out_first),
        answered(next, keys_after(first, keys, first.len()), out_next),
    ensures
        served(first) == first.len(),
        served(first + next) == first.len() + served(next),
        answered(first + next, keys, out_first + out_next),
{
    let all = first + next;
    let keys_next = keys_after(first, keys, first.len());
    lemma_served_bounds(first, 0);
    lemma_served_bounds(next, 0);
    assert forall|k: int| 0 <= k < first.len() implies !closes(command(#[trigger] all[k])) by {
        assert(all[k] == first[k]);
    }
    lemma_served_skip(all, 0, first.len());
    lemma_served_behind(first, next, 0);
    let a = choose|a: Seq<Seq<u8>>|
        {
            &&& a.len() == served(first)
            &&& #[trigger] replies_to(a, first, keys)
            &&& out_first == joined(a)
        };
    let b = choose|b: Seq<Seq<u8>>|
        {
            &&& b.len() == served(next)
            &&& #[trigger] replies_to(b, next, keys_next)
            &&& out_next == joined(b)
        };
    let parts = a + b;
    assert(replies_to(parts, all, keys)) by {
        assert forall|i: int| 0 <= i < parts.len() implies #[trigger] answers(
            command(all[i]),
            keys_after(all, keys, i as nat),
            parts[i],
        ) by {
            if i < first.len() {
                lemma_keys_front(first, next, keys, i as nat);
                assert(answers(command(first[i]), keys_after(first, keys, i as nat), a[i]));
            } else {
                let j = i - first.len();
                lemma_keys_behind(first, next, keys, j as nat);
                assert(answers(command(next[j]), keys_after(next, keys_next, j as nat), b[j]));
            }
        }
    }
    lemma_joined_add(a, b);
}

proof fn lemma_ends_add(first: Seq<Seq<Seq<u8>>>, next: Seq<Seq<Seq<u8>>>)
    requires
        !ends(first),
    ensures
        ends(first + next) == ends(next),
{
    let all = first + next;
    if ends(next) {
        let i = choose|i: int| 0 <= i < next.len() && closes(command(#[trigger] next[i]));
        assert(all[first.len() + i] == next[i]);
    }
    if ends(all) {
        let i = choose|i: int| 0 <= i < all.len() && closes(command(#[trigger] all[i]));
        if i < first.len() {
            assert(first[i] == all[i]);
        } else {
            assert(next[i - first.len()] == all[i]);
        }
    }
}

/// What two reads leave is what one would leave.
proof fn lemma_left_add(first: Seq<u8>, next: Seq<u8>)
    requires
        (first + next).len() <= usize::MAX,
        batch(first, 0) matches Some(b) && b.err.len() == 0,
        batch(first + next, 0) is Some,
    ensures
        ({
            let left = first.skip(batch(first, 0)->0.consumed);
            (left + next).skip(batch(left + next, 0)->0.consumed) == (first + next).skip(
                batch(first + next, 0)->0.consumed,
            )
        }),
{
    let a = batch(first, 0)->0;
    let left = first.skip(a.consumed);
    law_cut_anywhere(first, next);
    let b = batch(left + next, 0)->0;
    lemma_consumed(first);
    lemma_consumed(left + next);
    assert((left + next).skip(b.consumed) =~= (first + next).skip(a.consumed + b.consumed));
}

/// What comes in with two reads is answered as if it had come in with one, as
/// long as neither part breaks the protocol and the first does not end the
/// connection.
pub proof fn law_reads_add_up(
    first: Seq<u8>,
    next: Seq<u8>,
    keys: Map<Seq<u8>, Seq<u8>>,
    out_first: Seq<u8>,
    left: Seq<u8>,
    keys_first: Map<Seq<u8>, Seq<u8>>,
    out_next: Seq<u8>,
    close: bool,
    rest: Seq<u8>,
    keys_next: Map<Seq<u8>, Seq<u8>>,
)
    requires
        (first + next).len() <= usize::MAX,
        batch(first + next, 0) matches Some(b) && b.err.len() == 0,
        batch(first, 0) matches Some(b) && b.err.len() == 0,
        handled(first, keys, out_first, false, left, keys_first),
        handled(left + next, keys_first, out_next, close, rest, keys_next),
    ensures
        handled(first + next, keys, out_first + out_next, close, rest, keys_next),
{
    law_cut_anywhere(first, next);
    let a = batch(first, 0)->0;
    let b = batch(left + next, 0)->0;
    let whole = batch(first + next, 0)->0;
    lemma_served_bounds(a.requests, 0);
    lemma_answered_add(a.requests, b.requests, keys, out_first, out_next);
    lemma_served_bounds(b.requests, 0);
    lemma_keys_behind(a.requests, b.requests, keys, served(b.requests));
    lemma_ends_add(a.requests, b.requests);
    lemma_left_add(first, next);
}

/// A request that a client library sends is answered, and carried out, whatever
/// its arguments hold; nothing of it is left.
pub proof fn law_request_answered(
    args: Seq<Seq<u8>>,
    keys: Map<Seq<u8>, Seq<u8>>,
    out: Seq<u8>,
    close: bool,
    rest: Seq<u8>,
    after: Map<Seq<u8>, Seq<u8>>,
)
    requires
        args.len() > 0,
        list_bytes(args).len() <= usize::MAX,
        handled(list_bytes(args), keys, out, close, rest, after),
    ensures
        answers(command(args), keys, out),
        after == effect(command(args), keys),
        close == closes(command(args)),
        rest == Seq::<u8>::empty(),
{
    let input = list_bytes(args);
    assert(input + Seq::<u8>::empty() =~= input);
    law_request_read_back(args, Seq::empty());
    let tail = batch(input, input.len() as int)->0;
    assert(tail == (Batch {
        requests: Seq::empty(),
        err: Seq::empty(),
        consumed: input.len() as int,
    }));
    assert(batch(input, 0)->0.requests =~= seq![args]);
    let requests = seq![args];
    lemma_served_bounds(requests, 0);
    assert(served(requests) == 1) by {
        reveal_with_fuel(served_from, 2);
    }
    let parts = choose|parts: Seq<Seq<u8>>|
        {
            &&& parts.len() == served(requests)
            &&& #[trigger] replies_to(parts, requests, keys)
            &&& out == joined(parts)
        };
    assert(answers(command(requests[0]), keys_after(requests, keys, 0), parts[0]));
    assert(joined(parts.drop_last()) =~= Seq::empty());
    assert(out =~= parts[0]);
    assert(keys_after(requests, keys, 1) == effect(command(args), keys)) by {
        reveal_with_fuel(keys_after, 2);
    }
    assert(ends(requests) == closes(command(args))) by {
        assert(requests[0] == args);
    }
}

/// Requests that are sent one behind the other are all answered, in order, up to
/// one that ends the connection; nothing of them is left.
pub proof fn law_pipeline_answered(
    requests: Seq<Seq<Seq<u8>>>,
    keys: Map<Seq<u8>, Seq<u8>>,
    out: Seq<u8>,
    close: bool,
    rest: Seq<u8>,
    after: Map<Seq<u8>, Seq<u8>>,
)
    requires
        pipeline_bytes(requests).len() <= usize::MAX,
        forall|i: int| 0 <= i < requests.len() ==> (#[trigger] requests[i]).len() > 0,
        handled(pipeline_bytes(requests), keys, out, close, rest, after),
    ensures
        answered(requests, keys, out),
        close == ends(requests),
        after == keys_after(requests, keys, served(requests)),
        rest == Seq::<u8>::empty(),
{
    law_pipeline_read_back(requests);
}

/// Requests that are sent one behind the other are answered in the same way when
/// they come in with two reads, wherever they are cut, as long as the first part
/// does not end the connection.
pub proof fn law_pipeline_in_two_reads(
    requests: Seq<Seq<Seq<u8>>>,
    k: int,
    keys: Map<Seq<u8>, Seq<u8>>,
    out_first: Seq<u8>,
    left: Seq<u8>,
    keys_first: Map<Seq<u8>, Seq<u8>>,
    out_next: Seq<u8>,
    close: bool,
    rest: Seq<u8>,
    keys_next: Map<Seq<u8>, Seq<u8>>,
)
    requires
        0 <= k <= pipeline_bytes(requests).len() <= usize::MAX,
        forall|i: int| 0 <= i < requests.len() ==> (#[trigger] requests[i]).len() > 0,
        handled(pipeline_bytes(requests).take(k), keys, out_first, false, left, keys_first),
        handled(
            left + pipeline_bytes(requests).skip(k),
            keys_first,
            out_next,
            close,
            rest,
            keys_next,
        ),
    ensures
        answered(requests, keys, out_first + out_next),
        close == ends(requests),
        keys_next == keys_after(requests, keys, served(requests)),
        rest == Seq::<u8>::empty(),
{
    let all = pipeline_bytes(requests);
    assert(all.take(k) + all.skip(k) =~= all);
    law_pipeline_read_back(requests);
    law_pipeline_front(requests, k);
    law_reads_add_up(
        all.take(k),
        all.skip(k),
        keys,
        out_first,
        left,
        keys_first,
        out_next,
        close,
        rest,
        keys_next,
    );
    law_pipeline_answered(requests, keys, out_first + out_next, close, rest, keys_next);
}

/// Where there are no requests, nothing is answered, and nothing changes.
pub proof fn law_nothing_to_run(keys: Map<Seq<u8>, Seq<u8>>, out: Seq<u8>)
    ensures
        ({
            let requests = Seq::<Seq<Seq<u8>>>::empty();
            &&& answered(requests, keys, out) ==> out == Seq::<u8>::empty()
            &&& !ends(requests)
            &&& keys_after(requests, keys, served(requests)) == keys
        }),
{
}

/// Requests are run one by one: the first is answered in the store as it is, and
/// the others as if they were alone, in the store that the first one left. A
/// request that ends the connection is the last one to be run.
pub proof fn law_first_then_rest(
    first: Seq<Seq<u8>>,
    rest: Seq<Seq<Seq<u8>>>,
    keys: Map<Seq<u8>, Seq<u8>>,
    out: Seq<u8>,
)
    ensures
        ({
            let all = seq![first] + rest;
            let next = effect(command(first), keys);
            if closes(command(first)) {
                &&& answered(all, keys, out) ==> answers(command(first), keys, out)
                &&& ends(all)
                &&& keys_after(all, keys, served(all)) == next
            } else {
                &&& answered(all, keys, out) ==> exists|p: Seq<u8>, q: Seq<u8>|
                    out == p + q && #[trigger] answers(command(first), keys, p)
                        && #[trigger] answered(rest, next, q)
                &&& ends(all) == ends(rest)
                &&& keys_after(all, keys, served(all)) == keys_after(rest, next, served(rest))
            }
        }),
{
    let one = seq![first];
    let all = one + rest;
    let next = effect(command(first), keys);
    assert(all[0] == first);
    assert(keys_after(all, keys, 1) == next) by {
        reveal_with_fuel(keys_after, 2);
    }
    assert(keys_after(one, keys, 1) == next) by {
        reveal_with_fuel(keys_after, 2);
    }
    if closes(command(first)) {
        assert(closes(command(all[0])));
        if answered(all, keys, out) {
            let parts = lemma_parts(all, keys, out);
            assert(parts =~= seq![parts[0]]);
            assert(joined(parts.drop_last()) =~= Seq::empty());
            assert(out =~= parts[0]);
        }
    } else {
        assert(!ends(one));
        lemma_ends_add(one, rest);
        lemma_served_behind(one, rest, 0);
        lemma_served_bounds(rest, 0);
        lemma_keys_behind(one, rest, keys, served(rest));
        if answered(all, keys, out) {
            let parts = lemma_parts(all, keys, out);
            let others = parts.drop_first();
            assert(parts =~= seq![parts[0]] + others);
            lemma_joined_add(seq![parts[0]], others);
            assert(joined(seq![parts[0]].drop_last()) =~= Seq::empty());
            assert(joined(seq![parts[0]]) =~= parts[0]);
            assert(replies_to(others, rest, next)) by {
                assert forall|i: int| 0 <= i < others.len() implies #[trigger] answers(
                    command(rest[i]),
                    keys_after(rest, next, i as nat),
                    others[i],
                ) by {
                    lemma_keys_behind(one, rest, keys, i as nat);
                    assert(answers(
                        command(all[i + 1]),
                        keys_after(all, keys, (i + 1) as nat),
                        parts[i + 1],
                    ));
                }
            }
            assert(answered(rest, next, joined(others)));
            assert(answers(command(first), keys, parts[0]));
        }
    }
}

/// The replies that an answer is put together of; the first one answers the first
/// request.
proof fn lemma_parts(
    requests: Seq<Seq<Seq<u8>>>,
    keys: Map<Seq<u8>, Seq<u8>>,
    out: Seq<u8>,
) -> (parts: Seq<Seq<u8>>)
    requires
        requests.len() > 0,
        answered(requests, keys, out),
    ensures
        parts.len() == served(requests) > 0,
        replies_to(parts, requests, keys),
        out == joined(parts),
        answers(command(requests[0]), keys, parts[0]),
{
    let parts = choose|parts: Seq<Seq<u8>>|
        {
            &&& parts.len() == served(requests)
            &&& #[trigger] replies_to(parts, requests, keys)
            &&& out == joined(parts)
        };
    if !closes(command(requests[0])) {
        lemma_served_bounds(requests, 1);
    }
    let i: int = 0;
    assert(i < parts.len());
    assert(answers(command(requests[i]), keys_after(requests, keys, i as nat), parts[i]));
    parts
}

/// Input that keeps the protocol is answered as its requests are, and what is left
/// of it is what follows them.
pub proof fn law_requests_answered(
    input: Seq<u8>,
    keys: Map<Seq<u8>, Seq<u8>>,
    out: Seq<u8>,
    close: bool,
    rest: Seq<u8>,
    after: Map<Seq<u8>, Seq<u8>>,
)
    requires
        batch(input, 0) matches Some(b) && b.err.len() == 0,
        handled(input, keys, out, close, rest, after),
    ensures
        ({
            let b = batch(input, 0)->0;
            &&& answered(b.requests, keys, out)
            &&& close == ends(b.requests)
            &&& after == keys_after(b.requests, keys, served(b.requests))
            &&& input == input.take(b.consumed) + rest
        }),
{
    lemma_consumed(input);
    let b = batch(input, 0)->0;
    assert(input =~= input.take(b.consumed) + input.skip(b.consumed));
}

/// Nothing behind the first request that ends the connection is carried out.
pub proof fn law_nothing_after_the_end(requests: Seq<Seq<Seq<u8>>>, i: int)
    requires
        0 <= i < requests.len(),
        closes(command(requests[i])),
        forall|k: int| 0 <= k < i ==> !closes(command(#[trigger] requests[k])),
    ensures
        served(requests) == i + 1,
        ends(requests),
{
    lemma_served_skip(requests, 0, i as nat);
}

/// A client that sets a value and then gets it is sent the value.
pub proof fn law_set_then_get_answered(
    set_args: Seq<Seq<u8>>,
    get_args: Seq<Seq<u8>>,
    key: Seq<u8>,
    value: Seq<u8>,
    keys: Map<Seq<u8>, Seq<u8>>,
    out_set: Seq<u8>,
    close_set: bool,
    rest_set: Seq<u8>,
    keys_set: Map<Seq<u8>, Seq<u8>>,
    out_get: Seq<u8>,
    close_get: bool,
    rest_get: Seq<u8>,
    keys_get: Map<Seq<u8>, Seq<u8>>,
)
    requires
        set_args.len() > 0,
        get_args.len() > 0,
        list_bytes(set_args).len() <= usize::MAX,
        list_bytes(get_args).len() <= usize::MAX,
        command(set_args) == (Command::SetKey { key, value }),
        command(get_args) == (Command::GetKey { key }),
        handled(list_bytes(set_args), keys, out_set, close_set, rest_set, keys_set),
        handled(list_bytes(get_args), keys_set, out_get, close_get, rest_get, keys_get),
    ensures
        out_set == utf8("+OK\r\n"@),
        out_get == bulk_bytes(value),
        keys_get == keys.insert(key, value),
        !close_set && !close_get,
{
    law_request_answered(set_args, keys, out_set, close_set, rest_set, keys_set);
    law_request_answered(get_args, keys_set, out_get, close_get, rest_get, keys_get);
}

/// The front of a request is waited upon: it is not answered, it changes nothing,
/// and it is kept.
pub proof fn law_front_is_kept(
    args: Seq<Seq<u8>>,
    k: int,
    keys: Map<Seq<u8>, Seq<u8>>,
    out: Seq<u8>,
    close: bool,
    rest: Seq<u8>,
    after: Map<Seq<u8>, Seq<u8>>,
)
    requires
        0 <= k < list_bytes(args).len() <= usize::MAX,
        handled(list_bytes(args).take(k), keys, out, close, rest, after),
    ensures
        out == Seq::<u8>::empty(),
        !close,
        rest == list_bytes(args).take(k),
        after == keys,
{
    law_request_front(args, k);
    let parts = choose|parts: Seq<Seq<u8>>|
        {
            &&& parts.len() == served(Seq::<Seq<Seq<u8>>>::empty())
            &&& #[trigger] replies_to(parts, Seq::<Seq<Seq<u8>>>::empty(), keys)
            &&& out == joined(parts)
        };
    assert(out =~= Seq::empty());
    assert(rest =~= list_bytes(args).take(k));
}

/// Input that breaks the protocol is answered with the error, on one line, and
/// closes the connection; the store is left as it was, and so is the input from
/// the request on that breaks the protocol.
pub proof fn law_protocol_error_answer(
    input: Seq<u8>,
    keys: Map<Seq<u8>, Seq<u8>>,
    out: Seq<u8>,
    close: bool,
    rest: Seq<u8>,
    after: Map<Seq<u8>, Seq<u8>>,
)
    requires
        batch(input, 0) matches Some(b) && b.err.len() > 0,
        handled(input, keys, out, close, rest, after),
    ensures
        is_line_reply(out),
        out == encode_utf8("-"@ + batch(input, 0)->0.err + "\r\n"@),
        close,
        after == keys,
        input == input.take(batch(input, 0)->0.consumed) + rest,
{
    lemma_consumed(input);
    let b = batch(input, 0)->0;
    assert(input =~= input.take(b.consumed) + input.skip(b.consumed));
    law_error_frames(b.err);
    lemma_batch_error_line(input, 0);
    lemma_error_line(batch(input, 0)->0.err);
}

/// Greets a client that has connected. Returns what to send, and whether to close
/// the connection.
pub fn event_opened(_id: usize) -> (r: (Vec<u8>, bool))
    ensures
        r.0@ == Seq::<u8>::empty(),
        !r.1,
{
    (Vec::new(), false)
}

/// Carries out requests, one after the other, up to one that ends the
/// connection. Returns the replies, and whether the connection ends.
pub fn run_requests(requests: &Vec<Vec<Vec<u8>>>, store: &mut Store) -> (r: (Vec<u8>, bool))
    requires
        forall|k: int| 0 <= k < requests.len() ==> (#[trigger] requests[k]).len() > 0,
    ensures
        answered(request_views(requests@), old(store)@, r.0@),
        r.1 == ends(request_views(requests@)),
        final(store)@ == keys_after(
            request_views(requests@),
            old(store)@,
            served(request_views(requests@)),
        ),
{
    let ghost all = request_views(requests@);
    let ghost keys = store@;
    let ghost mut parts: Seq<Seq<u8>> = Seq::empty();
    let mut output: Vec<u8> = Vec::new();
    let mut i: usize = 0;
    while i < requests.len()
        invariant
            i <= requests.len(),
            forall|k: int| 0 <= k < requests.len() ==> (#[trigger] requests[k]).len() > 0,
            all == request_views(requests@),
            keys == old(store)@,
            store@ == keys_after(all, keys, i as nat),
            parts.len() == i,
            replies_to(parts, all, keys),
            output@ == joined(parts),
            served(all) == served_from(all, i as nat),
            forall|k: int| 0 <= k < i ==> !closes(command(#[trigger] all[k])),
        decreases requests.len() - i,
    {
        assert(requests[i as int].len() > 0);
        assert(all[i as int] == views(requests[i as int]@));
        let (reply, _write, close) = handle_command(&requests[i], store);
        append_bytes(&mut output, reply.as_slice());
        proof {
            let longer = parts.push(reply@);
            assert(longer.drop_last() =~= parts);
            assert(replies_to(longer, all, keys)) by {
                assert forall|k: int| 0 <= k < longer.len() implies #[trigger] answers(
                    command(all[k]),
                    keys_after(all, keys, k as nat),
                    longer[k],
                ) by {
                    if k < i {
                        assert(longer[k] == parts[k]);
                    }
                }
            }
            parts = longer;
        }
        if close {
            return (output, true);
        }
        i = i + 1;
    }
    (output, false)
}

/// Takes the complete requests out of the input, and leaves the rest. Returns
/// them with the protocol error that follows them; or nothing, with nothing
/// changed, where the input cannot be read any further.
pub fn take_requests(input: &mut Vec<u8>) -> (r: Option<(Vec<Vec<Vec<u8>>>, String)>)
    ensures
        match r {
            Some((requests, err)) => {
                &&& batch(old(input)@, 0) matches Some(b)
                &&& request_views(requests@) == b.requests
                &&& err@ == b.err
                &&& final(input)@ == old(input)@.skip(b.consumed)
                &&& forall|k: int| 0 <= k < requests.len() ==> (#[trigger] requests[k]).len() > 0
            },
            None => batch(old(input)@, 0) is None && final(input)@ == old(input)@,
        },
{
    let (requests, err, consumed) = match try_take_batch(input) {
        None => {
            return None;
        },
        Some(taken) => taken,
    };
    let rest = input.split_off(consumed);
    *input = rest;
    assert(input@ =~= old(input)@.skip(consumed as int));
    Some((requests, err))
}

/// Handles what connection `_id` has sent so far: carries out the complete
/// requests, and leaves the rest of the input. Returns the reply, and whether to
/// close the connection; or nothing, with nothing changed, where the input
/// cannot be read any further.
pub fn try_event_data(_id: usize, input: &mut Vec<u8>, store: &mut Store) -> (r: Option<
    (Vec<u8>, bool),
>)
    ensures
        match r {
            Some((out, close)) => handled(
                old(input)@,
                old(store)@,
                out@,
                close,
                final(input)@,
                final(store)@,
            ),
            None => {
                &&& batch(old(input)@, 0) is None
                &&& final(input)@ == old(input)@
                &&& final(store)@ == old(store)@
            },
        },
{
    let (requests, err) = match take_requests(input) {
        None => {
            return None;
        },
        Some(taken) => taken,
    };
    if !err.as_str().is_empty() {
        Some((protocol_error_reply(err.as_str()), true))
    } else {
        Some(run_requests(&requests, store))
    }
}

/// Handles what connection `_id` has sent so far: carries out the complete
/// requests, and leaves the rest of the input. Returns the reply, and whether to
/// close the connection.
pub fn event_data(_id: usize, input: &mut Vec<u8>, store: &mut Store) -> (r: (Vec<u8>, bool))
    requires
        batch(old(input)@, 0) is Some,
    ensures
        handled(old(input)@, old(store)@, r.0@, r.1, final(input)@, final(store)@),
{
    try_event_data(_id, input, store).unwrap()
}

} // verus!
