//! Requests, as they are taken from the front of what a client has sent.

use crate::bytes::{views, STAR};
use crate::inline::{inline_taken, lemma_line_end, try_take_inline_args};
use crate::multibulk::{
    lemma_multibulk_end, lemma_multibulk_error_line, multibulk_taken, try_take_multibulk_args,
};
use crate::text::is_line;
use vstd::prelude::*;

verus! {

/// What taking one request from the input comes to.
#[verifier::ext_equal]
pub struct Taken {
    /// The arguments that were read.
    pub args: Seq<Seq<u8>>,
    /// The protocol error, or nothing.
    pub err: Seq<char>,
    /// Where reading stopped.
    pub next: int,
    /// Whether a whole request was read.
    pub complete: bool,
}

/// The value that stands for `taken`.
pub open spec fn stands_for(r: (Vec<Vec<u8>>, String, usize, bool), taken: Taken) -> bool {
    &&& views(r.0@) == taken.args
    &&& r.1@ == taken.err
    &&& r.2 == taken.next
    &&& r.3 == taken.complete
}

/// Nothing but the position: neither an argument nor an error.
pub open spec fn nothing_taken(next: int) -> Taken {
    Taken { args: Seq::empty(), err: Seq::empty(), next, complete: false }
}

/// What taking the request at `ni` comes to; nothing where the input cannot be
/// read any further, because it ends with a backslash inside a quoted word, or
/// because a length reaches past the end of the address space.
pub open spec fn request_taken(input: Seq<u8>, ni: int) -> Option<Taken> {
    if input.len() <= ni {
        Some(nothing_taken(ni))
    } else if input[ni] == STAR {
        multibulk_taken(input, ni)
    } else {
        inline_taken(input, ni)
    }
}

/// A request that is complete ends behind its start, inside the input.
pub proof fn law_requests_advance(input: Seq<u8>, ni: int)
    requires
        0 <= ni,
    ensures
        request_taken(input, ni) matches Some(t) ==> t.complete ==> {
            &&& ni < t.next <= input.len()
            &&& t.err.len() == 0
        },
{
    if ni < input.len() {
        if input[ni] == STAR {
            lemma_multibulk_end(input, ni);
        } else {
            lemma_line_end(input, ni, ni);
        }
    }
}

/// The requests at the front of the input.
#[verifier::ext_equal]
pub struct Batch {
    /// The arguments of each request that has any.
    pub requests: Seq<Seq<Seq<u8>>>,
    /// The protocol error that follows them, or nothing.
    pub err: Seq<char>,
    /// Where the complete requests end.
    pub consumed: int,
}

/// A list with the one request, unless it has no arguments.
pub open spec fn listed(args: Seq<Seq<u8>>) -> Seq<Seq<Seq<u8>>> {
    if args.len() > 0 {
        seq![args]
    } else {
        Seq::empty()
    }
}

/// `rest` with requests put in front of its own.
pub open spec fn after_requests(front: Seq<Seq<Seq<u8>>>, rest: Option<Batch>) -> Option<Batch> {
    match rest {
        Some(b) => Some(Batch { requests: front + b.requests, ..b }),
        None => None,
    }
}

/// The complete requests from `i` on, up to a protocol error or to where more
/// input is needed; nothing where the input cannot be read any further.
pub open spec fn batch(input: Seq<u8>, i: int) -> Option<Batch>
    decreases input.len() - i,
{
    proof {
        if 0 <= i {
            law_requests_advance(input, i);
        }
    }
    match request_taken(input, i) {
        None => None,
        Some(t) => if t.err.len() > 0 {
            Some(Batch { requests: Seq::empty(), err: t.err, consumed: i })
        } else if !t.complete || i < 0 {
            Some(Batch { requests: Seq::empty(), err: Seq::empty(), consumed: i })
        } else {
            after_requests(listed(t.args), batch(input, t.next))
        },
    }
}

/// A protocol error is one line of text.
pub(crate) proof fn lemma_batch_error_line(input: Seq<u8>, i: int)
    requires
        0 <= i,
        batch(input, i) is Some,
    ensures
        is_line(batch(input, i)->0.err),
    decreases input.len() - i,
{
    law_requests_advance(input, i);
    let t = request_taken(input, i)->0;
    if t.err.len() > 0 {
        if input[i] == STAR {
            lemma_multibulk_error_line(input, i);
        } else {
            reveal_strlit("ERR Protocol error: unbalanced quotes in request");
        }
    } else if t.complete {
        lemma_batch_error_line(input, t.next);
    }
}

/// A request that starts with `*` is an array of bulk strings, and any other is a
/// line; where there is no input, there is nothing to take.
pub proof fn law_kinds_of_requests(input: Seq<u8>, ni: int)
    requires
        0 <= ni,
    ensures
        ni >= input.len() ==> request_taken(input, ni) == Some(nothing_taken(ni)),
        ni >= input.len() ==> inline_taken(input, ni) == Some(nothing_taken(ni)),
        ni >= input.len() ==> multibulk_taken(input, ni) == Some(nothing_taken(ni + 1)),
        ni < input.len() && input[ni] == 42 ==> request_taken(input, ni) == multibulk_taken(
            input,
            ni,
        ),
        ni < input.len() && input[ni] != 42 ==> request_taken(input, ni) == inline_taken(
            input,
            ni,
        ),
        nothing_taken(ni) == (Taken {
            args: Seq::empty(),
            err: Seq::empty(),
            next: ni,
            complete: false,
        }),
{
}

/// What is returned is what was taken, part by part.
pub proof fn law_stands_for(r: (Vec<Vec<u8>>, String, usize, bool), taken: Taken)
    requires
        stands_for(r, taken),
    ensures
        r.0.len() == taken.args.len(),
        forall|i: int| 0 <= i < r.0.len() ==> (#[trigger] r.0[i])@ == taken.args[i],
        r.1@ == taken.err,
        r.2 == taken.next,
        r.3 == taken.complete,
{
    assert forall|i: int| 0 <= i < r.0.len() implies (#[trigger] r.0[i])@ == taken.args[i] by {
        assert(views(r.0@)[i] == r.0@[i]@);
    }
}

/// A list of requests holds their arguments one by one, as they are.
pub proof fn law_request_views(list: Seq<Vec<Vec<u8>>>)
    ensures
        request_views(list).len() == list.len(),
        forall|i: int|
            0 <= i < list.len() ==> (#[trigger] request_views(list)[i]).len() == list[i].len(),
        forall|i: int, j: int|
            0 <= i < list.len() && 0 <= j < list[i].len() ==> #[trigger] request_views(list)[i][j]
                == list[i][j]@,
{
}

/// Takes the request at `ni`. Returns nothing where the input cannot be read any
/// further.
pub fn try_take_args(input: &Vec<u8>, ni: usize) -> (r: Option<
    (Vec<Vec<u8>>, String, usize, bool),
>)
    ensures
        match r {
            Some(taken) => request_taken(input@, ni as int) matches Some(t) && stands_for(taken, t),
            None => request_taken(input@, ni as int) is None,
        },
{
    if input.len() > ni {
        if input[ni] == STAR {
            try_take_multibulk_args(input, ni)
        } else {
            try_take_inline_args(input, ni)
        }
    } else {
        assert(views(Seq::<Vec<u8>>::empty()) =~= Seq::empty());
        Some((Vec::new(), String::default(), ni, false))
    }
}

/// Takes the request at `ni`: its arguments, an error or nothing, where reading
/// stopped, and whether the request was complete.
pub fn redcon_take_args(input: &Vec<u8>, ni: usize) -> (r: (Vec<Vec<u8>>, String, usize, bool))
    requires
        request_taken(input@, ni as int) is Some,
    ensures
        stands_for(r, request_taken(input@, ni as int)->0),
{
    try_take_args(input, ni).unwrap()
}

/// The contents of a list of requests.
pub open spec fn request_views(list: Seq<Vec<Vec<u8>>>) -> Seq<Seq<Seq<u8>>> {
    Seq::new(list.len(), |i: int| views(list[i]@))
}

/// Takes all complete requests from the front of the input. Returns them with
/// the protocol error that follows them and with where they end, or nothing
/// where the input cannot be read any further.
pub fn try_take_batch(input: &Vec<u8>) -> (r: Option<(Vec<Vec<Vec<u8>>>, String, usize)>)
    ensures
        match r {
            Some(taken) => batch(input@, 0) matches Some(b) && request_views(taken.0@)
                == b.requests && taken.1@ == b.err && taken.2 == b.consumed,
            None => batch(input@, 0) is None,
        },
        r matches Some(taken) ==> taken.2 <= input.len() && forall|k: int|
            0 <= k < taken.0.len() ==> (#[trigger] taken.0[k]).len() > 0,
{
    let mut requests: Vec<Vec<Vec<u8>>> = Vec::new();
    let mut i: usize = 0;
    assert(batch(input@, 0) =~= after_requests(request_views(requests@), batch(input@, 0)));
    loop
        invariant
            i <= input.len(),
            batch(input@, 0) == after_requests(request_views(requests@), batch(input@, i as int)),
            forall|k: int| 0 <= k < requests.len() ==> (#[trigger] requests[k]).len() > 0,
        decreases input.len() - i,
    {
        proof {
            law_requests_advance(input@, i as int);
        }
        let (args, err, next, complete) = match try_take_args(input, i) {
            None => {
                return None;
            },
            Some(taken) => taken,
        };
        let ghost rest = batch(input@, next as int);
        let ghost before = request_views(requests@);
        if !err.as_str().is_empty() {
            return Some((requests, err, i));
        }
        if !complete {
            return Some((requests, String::default(), i));
        }
        i = next;
        if args.len() > 0 {
            let ghost request = views(args@);
            requests.push(args);
            assert(request_views(requests@) =~= before + seq![request]);
            assert(after_requests(before, after_requests(seq![request], rest)) =~= after_requests(
                request_views(requests@),
                rest,
            ));
        } else {
            assert(after_requests(before, after_requests(Seq::empty(), rest)) =~= after_requests(
                before,
                rest,
            ));
        }
    }
}

} // verus!
