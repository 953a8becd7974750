//! The stream of bytes from a client: it may be cut into reads anywhere.

use crate::bytes::{
    parsed_usize, BACKSLASH, CR, DOLLAR, DOUBLE_QUOTE, LF, SINGLE_QUOTE, SPACE, STAR,
};
use crate::inline::{escape, is_hex, lemma_quoted_end, line, quoted, Line, Quoted, LETTER_X};
use crate::multibulk::{
    bulk_at, bulks_taken, find_crlf, lemma_dollar_line, lemma_find_crlf, lemma_wrapped_sum,
};
use crate::request::{
    after_requests, batch, law_requests_advance, listed, request_taken, Batch, Taken,
};
use vstd::prelude::*;

verus! {

// What was complete, or refused, stays as it is when more input follows.

proof fn lemma_quoted_more(p: Seq<u8>, more: Seq<u8>, i: int, quote: u8)
    requires
        0 <= i,
        quote == DOUBLE_QUOTE || quote == SINGLE_QUOTE,
        quoted(p, i, quote) is Closed || quoted(p, i, quote) is Unbalanced,
    ensures
        quoted(p + more, i, quote) == quoted(p, i, quote),
    decreases p.len() - i,
{
    let q = p + more;
    if i < p.len() && p[i] != LF {
        if p[i] == BACKSLASH {
            if i + 1 < p.len() {
                let width = escape(p, i + 1).1;
                lemma_quoted_more(p, more, i + 1 + width, quote);
                if p[i + 1] == LETTER_X && i + 3 >= p.len() {
                    // What follows the `x` ends the word or the line: no digit.
                    assert(quoted(p, i + 3, quote) is Open);
                    assert(i + 2 < p.len());
                    assert(!is_hex(p[i + 2]));
                }
                assert(escape(q, i + 1) == escape(p, i + 1));
            }
        } else if p[i] != quote {
            lemma_quoted_more(p, more, i + 1, quote);
        }
    }
}

proof fn lemma_line_more(p: Seq<u8>, more: Seq<u8>, i: int, start: int)
    requires
        0 <= start <= i,
        line(p, i, start) is Complete || line(p, i, start) is Unbalanced,
    ensures
        line(p + more, i, start) == line(p, i, start),
    decreases p.len() - i,
{
    let q = p + more;
    if p[i] == SPACE {
        lemma_line_more(p, more, i + 1, i + 1);
        assert(q.subrange(start, i) =~= p.subrange(start, i));
    } else if p[i] == LF {
        assert(q.subrange(start, i) =~= p.subrange(start, i));
        if i > start {
            assert(q.subrange(start, i - 1) =~= p.subrange(start, i - 1));
        }
    } else if p[i] == DOUBLE_QUOTE || p[i] == SINGLE_QUOTE {
        lemma_quoted_end(p, i + 1, p[i]);
        lemma_quoted_more(p, more, i + 1, p[i]);
        if let Quoted::Closed { next, .. } = quoted(p, i + 1, p[i]) {
            lemma_line_more(p, more, next, next);
        }
    } else {
        lemma_line_more(p, more, i + 1, start);
    }
}

proof fn lemma_find_crlf_more(b: Seq<u8>, more: Seq<u8>, i: int)
    requires
        1 <= i,
        find_crlf(b, i) is Some,
    ensures
        find_crlf(b + more, i) == find_crlf(b, i),
    decreases b.len() - i,
{
    if !(b[i - 1] == CR && b[i] == LF) {
        lemma_find_crlf_more(b, more, i + 1);
    }
}

proof fn lemma_bulks_more(b: Seq<u8>, more: Seq<u8>, s: int, n: nat)
    requires
        1 <= s <= b.len(),
        bulks_taken(b, s, n) matches Some(t) && (t.complete || t.err.len() > 0),
    ensures
        bulks_taken(b + more, s, n) == bulks_taken(b, s, n),
    decreases n,
{
    let c = b + more;
    if n > 0 {
        lemma_dollar_line(b, s);
        lemma_find_crlf_more(b, more, s);
        let lf = find_crlf(b, s)->0;
        if b[s] == DOLLAR {
            assert(c.subrange(s + 1, lf - 1) =~= b.subrange(s + 1, lf - 1));
        }
        if bulk_at(b, s) is Whole {
            let len = parsed_usize(b.subrange(s + 1, lf - 1))->0;
            lemma_wrapped_sum(lf + 1 + len + 2, usize::MAX + 1);
            assert(c.subrange(lf + 1, lf + 1 + len) =~= b.subrange(lf + 1, lf + 1 + len));
            assert(bulk_at(c, s) == bulk_at(b, s));
            lemma_bulks_more(b, more, lf + 1 + len + 2, (n - 1) as nat);
        }
    }
}

/// A request that is complete, or that breaks the protocol, is taken in the same
/// way whatever follows it.
pub proof fn law_request_stands(input: Seq<u8>, more: Seq<u8>, ni: int)
    requires
        0 <= ni,
        request_taken(input, ni) matches Some(t) && (t.complete || t.err.len() > 0),
    ensures
        request_taken(input + more, ni) == request_taken(input, ni),
{
    let c = input + more;
    if input[ni] == STAR {
        lemma_find_crlf(input, ni + 1);
        lemma_find_crlf_more(input, more, ni + 1);
        let lf = find_crlf(input, ni + 1)->0;
        assert(c.subrange(ni + 1, lf - 1) =~= input.subrange(ni + 1, lf - 1));
        if let Some(n) = parsed_usize(input.subrange(ni + 1, lf - 1)) {
            lemma_bulks_more(input, more, lf + 1, n);
        }
    } else {
        lemma_line_more(input, more, ni, ni);
    }
}

// Requests are read in the same way wherever they stand.

spec fn quoted_moved(q: Quoted, by: int) -> Quoted {
    match q {
        Quoted::Closed { arg, next } => Quoted::Closed { arg, next: next - by },
        _ => q,
    }
}

spec fn line_moved(l: Line, by: int) -> Line {
    match l {
        Line::Complete { args, next } => Line::Complete { args, next: next - by },
        _ => l,
    }
}

proof fn lemma_quoted_moved(p: Seq<u8>, k: int, i: int, quote: u8)
    requires
        0 <= k <= i,
        k <= p.len(),
    ensures
        quoted(p.skip(k), i - k, quote) == quoted_moved(quoted(p, i, quote), k),
    decreases p.len() - i,
{
    let q = p.skip(k);
    if i < p.len() && p[i] != LF {
        assert(q[i - k] == p[i]);
        if p[i] == BACKSLASH {
            if i + 1 < p.len() {
                assert(escape(q, i + 1 - k) == escape(p, i + 1));
                lemma_quoted_moved(p, k, i + 1 + escape(p, i + 1).1, quote);
            }
        } else if p[i] != quote {
            lemma_quoted_moved(p, k, i + 1, quote);
        }
    }
}

proof fn lemma_line_moved(p: Seq<u8>, k: int, i: int, start: int)
    requires
        0 <= k <= start <= i,
        k <= p.len(),
    ensures
        line(p.skip(k), i - k, start - k) == line_moved(line(p, i, start), k),
    decreases p.len() - i,
{
    let q = p.skip(k);
    if i < p.len() {
        assert(q[i - k] == p[i]);
        if p[i] == SPACE {
            lemma_line_moved(p, k, i + 1, i + 1);
            assert(q.subrange(start - k, i - k) =~= p.subrange(start, i));
        } else if p[i] == LF {
            assert(q.subrange(start - k, i - k) =~= p.subrange(start, i));
            if i > start {
                assert(q[i - k - 1] == p[i - 1]);
                assert(q.subrange(start - k, i - k - 1) =~= p.subrange(start, i - 1));
            }
        } else if p[i] == DOUBLE_QUOTE || p[i] == SINGLE_QUOTE {
            lemma_quoted_end(p, i + 1, p[i]);
            lemma_quoted_moved(p, k, i + 1, p[i]);
            if let Quoted::Closed { next, .. } = quoted(p, i + 1, p[i]) {
                lemma_line_moved(p, k, next, next);
            }
        } else {
            lemma_line_moved(p, k, i + 1, start);
        }
    }
}

proof fn lemma_find_crlf_moved(b: Seq<u8>, k: int, i: int)
    requires
        0 <= k < i,
        k <= b.len(),
    ensures
        find_crlf(b.skip(k), i - k) == match find_crlf(b, i) {
            Some(lf) => Some(lf - k),
            None => None,
        },
    decreases b.len() - i,
{
    if i < b.len() {
        assert(b.skip(k)[i - k] == b[i]);
        assert(b.skip(k)[i - k - 1] == b[i - 1]);
        if !(b[i - 1] == CR && b[i] == LF) {
            lemma_find_crlf_moved(b, k, i + 1);
        }
    }
}

spec fn taken_moved(t: Taken, by: int) -> Taken {
    Taken { next: t.next - by, ..t }
}

/// Summing up modulo the address space makes no difference between two places,
/// where a length is not too long.
proof fn lemma_needed_moved(len: int, lf: int, n: nat, k: int)
    requires
        0 <= k <= lf < len <= usize::MAX,
        n <= usize::MAX,
    ensures
        ({
            let m = usize::MAX + 1;
            let sum = lf + 1 + n + 2;
            let short = len < sum % m;
            let short_moved = len - k < (sum - k) % m;
            &&& short ==> short_moved
            &&& !short && sum <= usize::MAX ==> !short_moved && sum - k <= usize::MAX
        }),
{
    let m = usize::MAX + 1;
    let sum = lf + 1 + n + 2;
    lemma_wrapped_sum(sum, m);
    lemma_wrapped_sum(sum - k, m);
}

proof fn lemma_bulks_moved(b: Seq<u8>, k: int, s: int, n: nat)
    requires
        0 <= k < s <= b.len() <= usize::MAX,
        bulks_taken(b, s, n) is Some,
    ensures
        bulks_taken(b.skip(k), s - k, n) == Some(taken_moved(bulks_taken(b, s, n)->0, k)),
    decreases n,
{
    let c = b.skip(k);
    if n > 0 {
        lemma_dollar_line(b, s);
        lemma_find_crlf_moved(b, k, s);
        if let Some(lf) = find_crlf(b, s) {
            assert(c[s - k] == b[s]);
            if b[s] == DOLLAR {
                assert(c.subrange(s + 1 - k, lf - 1 - k) =~= b.subrange(s + 1, lf - 1));
                if let Some(len) = parsed_usize(b.subrange(s + 1, lf - 1)) {
                    let next = lf + 1 + len + 2;
                    lemma_needed_moved(b.len() as int, lf, len, k);
                    lemma_wrapped_sum(next, usize::MAX + 1);
                    if bulk_at(b, s) is Whole {
                        assert(c.subrange(lf + 1 - k, lf + 1 + len - k) =~= b.subrange(
                            lf + 1,
                            lf + 1 + len,
                        ));
                        lemma_bulks_moved(b, k, next, (n - 1) as nat);
                    }
                }
            }
        }
    }
}

/// A request is taken in the same way when input before it is dropped.
pub proof fn law_request_moved(input: Seq<u8>, k: int, ni: int)
    requires
        0 <= k <= ni,
        k <= input.len() <= usize::MAX,
        request_taken(input, ni) is Some,
    ensures
        request_taken(input.skip(k), ni - k) == Some(
            (Taken { next: request_taken(input, ni)->0.next - k, ..request_taken(input, ni)->0 }),
        ),
{
    let c = input.skip(k);
    if ni < input.len() {
        assert(c[ni - k] == input[ni]);
        if input[ni] == STAR {
            lemma_find_crlf(input, ni + 1);
            lemma_find_crlf_moved(input, k, ni + 1);
            if let Some(lf) = find_crlf(input, ni + 1) {
                assert(c.subrange(ni + 1 - k, lf - 1 - k) =~= input.subrange(ni + 1, lf - 1));
                if let Some(n) = parsed_usize(input.subrange(ni + 1, lf - 1)) {
                    lemma_bulks_moved(input, k, lf + 1, n);
                }
            }
        } else {
            lemma_line_moved(input, k, ni, ni);
        }
    }
}

proof fn lemma_bulks_behind(b: Seq<u8>, k: int, s: int, n: nat)
    requires
        0 <= k < s <= b.len() <= usize::MAX,
        bulks_taken(b.skip(k), s - k, n) matches Some(t) && (t.complete || t.err.len() > 0),
    ensures
        bulks_taken(b, s, n) is Some,
    decreases n,
{
    let c = b.skip(k);
    if n > 0 {
        lemma_dollar_line(b, s);
        lemma_find_crlf_moved(b, k, s);
        let lf = find_crlf(b, s)->0;
        assert(c[s - k] == b[s]);
        if b[s] == DOLLAR {
            assert(c.subrange(s + 1 - k, lf - 1 - k) =~= b.subrange(s + 1, lf - 1));
            if let Some(len) = parsed_usize(b.subrange(s + 1, lf - 1)) {
                let next = lf + 1 + len + 2;
                lemma_wrapped_sum(next, usize::MAX + 1);
                lemma_wrapped_sum(next - k, usize::MAX + 1);
                lemma_bulks_behind(b, k, next, (n - 1) as nat);
            }
        }
    }
}

/// A request that is complete on its own, or that breaks the protocol on its own,
/// is taken in the same way behind any other input.
pub proof fn law_request_behind(input: Seq<u8>, k: int, ni: int)
    requires
        0 <= k <= ni,
        k <= input.len() <= usize::MAX,
        request_taken(input.skip(k), ni - k) matches Some(t) && (t.complete || t.err.len() > 0),
    ensures
        request_taken(input, ni) == Some(
            (Taken {
                next: request_taken(input.skip(k), ni - k)->0.next + k,
                ..request_taken(input.skip(k), ni - k)->0
            }),
        ),
{
    let c = input.skip(k);
    assert(c[ni - k] == input[ni]);
    if input[ni] == STAR {
        lemma_find_crlf(input, ni + 1);
        lemma_find_crlf_moved(input, k, ni + 1);
        let lf = find_crlf(input, ni + 1)->0;
        assert(c.subrange(ni + 1 - k, lf - 1 - k) =~= input.subrange(ni + 1, lf - 1));
        if let Some(n) = parsed_usize(input.subrange(ni + 1, lf - 1)) {
            lemma_bulks_behind(input, k, lf + 1, n);
        }
    } else {
        lemma_line_moved(input, k, ni, ni);
    }
    law_request_moved(input, k, ni);
}

proof fn lemma_batch_behind(input: Seq<u8>, k: int, i: int)
    requires
        0 <= k <= i <= input.len() <= usize::MAX,
        batch(input.skip(k), i - k) matches Some(b) && (b.err.len() > 0 || b.consumed
            == input.len() - k),
    ensures
        batch(input, i) is Some,
    decreases input.len() - i,
{
    let c = input.skip(k);
    law_requests_advance(c, i - k);
    let t = request_taken(c, i - k)->0;
    if t.complete || t.err.len() > 0 {
        law_request_behind(input, k, i);
        if t.err.len() == 0 {
            lemma_batch_behind(input, k, t.next + k);
        }
    }
}

proof fn lemma_batch_moved(input: Seq<u8>, k: int, i: int)
    requires
        0 <= k <= i,
        k <= input.len() <= usize::MAX,
        batch(input, i) is Some,
    ensures
        batch(input.skip(k), i - k) == Some(
            (Batch { consumed: batch(input, i)->0.consumed - k, ..batch(input, i)->0 }),
        ),
    decreases input.len() - i,
{
    law_requests_advance(input, i);
    law_request_moved(input, k, i);
    let t = request_taken(input, i)->0;
    if t.err.len() == 0 && t.complete {
        lemma_batch_moved(input, k, t.next);
    }
}

proof fn lemma_batch_consumed(input: Seq<u8>, i: int)
    requires
        0 <= i <= input.len(),
        batch(input, i) is Some,
    ensures
        i <= batch(input, i)->0.consumed <= input.len(),
    decreases input.len() - i,
{
    law_requests_advance(input, i);
    let t = request_taken(input, i)->0;
    if t.err.len() == 0 && t.complete {
        lemma_batch_consumed(input, t.next);
    }
}

/// The complete requests end inside the input.
pub(crate) proof fn lemma_consumed(input: Seq<u8>)
    requires
        batch(input, 0) is Some,
    ensures
        0 <= batch(input, 0)->0.consumed <= input.len(),
{
    lemma_batch_consumed(input, 0);
}

proof fn lemma_batch_more(input: Seq<u8>, more: Seq<u8>, i: int)
    requires
        0 <= i <= input.len(),
        batch(input, i) matches Some(b) && b.err.len() == 0,
    ensures
        i <= batch(input, i)->0.consumed <= input.len(),
        batch(input + more, i) == after_requests(
            batch(input, i)->0.requests,
            batch(input + more, batch(input, i)->0.consumed),
        ),
    decreases input.len() - i,
{
    let c = input + more;
    let b = batch(input, i)->0;
    law_requests_advance(input, i);
    let t = request_taken(input, i)->0;
    if t.complete {
        law_request_stands(input, more, i);
        lemma_batch_more(input, more, t.next);
        let inner = batch(input, t.next)->0;
        let tail = batch(c, b.consumed);
        assert(after_requests(listed(t.args), after_requests(inner.requests, tail))
            =~= after_requests(b.requests, tail));
    } else {
        assert(batch(c, i) =~= after_requests(Seq::empty(), batch(c, i)));
    }
}

proof fn lemma_batch_refused(input: Seq<u8>, more: Seq<u8>, i: int)
    requires
        0 <= i,
        batch(input, i) matches Some(b) && b.err.len() > 0,
    ensures
        batch(input + more, i) == batch(input, i),
    decreases input.len() - i,
{
    law_requests_advance(input, i);
    law_request_stands(input, more, i);
    let t = request_taken(input, i)->0;
    if t.err.len() == 0 {
        lemma_batch_refused(input, more, t.next);
    }
}

/// Input that breaks the protocol does so whatever follows it: it is not refused
/// for want of what is still to come.
pub proof fn law_refusal_stands(first: Seq<u8>, next: Seq<u8>)
    requires
        batch(first, 0) matches Some(b) && b.err.len() > 0,
    ensures
        batch(first + next, 0) == batch(first, 0),
{
    lemma_batch_refused(first, next, 0);
}

/// Requests come apart where they were joined, in whatever way each of them is
/// written: behind input that is consumed whole, input that is consumed whole,
/// or that breaks the protocol, is read as on its own.
pub proof fn law_requests_come_apart(first: Seq<u8>, next: Seq<u8>)
    requires
        (first + next).len() <= usize::MAX,
        batch(first, 0) matches Some(a) && a.err.len() == 0 && a.consumed == first.len(),
        batch(next, 0) matches Some(b) && (b.err.len() > 0 || b.consumed == next.len()),
    ensures
        batch(first + next, 0) == Some(
            Batch {
                requests: batch(first, 0)->0.requests + batch(next, 0)->0.requests,
                err: batch(next, 0)->0.err,
                consumed: first.len() + batch(next, 0)->0.consumed,
            },
        ),
{
    let whole = first + next;
    let k = first.len() as int;
    assert(whole.skip(k) =~= next);
    lemma_batch_behind(whole, k, k);
    lemma_batch_moved(whole, k, k);
    lemma_batch_more(first, next, 0);
}

/// Input that is one request holds that request, unless it has no arguments.
pub proof fn law_one_request(input: Seq<u8>)
    requires
        request_taken(input, 0) matches Some(t) && t.complete && t.next == input.len(),
    ensures
        batch(input, 0) == Some(
            Batch {
                requests: if request_taken(input, 0)->0.args.len() > 0 {
                    seq![request_taken(input, 0)->0.args]
                } else {
                    Seq::empty()
                },
                err: Seq::empty(),
                consumed: input.len() as int,
            },
        ),
{
    law_requests_advance(input, 0);
    let t = request_taken(input, 0)->0;
    let end = batch(input, t.next)->0;
    assert(end.requests =~= Seq::empty());
    assert(listed(t.args) + end.requests =~= listed(t.args));
}

/// What follows the complete requests is left, as long as it can be waited upon;
/// where it cannot be read, neither can the whole.
pub proof fn law_rest_is_left(first: Seq<u8>, rest: Seq<u8>)
    requires
        batch(first, 0) matches Some(a) && a.err.len() == 0 && a.consumed == first.len(),
        request_taken(first + rest, first.len() as int) matches Some(t) ==> !t.complete
            && t.err.len() == 0,
    ensures
        batch(first + rest, 0) == if request_taken(first + rest, first.len() as int) is Some {
            batch(first, 0)
        } else {
            None
        },
{
    lemma_batch_more(first, rest, 0);
    let a = batch(first, 0)->0;
    if request_taken(first + rest, first.len() as int) is Some {
        assert(a.requests + Seq::<Seq<Seq<u8>>>::empty() =~= a.requests);
    }
}

/// The stream may be cut anywhere, as long as what came first does not break the
/// protocol on its own: its requests, and those in what it left together with
/// what came next, are those in the whole.
pub proof fn law_cut_anywhere(first: Seq<u8>, next: Seq<u8>)
    requires
        (first + next).len() <= usize::MAX,
        batch(first, 0) matches Some(b) && b.err.len() == 0,
        batch(first + next, 0) is Some,
    ensures
        ({
            let a = batch(first, 0)->0;
            let b = batch(first.skip(a.consumed) + next, 0);
            &&& b is Some
            &&& batch(first + next, 0) == Some(
                Batch {
                    requests: a.requests + b->0.requests,
                    err: b->0.err,
                    consumed: a.consumed + b->0.consumed,
                },
            )
        }),
{
    let whole = first + next;
    let a = batch(first, 0)->0;
    lemma_batch_more(first, next, 0);
    lemma_batch_moved(whole, a.consumed, a.consumed);
    assert(whole.skip(a.consumed) =~= first.skip(a.consumed) + next);
}

} // verus!
