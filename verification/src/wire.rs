//! What a client writes is what the server reads.

use crate::bytes::{
    crlf, decimal, is_digit, law_decimal_read_back, lemma_decimal_is_digits, parsed_usize,
    BACKSLASH, CR, DOLLAR, DOUBLE_QUOTE, LF, SINGLE_QUOTE, SPACE, STAR,
};
use crate::inline::{escape, led_by, lemma_quoted_end, line, quoted, Line, Quoted};
use crate::multibulk::{bulk_at, bulks_taken, find_crlf, lemma_wrapped_sum, Bulk};
use crate::reply::{array_bytes, bulk_bytes, bulks_bytes, list_bytes};
use crate::request::{batch, law_requests_advance, nothing_taken, request_taken, Batch, Taken};
use vstd::prelude::*;

verus! {

// Requests as client libraries send them.

proof fn lemma_first_line_end(b: Seq<u8>, i: int, lf: int)
    requires
        1 <= i <= lf < b.len(),
        b[lf - 1] == CR,
        b[lf] == LF,
        forall|j: int| i <= j < lf ==> #[trigger] b[j] != LF,
    ensures
        find_crlf(b, i) == Some(lf),
    decreases lf - i,
{
    if i < lf {
        assert(b[i] != LF);
        lemma_first_line_end(b, i + 1, lf);
    }
}

proof fn lemma_no_line_end(b: Seq<u8>, i: int)
    requires
        1 <= i,
        forall|j: int| i <= j < b.len() ==> #[trigger] b[j] != LF,
    ensures
        find_crlf(b, i) is None,
    decreases b.len() - i,
{
    if i < b.len() {
        assert(b[i] != LF);
        lemma_no_line_end(b, i + 1);
    }
}

/// A line with a marker and a number, which `b` holds from `s` on as far as
/// it goes.
proof fn lemma_number_line(b: Seq<u8>, s: int, marker: u8, n: nat)
    requires
        0 <= s,
        marker != LF,
        n <= usize::MAX,
        s + 1 + decimal(n).len() + 2 <= b.len(),
        b.subrange(s, s + 1 + decimal(n).len() + 2) == seq![marker] + decimal(n) + crlf(),
    ensures
        ({
            let lf = s + 1 + decimal(n).len() + 1;
            &&& b[s] == marker
            &&& find_crlf(b, s + 1) == Some(lf)
            &&& s >= 1 ==> find_crlf(b, s) == Some(lf)
            &&& parsed_usize(b.subrange(s + 1, lf - 1)) == Some(n)
        }),
{
    let d = decimal(n);
    let text = seq![marker] + d + crlf();
    let lf = s + 1 + d.len() + 1;
    let part = b.subrange(s, lf + 1);
    lemma_decimal_is_digits(n);
    law_decimal_read_back(n);
    assert forall|j: int| s <= j < lf + 1 implies #[trigger] b[j] == text[j - s] by {
        assert(part[j - s] == b[j]);
    }
    assert forall|j: int| s <= j < lf implies #[trigger] b[j] != LF by {
        if s < j && j < lf - 1 {
            assert(b[j] == d[j - s - 1]);
            assert(is_digit(d[j - s - 1]));
        }
    }
    assert(b[lf - 1] == CR && b[lf] == LF);
    lemma_first_line_end(b, s + 1, lf);
    if s >= 1 {
        lemma_first_line_end(b, s, lf);
    }
    assert(b.subrange(s + 1, lf - 1) =~= d);
}

proof fn lemma_bulk_read_back(front: Seq<u8>, value: Seq<u8>, more: Seq<u8>)
    requires
        front.len() >= 1,
        (front + bulk_bytes(value) + more).len() <= usize::MAX,
    ensures
        bulk_at(front + bulk_bytes(value) + more, front.len() as int) == (Bulk::Whole {
            arg: value,
            next: (front + bulk_bytes(value)).len() as int,
        }),
{
    let b = front + bulk_bytes(value) + more;
    let s = front.len() as int;
    let n = value.len();
    let lf = s + 1 + decimal(n).len() + 1;
    assert(b.subrange(s, lf + 1) =~= seq![DOLLAR] + decimal(n) + crlf());
    lemma_number_line(b, s, DOLLAR, n);
    lemma_wrapped_sum(lf + 1 + n + 2, usize::MAX + 1);
    assert(b.subrange(lf + 1, lf + 1 + n) =~= value);
}

proof fn lemma_bulks_read_back(front: Seq<u8>, list: Seq<Seq<u8>>, more: Seq<u8>)
    requires
        front.len() >= 1,
        (front + bulks_bytes(list) + more).len() <= usize::MAX,
    ensures
        bulks_taken(front + bulks_bytes(list) + more, front.len() as int, list.len()) == Some(
            Taken {
                args: list,
                err: Seq::empty(),
                next: (front + bulks_bytes(list)).len() as int,
                complete: true,
            },
        ),
    decreases list.len(),
{
    let b = front + bulks_bytes(list) + more;
    if list.len() == 0 {
        assert(list =~= Seq::empty());
    } else {
        let rest = list.drop_first();
        let longer = front + bulk_bytes(list[0]);
        assert(b =~= front + bulk_bytes(list[0]) + (bulks_bytes(rest) + more));
        lemma_bulk_read_back(front, list[0], bulks_bytes(rest) + more);
        assert(b =~= longer + bulks_bytes(rest) + more);
        lemma_bulks_read_back(longer, rest, more);
        assert(seq![list[0]] + rest =~= list);
    }
}

proof fn lemma_bulks_longer(list: Seq<Seq<u8>>)
    ensures
        list.len() <= bulks_bytes(list).len(),
    decreases list.len(),
{
    if list.len() > 0 {
        lemma_bulks_longer(list.drop_first());
    }
}

proof fn lemma_request_read_back(front: Seq<u8>, args: Seq<Seq<u8>>, more: Seq<u8>)
    requires
        (front + list_bytes(args) + more).len() <= usize::MAX,
    ensures
        request_taken(front + list_bytes(args) + more, front.len() as int) == Some(
            Taken {
                args,
                err: Seq::empty(),
                next: (front + list_bytes(args)).len() as int,
                complete: true,
            },
        ),
{
    let b = front + list_bytes(args) + more;
    let s = front.len() as int;
    let header = array_bytes(args.len());
    lemma_bulks_longer(args);
    assert(b.subrange(s, s + header.len()) =~= header);
    lemma_number_line(b, s, STAR, args.len());
    assert(b =~= (front + header) + bulks_bytes(args) + more);
    lemma_bulks_read_back(front + header, args, more);
}

/// A request that is written as an array of bulk strings is read back as it was,
/// whatever its arguments hold, and whatever follows it.
pub proof fn law_request_read_back(args: Seq<Seq<u8>>, more: Seq<u8>)
    requires
        (list_bytes(args) + more).len() <= usize::MAX,
    ensures
        request_taken(list_bytes(args) + more, 0) == Some(
            Taken {
                args,
                err: Seq::empty(),
                next: list_bytes(args).len() as int,
                complete: true,
            },
        ),
{
    assert(Seq::empty() + list_bytes(args) + more =~= list_bytes(args) + more);
    assert(Seq::empty() + list_bytes(args) =~= list_bytes(args));
    lemma_request_read_back(Seq::empty(), args, more);
}

/// Requests that are sent one behind the other, without waiting for replies.
pub open spec fn pipeline_bytes(requests: Seq<Seq<Seq<u8>>>) -> Seq<u8>
    decreases requests.len(),
{
    if requests.len() == 0 {
        Seq::empty()
    } else {
        list_bytes(requests[0]) + pipeline_bytes(requests.drop_first())
    }
}

proof fn lemma_pipeline_read_back(front: Seq<u8>, requests: Seq<Seq<Seq<u8>>>)
    requires
        (front + pipeline_bytes(requests)).len() <= usize::MAX,
        forall|i: int| 0 <= i < requests.len() ==> (#[trigger] requests[i]).len() > 0,
    ensures
        batch(front + pipeline_bytes(requests), front.len() as int) == Some(
            Batch {
                requests,
                err: Seq::empty(),
                consumed: (front + pipeline_bytes(requests)).len() as int,
            },
        ),
    decreases requests.len(),
{
    let b = front + pipeline_bytes(requests);
    if requests.len() == 0 {
        assert(requests =~= Seq::empty());
    } else {
        let rest = requests.drop_first();
        let longer = front + list_bytes(requests[0]);
        assert(requests[0].len() > 0);
        assert(b =~= front + list_bytes(requests[0]) + pipeline_bytes(rest));
        lemma_request_read_back(front, requests[0], pipeline_bytes(rest));
        law_requests_advance(b, front.len() as int);
        assert(b =~= longer + pipeline_bytes(rest));
        lemma_pipeline_read_back(longer, rest);
        assert(seq![requests[0]] + rest =~= requests);
    }
}

/// Any number of requests can be sent one behind the other: all of them are read
/// back, in order, and nothing is left.
pub proof fn law_pipeline_read_back(requests: Seq<Seq<Seq<u8>>>)
    requires
        pipeline_bytes(requests).len() <= usize::MAX,
        forall|i: int| 0 <= i < requests.len() ==> (#[trigger] requests[i]).len() > 0,
    ensures
        batch(pipeline_bytes(requests), 0) == Some(
            Batch {
                requests,
                err: Seq::empty(),
                consumed: pipeline_bytes(requests).len() as int,
            },
        ),
{
    assert(Seq::empty() + pipeline_bytes(requests) =~= pipeline_bytes(requests));
    lemma_pipeline_read_back(Seq::empty(), requests);
}

proof fn lemma_bulks_cut(front: Seq<u8>, list: Seq<Seq<u8>>, c: int)
    requires
        front.len() >= 1,
        0 <= c < bulks_bytes(list).len(),
        (front + bulks_bytes(list)).len() <= usize::MAX,
    ensures
        bulks_taken(
            front + bulks_bytes(list).take(c),
            front.len() as int,
            list.len(),
        ) matches Some(t) && !t.complete && t.err == Seq::<char>::empty(),
    decreases list.len(),
{
    let b = front + bulks_bytes(list).take(c);
    let s = front.len() as int;
    let bulk = bulk_bytes(list[0]);
    let rest = list.drop_first();
    let n = list[0].len();
    if c >= bulk.len() {
        let longer = front + bulk;
        let left = c - bulk.len();
        assert(b =~= front + bulk + bulks_bytes(rest).take(left));
        lemma_bulk_read_back(front, list[0], bulks_bytes(rest).take(left));
        lemma_bulks_cut(longer, rest, left);
    } else {
        let line = seq![DOLLAR] + decimal(n) + crlf();
        assert(b =~= front + bulk.take(c));
        if c >= line.len() {
            let lf = s + line.len() - 1;
            assert(b.subrange(s, lf + 1) =~= line);
            lemma_number_line(b, s, DOLLAR, n);
            lemma_wrapped_sum(lf + 1 + n + 2, usize::MAX + 1);
        } else {
            lemma_decimal_is_digits(n);
            assert forall|j: int| s <= j < b.len() implies #[trigger] b[j] != LF by {
                assert(b[j] == line[j - s]);
                if s < j && j - s - 1 < decimal(n).len() {
                    assert(is_digit(decimal(n)[j - s - 1]));
                }
            }
            lemma_no_line_end(b, s);
        }
    }
}

proof fn lemma_request_front(front: Seq<u8>, args: Seq<Seq<u8>>, k: int)
    requires
        0 <= k < list_bytes(args).len(),
        (front + list_bytes(args)).len() <= usize::MAX,
    ensures
        request_taken(front + list_bytes(args).take(k), front.len() as int) matches Some(t)
            && !t.complete && t.err == Seq::<char>::empty(),
{
    let b = front + list_bytes(args).take(k);
    let s = front.len() as int;
    let header = array_bytes(args.len());
    lemma_bulks_longer(args);
    lemma_decimal_is_digits(args.len());
    if 0 < k < header.len() {
        assert(b =~= front + header.take(k));
        assert forall|j: int| s + 1 <= j < b.len() implies #[trigger] b[j] != LF by {
            assert(b[j] == header[j - s]);
            if j - s - 1 < decimal(args.len()).len() {
                assert(is_digit(decimal(args.len())[j - s - 1]));
            }
        }
        lemma_no_line_end(b, s + 1);
    } else if k >= header.len() {
        assert(b =~= (front + header) + bulks_bytes(args).take(k - header.len()));
        assert(b.subrange(s, s + header.len()) =~= header);
        lemma_number_line(b, s, STAR, args.len());
        lemma_bulks_cut(front + header, args, k - header.len());
    }
}

/// The front of a request, as long as it is not the whole, is waited upon.
pub proof fn law_request_front(args: Seq<Seq<u8>>, k: int)
    requires
        0 <= k < list_bytes(args).len() <= usize::MAX,
    ensures
        request_taken(list_bytes(args).take(k), 0) matches Some(t) && !t.complete && t.err
            == Seq::<char>::empty(),
{
    assert(Seq::empty() + list_bytes(args).take(k) =~= list_bytes(args).take(k));
    assert(Seq::empty() + list_bytes(args) =~= list_bytes(args));
    lemma_request_front(Seq::empty(), args, k);
}

proof fn lemma_pipeline_front(front: Seq<u8>, requests: Seq<Seq<Seq<u8>>>, k: int)
    requires
        0 <= k <= pipeline_bytes(requests).len(),
        (front + pipeline_bytes(requests)).len() <= usize::MAX,
    ensures
        batch(front + pipeline_bytes(requests).take(k), front.len() as int) matches Some(b)
            && b.err == Seq::<char>::empty(),
    decreases requests.len(),
{
    let b = front + pipeline_bytes(requests).take(k);
    if requests.len() > 0 {
        let first = list_bytes(requests[0]);
        let rest = requests.drop_first();
        if k < first.len() {
            assert(b =~= front + first.take(k));
            assert((front + first).len() <= usize::MAX);
            lemma_request_front(front, requests[0], k);
        } else {
            let left = k - first.len();
            let longer = front + first;
            assert(b =~= front + first + pipeline_bytes(rest).take(left));
            lemma_request_read_back(front, requests[0], pipeline_bytes(rest).take(left));
            law_requests_advance(b, front.len() as int);
            assert((longer + pipeline_bytes(rest)).len() <= usize::MAX);
            lemma_pipeline_front(longer, rest, left);
        }
    }
}

/// Requests that are sent one behind the other may be cut anywhere: no front of
/// them breaks the protocol.
pub proof fn law_pipeline_front(requests: Seq<Seq<Seq<u8>>>, k: int)
    requires
        0 <= k <= pipeline_bytes(requests).len() <= usize::MAX,
    ensures
        batch(pipeline_bytes(requests).take(k), 0) matches Some(b) && b.err
            == Seq::<char>::empty(),
{
    let all = pipeline_bytes(requests);
    assert(Seq::empty() + all.take(k) =~= all.take(k));
    assert(Seq::empty() + all =~= all);
    lemma_pipeline_front(Seq::empty(), requests, k);
}

// Requests as they are typed.

/// A word that needs no quotes.
pub open spec fn is_word(w: Seq<u8>) -> bool {
    &&& w.len() > 0
    &&& forall|i: int|
        0 <= i < w.len() ==> #[trigger] w[i] != SPACE && w[i] != LF && w[i] != DOUBLE_QUOTE && w[i]
            != SINGLE_QUOTE
}

/// A line of words, with a space between each two.
pub open spec fn words_bytes(words: Seq<Seq<u8>>) -> Seq<u8>
    decreases words.len(),
{
    if words.len() == 0 {
        crlf()
    } else if words.len() == 1 {
        words[0] + crlf()
    } else {
        words[0] + seq![SPACE] + words_bytes(words.drop_first())
    }
}

/// The bytes of an argument between double quotes.
pub open spec fn escaped(arg: Seq<u8>) -> Seq<u8>
    decreases arg.len(),
{
    if arg.len() == 0 {
        Seq::empty()
    } else if arg[0] == LF || arg[0] == BACKSLASH || arg[0] == DOUBLE_QUOTE {
        seq![BACKSLASH, arg[0]] + escaped(arg.drop_first())
    } else {
        seq![arg[0]] + escaped(arg.drop_first())
    }
}

/// An argument in double quotes.
pub open spec fn quoted_bytes(arg: Seq<u8>) -> Seq<u8> {
    seq![DOUBLE_QUOTE] + escaped(arg) + seq![DOUBLE_QUOTE]
}

/// A line of arguments in double quotes.
pub open spec fn quoted_line_bytes(args: Seq<Seq<u8>>) -> Seq<u8> {
    words_bytes(Seq::new(args.len(), |i: int| quoted_bytes(args[i])))
}

proof fn lemma_over_word(p: Seq<u8>, i: int, end: int, start: int)
    requires
        0 <= start <= i <= end <= p.len(),
        forall|j: int|
            i <= j < end ==> #[trigger] p[j] != SPACE && p[j] != LF && p[j] != DOUBLE_QUOTE && p[j]
                != SINGLE_QUOTE,
    ensures
        line(p, i, start) == line(p, end, start),
    decreases end - i,
{
    if i < end {
        assert(p[i] != SPACE);
        lemma_over_word(p, i + 1, end, start);
    }
}

proof fn lemma_words_read_back(front: Seq<u8>, words: Seq<Seq<u8>>, more: Seq<u8>)
    requires
        words.len() > 0,
        forall|i: int| 0 <= i < words.len() ==> is_word(#[trigger] words[i]),
    ensures
        line(
            front + words_bytes(words) + more,
            front.len() as int,
            front.len() as int,
        ) == (Line::Complete { args: words, next: (front + words_bytes(words)).len() as int }),
    decreases words.len(),
{
    let p = front + words_bytes(words) + more;
    let s = front.len() as int;
    let w = words[0];
    let e = s + w.len();
    assert(is_word(w));
    assert forall|j: int| s <= j < e implies #[trigger] p[j] != SPACE && p[j] != LF && p[j]
        != DOUBLE_QUOTE && p[j] != SINGLE_QUOTE by {
        assert(p[j] == w[j - s]);
    }
    lemma_over_word(p, s, e, s);
    assert(p.subrange(s, e) =~= w);
    if words.len() == 1 {
        assert(p[e] == CR && p[e + 1] == LF);
        assert(line(p, e, s) == line(p, e + 1, s));
        assert(words =~= seq![w]);
    } else {
        let rest = words.drop_first();
        let longer = front + w + seq![SPACE];
        assert(p[e] == SPACE);
        assert(p =~= longer + words_bytes(rest) + more);
        lemma_words_read_back(longer, rest, more);
        assert(seq![w] + rest =~= words);
    }
}

/// A line of words is read back as the words, whatever follows it.
pub proof fn law_words_read_back(words: Seq<Seq<u8>>, more: Seq<u8>)
    requires
        words.len() > 0,
        forall|i: int| 0 <= i < words.len() ==> is_word(#[trigger] words[i]),
        words[0][0] != STAR,
    ensures
        request_taken(words_bytes(words) + more, 0) == Some(
            Taken {
                args: words,
                err: Seq::empty(),
                next: words_bytes(words).len() as int,
                complete: true,
            },
        ),
{
    let p = words_bytes(words) + more;
    assert(is_word(words[0]));
    assert(p[0] == words[0][0]);
    assert(Seq::empty() + words_bytes(words) + more =~= p);
    assert(Seq::empty() + words_bytes(words) =~= words_bytes(words));
    lemma_words_read_back(Seq::empty(), words, more);
}

proof fn lemma_escaped_read_back(front: Seq<u8>, arg: Seq<u8>, more: Seq<u8>)
    ensures
        quoted(
            front + escaped(arg) + seq![DOUBLE_QUOTE] + more,
            front.len() as int,
            DOUBLE_QUOTE,
        ) == (Quoted::Closed { arg, next: (front + escaped(arg)).len() + 1int }),
    decreases arg.len(),
{
    let p = front + escaped(arg) + seq![DOUBLE_QUOTE] + more;
    let i = front.len() as int;
    if arg.len() == 0 {
        assert(p[i] == DOUBLE_QUOTE);
        assert(arg =~= Seq::empty());
    } else {
        let b = arg[0];
        let rest = arg.drop_first();
        assert(seq![b] + rest =~= arg);
        if b == LF || b == BACKSLASH || b == DOUBLE_QUOTE {
            let longer = front + seq![BACKSLASH, b];
            assert(p =~= longer + escaped(rest) + seq![DOUBLE_QUOTE] + more);
            lemma_escaped_read_back(longer, rest, more);
            assert(p[i] == BACKSLASH && p[i + 1] == b);
            assert(escape(p, i + 1) == (b, 1int));
        } else {
            let longer = front + seq![b];
            assert(p =~= longer + escaped(rest) + seq![DOUBLE_QUOTE] + more);
            lemma_escaped_read_back(longer, rest, more);
            assert(p[i] == b);
        }
    }
}

proof fn lemma_quoted_line_read_back(front: Seq<u8>, args: Seq<Seq<u8>>, more: Seq<u8>)
    requires
        args.len() > 0,
    ensures
        line(
            front + quoted_line_bytes(args) + more,
            front.len() as int,
            front.len() as int,
        ) == (Line::Complete { args, next: (front + quoted_line_bytes(args)).len() as int }),
    decreases args.len(),
{
    let shown = Seq::new(args.len(), |i: int| quoted_bytes(args[i]));
    let p = front + quoted_line_bytes(args) + more;
    let s = front.len() as int;
    let arg = args[0];
    let tail = words_bytes(shown).skip(shown[0].len() as int);
    let opened = front + seq![DOUBLE_QUOTE];
    let e = s + quoted_bytes(arg).len();
    assert(words_bytes(shown) =~= shown[0] + tail);
    assert(p =~= opened + escaped(arg) + seq![DOUBLE_QUOTE] + (tail + more));
    lemma_escaped_read_back(opened, arg, tail + more);
    assert(p[s] == DOUBLE_QUOTE);
    assert(line(p, s, s) == led_by(seq![arg], line(p, e, e)));
    if args.len() == 1 {
        assert(p[e] == CR && p[e + 1] == LF);
        assert(line(p, e, e) == line(p, e + 1, e));
        assert(args =~= seq![arg]);
    } else {
        let rest = args.drop_first();
        let longer = front + quoted_bytes(arg) + seq![SPACE];
        assert(shown.drop_first() =~= Seq::new(rest.len(), |i: int| quoted_bytes(rest[i])));
        assert(p[e] == SPACE);
        assert(p =~= longer + quoted_line_bytes(rest) + more);
        lemma_quoted_line_read_back(longer, rest, more);
        assert(line(p, e, e) =~= line(p, e + 1, e + 1));
        assert(seq![arg] + rest =~= args);
    }
}

/// Any arguments at all can be typed in double quotes: they are read back as they
/// were, whatever follows the line.
pub proof fn law_quoted_read_back(args: Seq<Seq<u8>>, more: Seq<u8>)
    requires
        args.len() > 0,
    ensures
        request_taken(quoted_line_bytes(args) + more, 0) == Some(
            Taken {
                args,
                err: Seq::empty(),
                next: quoted_line_bytes(args).len() as int,
                complete: true,
            },
        ),
{
    let p = quoted_line_bytes(args) + more;
    let shown = Seq::new(args.len(), |i: int| quoted_bytes(args[i]));
    assert(p[0] == shown[0][0]);
    assert(Seq::empty() + quoted_line_bytes(args) + more =~= p);
    assert(Seq::empty() + quoted_line_bytes(args) =~= quoted_line_bytes(args));
    lemma_quoted_line_read_back(Seq::empty(), args, more);
}

/// A line that has not ended is waited upon. It can be read, unless a backslash
/// ends it.
pub proof fn law_line_front(p: Seq<u8>)
    requires
        p.len() > 0,
        p[0] != STAR,
        forall|i: int| 0 <= i < p.len() ==> #[trigger] p[i] != LF,
    ensures
        request_taken(p, 0) matches Some(t) ==> t == nothing_taken(0),
        request_taken(p, 0) is None ==> p.last() == BACKSLASH,
{
    lemma_line_open(p, 0, 0);
}

proof fn lemma_quoted_open(p: Seq<u8>, i: int, quote: u8)
    requires
        0 <= i,
        forall|j: int| 0 <= j < p.len() ==> #[trigger] p[j] != LF,
    ensures
        quoted(p, i, quote) !is Unbalanced,
        quoted(p, i, quote) is Dangling ==> p.last() == BACKSLASH,
    decreases p.len() - i,
{
    if i < p.len() {
        assert(p[i] != LF);
        if p[i] == BACKSLASH {
            if i + 1 < p.len() {
                lemma_quoted_open(p, i + 1 + escape(p, i + 1).1, quote);
            }
        } else if p[i] != quote {
            lemma_quoted_open(p, i + 1, quote);
        }
    }
}

proof fn lemma_line_open(p: Seq<u8>, i: int, start: int)
    requires
        0 <= i,
        forall|j: int| 0 <= j < p.len() ==> #[trigger] p[j] != LF,
    ensures
        line(p, i, start) is Partial || line(p, i, start) is Dangling,
        line(p, i, start) is Dangling ==> p.last() == BACKSLASH,
    decreases p.len() - i,
{
    if i < p.len() {
        assert(p[i] != LF);
        if p[i] == SPACE {
            lemma_line_open(p, i + 1, i + 1);
        } else if p[i] == DOUBLE_QUOTE || p[i] == SINGLE_QUOTE {
            lemma_quoted_open(p, i + 1, p[i]);
            lemma_quoted_end(p, i + 1, p[i]);
            if let Quoted::Closed { next, .. } = quoted(p, i + 1, p[i]) {
                lemma_line_open(p, next, next);
            }
        } else {
            lemma_line_open(p, i + 1, start);
        }
    }
}

} // verus!
