//! What an array of bulk strings means, in whatever way its lengths are written.

use crate::bytes::{law_no_other_number, parsed_usize};
use crate::multibulk::{
    after_args, bulk_at, bulks_taken, expected_dollar, find_crlf, lemma_dollar_line,
    lemma_find_crlf, lemma_wrapped_sum, multibulk_taken, protocol_error, Bulk,
};
use crate::request::{request_taken, Taken};
use vstd::prelude::*;

verus! {

/// A bulk string as it is sent: its length, its bytes, and two more bytes.
pub struct Item {
    pub length: Seq<u8>,
    pub value: Seq<u8>,
    pub end: Seq<u8>,
}

pub open spec fn item_text(item: Item) -> Seq<u8> {
    seq![36u8] + item.length + seq![13u8, 10u8] + item.value + item.end
}

pub open spec fn items_text(items: Seq<Item>) -> Seq<u8>
    decreases items.len(),
{
    if items.len() == 0 {
        Seq::empty()
    } else {
        item_text(items[0]) + items_text(items.drop_first())
    }
}

/// Whether each length is that of the bytes behind it.
pub open spec fn items_ok(items: Seq<Item>) -> bool {
    forall|i: int|
        0 <= i < items.len() ==> {
            &&& parsed_usize((#[trigger] items[i]).length) == Some(items[i].value.len())
            &&& items[i].end.len() == 2
        }
}

/// The arguments that were sent.
pub open spec fn item_values(items: Seq<Item>) -> Seq<Seq<u8>> {
    Seq::new(items.len(), |i: int| items[i].value)
}

/// A line, without the CR LF that ends it.
pub open spec fn one_line(s: Seq<u8>) -> bool {
    forall|i: int, j: int|
        0 <= i && j == i + 1 && j < s.len() ==> !(#[trigger] s[i] == 13 && #[trigger] s[j] == 10)
}

/// The front of an array of which `items` have come in.
pub open spec fn begun(front: Seq<u8>, count: Seq<u8>, items: Seq<Item>) -> Seq<u8> {
    front + seq![42u8] + count + seq![13u8, 10u8] + items_text(items)
}

proof fn lemma_line_found(b: Seq<u8>, i: int, lf: int)
    requires
        1 <= i <= lf < b.len(),
        b[lf - 1] == 13,
        b[lf] == 10,
        forall|j: int, k: int|
            i <= k < lf && j == k - 1 ==> !(#[trigger] b[j] == 13 && #[trigger] b[k] == 10),
    ensures
        find_crlf(b, i) == Some(lf),
    decreases lf - i,
{
    if i < lf {
        assert(!(b[i - 1] == 13 && b[i] == 10));
        lemma_line_found(b, i + 1, lf);
    }
}

proof fn lemma_no_line_found(b: Seq<u8>, i: int)
    requires
        1 <= i,
        forall|j: int, k: int|
            i <= k < b.len() && j == k - 1 ==> !(#[trigger] b[j] == 13 && #[trigger] b[k] == 10),
    ensures
        find_crlf(b, i) is None,
    decreases b.len() - i,
{
    if i < b.len() {
        assert(!(b[i - 1] == 13 && b[i] == 10));
        lemma_no_line_found(b, i + 1);
    }
}

/// The line behind a marker ends where it ends.
proof fn lemma_marked_line(front: Seq<u8>, line: Seq<u8>, more: Seq<u8>)
    requires
        line.len() > 0,
        one_line(line),
    ensures
        ({
            let b = front + line + seq![13u8, 10u8] + more;
            let lf = front.len() + line.len() + 1;
            &&& find_crlf(b, front.len() + 1int) == Some(lf as int)
            &&& front.len() > 0 && !(front.last() == 13 && line[0] == 10) ==> find_crlf(
                b,
                front.len() as int,
            ) == Some(lf as int)
        }),
{
    let b = front + line + seq![13u8, 10u8] + more;
    let s = front.len() as int;
    let lf = s + line.len() + 1;
    assert forall|j: int, k: int| s + 1 <= k < lf && j == k - 1 implies !(#[trigger] b[j] == 13
        && #[trigger] b[k] == 10) by {
        if k < lf - 1 {
            assert(b[j] == line[j - s] && b[k] == line[k - s]);
        } else {
            assert(b[k] == 13);
        }
    }
    assert(b[lf - 1] == 13 && b[lf] == 10);
    lemma_line_found(b, s + 1, lf);
    if s > 0 && !(front.last() == 13 && line[0] == 10) {
        assert(b[s - 1] == front.last() && b[s] == line[0]);
    }
}

/// A number is on one line.
proof fn lemma_number_on_line(marker: u8, number: Seq<u8>)
    requires
        marker != 10,
        parsed_usize(number) is Some,
    ensures
        one_line(seq![marker] + number),
{
    law_no_other_number(number);
    let s = seq![marker] + number;
    assert forall|i: int, j: int| 0 <= i && j == i + 1 && j < s.len() implies !(#[trigger] s[i]
        == 13 && #[trigger] s[j] == 10) by {
        assert(s[j] == number[j - 1]);
    }
}

/// The header of an array leads to its bulk strings.
proof fn lemma_header_read(front: Seq<u8>, count: Seq<u8>, more: Seq<u8>)
    requires
        parsed_usize(count) is Some,
    ensures
        ({
            let head = front + seq![42u8] + count + seq![13u8, 10u8];
            request_taken(head + more, front.len() as int) == bulks_taken(
                head + more,
                head.len() as int,
                parsed_usize(count)->0,
            )
        }),
{
    let head = front + seq![42u8] + count + seq![13u8, 10u8];
    let b = head + more;
    let s = front.len() as int;
    let line = seq![42u8] + count;
    lemma_number_on_line(42, count);
    lemma_marked_line(front, line, more);
    assert(front + line + seq![13u8, 10u8] + more =~= b);
    law_no_other_number(count);
    let lf = s + line.len() + 1;
    assert(b[s] == 42);
    assert(b.subrange(s + 1, lf - 1) =~= count);
}

/// A length line is read where it stands.
proof fn lemma_length_read(front: Seq<u8>, length: Seq<u8>, more: Seq<u8>)
    requires
        front.len() > 0,
        one_line(seq![36u8] + length),
    ensures
        ({
            let b = front + seq![36u8] + length + seq![13u8, 10u8] + more;
            let lf = front.len() + length.len() + 2;
            &&& b[front.len() as int] == 36
            &&& find_crlf(b, front.len() as int) == Some(lf as int)
            &&& b.subrange(front.len() + 1int, lf - 1) == length
        }),
{
    let b = front + seq![36u8] + length + seq![13u8, 10u8] + more;
    let line = seq![36u8] + length;
    lemma_marked_line(front, line, more);
    assert(front + line + seq![13u8, 10u8] + more =~= b);
    assert(b.subrange(front.len() + 1int, front.len() + length.len() + 1int) =~= length);
}

proof fn lemma_items_rest(items: Seq<Item>)
    requires
        items_ok(items),
        items.len() > 0,
    ensures
        items_ok(items.drop_first()),
        item_values(items) == seq![items[0].value] + item_values(items.drop_first()),
{
    let rest = items.drop_first();
    assert forall|i: int| 0 <= i < rest.len() implies {
        &&& parsed_usize((#[trigger] rest[i]).length) == Some(rest[i].value.len())
        &&& rest[i].end.len() == 2
    } by {
        assert(items[i + 1] == rest[i]);
    }
    assert(item_values(items) =~= seq![items[0].value] + item_values(rest));
}

proof fn lemma_item_read(front: Seq<u8>, item: Item, more: Seq<u8>)
    requires
        front.len() > 0,
        parsed_usize(item.length) == Some(item.value.len()),
        item.end.len() == 2,
        (front + item_text(item) + more).len() <= usize::MAX,
    ensures
        bulk_at(front + item_text(item) + more, front.len() as int) == (Bulk::Whole {
            arg: item.value,
            next: (front + item_text(item)).len() as int,
        }),
{
    let b = front + item_text(item) + more;
    let behind = item.value + item.end + more;
    lemma_number_on_line(36, item.length);
    lemma_length_read(front, item.length, behind);
    assert(front + seq![36u8] + item.length + seq![13u8, 10u8] + behind =~= b);
    let lf = front.len() + item.length.len() + 2int;
    let len = item.value.len();
    lemma_wrapped_sum(lf + 1 + len + 2, usize::MAX + 1);
    assert(b.subrange(lf + 1, lf + 1 + len) =~= item.value);
}

/// The text of bulk strings, with the first one set apart.
proof fn lemma_first_item(front: Seq<u8>, items: Seq<Item>, more: Seq<u8>)
    requires
        items.len() > 0,
    ensures
        ({
            let text = item_text(items[0]);
            let rest = items_text(items.drop_first());
            &&& (front + text) + rest + more == front + items_text(items) + more
            &&& front + text + (rest + more) == front + items_text(items) + more
            &&& (front + text + rest).len() == (front + items_text(items)).len()
        }),
{
    let text = item_text(items[0]);
    let rest = items_text(items.drop_first());
    assert((front + text) + rest + more =~= front + items_text(items) + more);
    assert(front + text + (rest + more) =~= front + items_text(items) + more);
}

/// Bulk strings that have come in are read one by one.
proof fn lemma_items_read(front: Seq<u8>, items: Seq<Item>, more: Seq<u8>, n: nat)
    requires
        front.len() > 0,
        items_ok(items),
        items.len() <= n,
        (front + items_text(items) + more).len() <= usize::MAX,
    ensures
        ({
            let b = front + items_text(items) + more;
            bulks_taken(b, front.len() as int, n) == after_args(
                item_values(items),
                bulks_taken(b, (front + items_text(items)).len() as int, (n - items.len()) as nat),
            )
        }),
    decreases items.len(),
{
    let b = front + items_text(items) + more;
    let s = front.len() as int;
    let end = (front + items_text(items)).len() as int;
    let last = bulks_taken(b, end, (n - items.len()) as nat);
    if items.len() == 0 {
        assert(item_values(items) =~= Seq::empty());
        assert(after_args(Seq::empty(), last) =~= last);
    } else {
        let item = items[0];
        let rest = items.drop_first();
        let longer = front + item_text(item);
        lemma_items_rest(items);
        lemma_first_item(front, items, more);
        lemma_items_read(longer, rest, more, (n - 1) as nat);
        assert(parsed_usize(items[0].length) == Some(item.value.len()));
        lemma_item_read(front, item, items_text(rest) + more);
        assert(bulks_taken(b, s, n) == after_args(
            seq![item.value],
            bulks_taken(b, longer.len() as int, (n - 1) as nat),
        ));
        assert(after_args(seq![item.value], after_args(item_values(rest), last)) =~= after_args(
            item_values(items),
            last,
        ));
    }
}

/// What comes of an array of which `items` have come in depends on what follows
/// them.
proof fn lemma_begun_read(front: Seq<u8>, count: Seq<u8>, items: Seq<Item>, more: Seq<u8>)
    requires
        items_ok(items),
        parsed_usize(count) matches Some(n) && items.len() <= n,
        (begun(front, count, items) + more).len() <= usize::MAX,
    ensures
        ({
            let b = begun(front, count, items) + more;
            request_taken(b, front.len() as int) == after_args(
                item_values(items),
                bulks_taken(
                    b,
                    begun(front, count, items).len() as int,
                    (parsed_usize(count)->0 - items.len()) as nat,
                ),
            )
        }),
{
    let head = front + seq![42u8] + count + seq![13u8, 10u8];
    let b = begun(front, count, items) + more;
    lemma_header_read(front, count, items_text(items) + more);
    assert(head + (items_text(items) + more) =~= b);
    lemma_items_read(head, items, more, parsed_usize(count)->0);
    assert(head + items_text(items) + more =~= b);
}

/// An array of as many bulk strings as it says is read as their bytes, wherever
/// it starts and whatever follows it. The two bytes behind each bulk string are
/// not looked at.
pub proof fn law_array_read(front: Seq<u8>, count: Seq<u8>, items: Seq<Item>, more: Seq<u8>)
    requires
        items_ok(items),
        parsed_usize(count) == Some(items.len()),
        (begun(front, count, items) + more).len() <= usize::MAX,
    ensures
        request_taken(begun(front, count, items) + more, front.len() as int) == Some(
            Taken {
                args: item_values(items),
                err: Seq::empty(),
                next: begun(front, count, items).len() as int,
                complete: true,
            },
        ),
{
    lemma_begun_read(front, count, items, more);
    assert(item_values(items) + Seq::<Seq<u8>>::empty() =~= item_values(items));
}

/// An array whose first line has not ended is waited upon.
pub proof fn law_array_opened(front: Seq<u8>, count: Seq<u8>)
    requires
        one_line(seq![42u8] + count),
    ensures
        request_taken(front + seq![42u8] + count, front.len() as int) == Some(
            Taken {
                args: Seq::empty(),
                err: Seq::empty(),
                next: (front + seq![42u8] + count).len() as int,
                complete: false,
            },
        ),
{
    let b = front + seq![42u8] + count;
    let s = front.len() as int;
    let line = seq![42u8] + count;
    assert(b[s] == 42);
    assert forall|j: int, k: int| s + 1 <= k < b.len() && j == k - 1 implies !(#[trigger] b[j]
        == 13 && #[trigger] b[k] == 10) by {
        assert(b[j] == line[j - s] && b[k] == line[k - s]);
    }
    lemma_no_line_found(b, s + 1);
}

/// An array that lacks bulk strings is waited upon, with the arguments that have
/// come in, as long as the line with the next length has not ended.
pub proof fn law_array_line_not_ended(
    front: Seq<u8>,
    count: Seq<u8>,
    items: Seq<Item>,
    line: Seq<u8>,
)
    requires
        items_ok(items),
        parsed_usize(count) matches Some(n) && items.len() < n,
        one_line(line),
        line.len() > 0 ==> line[0] != 10 || begun(front, count, items).last() != 13,
        (begun(front, count, items) + line).len() <= usize::MAX,
    ensures
        request_taken(begun(front, count, items) + line, front.len() as int) == Some(
            Taken {
                args: item_values(items),
                err: Seq::empty(),
                next: (begun(front, count, items) + line).len() as int,
                complete: false,
            },
        ),
{
    let head = begun(front, count, items);
    let at = head.len() as int;
    let b = head + line;
    assert(item_values(items) + Seq::<Seq<u8>>::empty() =~= item_values(items));
    lemma_begun_read(front, count, items, line);
    assert forall|j: int, k: int| at <= k < b.len() && j == k - 1 implies !(#[trigger] b[j] == 13
        && #[trigger] b[k] == 10) by {
        if k == at {
            assert(b[j] == head.last() && b[k] == line[0]);
        } else {
            assert(b[j] == line[j - at] && b[k] == line[k - at]);
        }
    }
    lemma_no_line_found(b, at);
}

/// A bulk string whose bytes have not all come in.
proof fn lemma_bulk_not_ended(head: Seq<u8>, length: Seq<u8>, part: Seq<u8>, n: nat)
    requires
        head.len() > 0,
        n > 0,
        parsed_usize(length) is Some,
    ensures
        ({
            let lines = head + seq![36u8] + length + seq![13u8, 10u8];
            let b = lines + part;
            let sum = lines.len() + parsed_usize(length)->0 + 2int;
            &&& b.len() < sum % (usize::MAX + 1) ==> bulks_taken(b, head.len() as int, n) == Some(
                Taken {
                    args: Seq::empty(),
                    err: Seq::empty(),
                    next: lines.len() - 1,
                    complete: false,
                },
            )
            &&& b.len() >= sum % (usize::MAX + 1) && sum > usize::MAX ==> bulks_taken(
                b,
                head.len() as int,
                n,
            ) is None
        }),
{
    lemma_number_on_line(36, length);
    lemma_length_read(head, length, part);
}

proof fn lemma_begun_length(
    front: Seq<u8>,
    count: Seq<u8>,
    items: Seq<Item>,
    length: Seq<u8>,
    part: Seq<u8>,
)
    requires
        items_ok(items),
        parsed_usize(count) matches Some(n) && items.len() < n,
        parsed_usize(length) is Some,
        (begun(front, count, items) + seq![36u8] + length + seq![13u8, 10u8] + part).len()
            <= usize::MAX,
    ensures
        ({
            let lines = begun(front, count, items) + seq![36u8] + length + seq![13u8, 10u8];
            let b = lines + part;
            let sum = lines.len() + parsed_usize(length)->0 + 2int;
            &&& b.len() < sum % (usize::MAX + 1) ==> request_taken(b, front.len() as int) == Some(
                Taken {
                    args: item_values(items),
                    err: Seq::empty(),
                    next: lines.len() - 1,
                    complete: false,
                },
            )
            &&& b.len() >= sum % (usize::MAX + 1) && sum > usize::MAX ==> request_taken(
                b,
                front.len() as int,
            ) is None
        }),
{
    let head = begun(front, count, items);
    let tail = seq![36u8] + length + seq![13u8, 10u8] + part;
    assert(head + seq![36u8] + length + seq![13u8, 10u8] + part =~= head + tail);
    lemma_begun_read(front, count, items, tail);
    lemma_bulk_not_ended(head, length, part, (parsed_usize(count)->0 - items.len()) as nat);
    assert(item_values(items) + Seq::<Seq<u8>>::empty() =~= item_values(items));
}

/// An array that lacks bulk strings is waited upon, with the arguments that have
/// come in, as long as the bytes of the next one are fewer than its length says.
pub proof fn law_array_bytes_not_ended(
    front: Seq<u8>,
    count: Seq<u8>,
    items: Seq<Item>,
    length: Seq<u8>,
    part: Seq<u8>,
)
    requires
        items_ok(items),
        parsed_usize(count) matches Some(n) && items.len() < n,
        parsed_usize(length) matches Some(m) && part.len() < m + 2
            && begun(front, count, items).len() + length.len() + 3 + m + 2 <= usize::MAX,
    ensures
        request_taken(
            begun(front, count, items) + seq![36u8] + length + seq![13u8, 10u8] + part,
            front.len() as int,
        ) == Some(
            Taken {
                args: item_values(items),
                err: Seq::empty(),
                next: begun(front, count, items).len() + length.len() + 2int,
                complete: false,
            },
        ),
{
    let lines = begun(front, count, items) + seq![36u8] + length + seq![13u8, 10u8];
    lemma_begun_length(front, count, items, length, part);
    lemma_wrapped_sum(lines.len() + parsed_usize(length)->0 + 2int, usize::MAX + 1);
}

/// A length that no input can hold cannot be read. It is waited upon only where
/// the input ends with its line and the length is the greatest number.
pub proof fn law_array_too_long(
    front: Seq<u8>,
    count: Seq<u8>,
    items: Seq<Item>,
    length: Seq<u8>,
    part: Seq<u8>,
)
    requires
        items_ok(items),
        parsed_usize(count) matches Some(n) && items.len() < n,
        parsed_usize(length) matches Some(m) && begun(front, count, items).len() + length.len() + 3
            + m + 2 > usize::MAX,
        (begun(front, count, items) + seq![36u8] + length + seq![13u8, 10u8] + part).len()
            < usize::MAX,
    ensures
        request_taken(
            begun(front, count, items) + seq![36u8] + length + seq![13u8, 10u8] + part,
            front.len() as int,
        ) == if part.len() == 0 && parsed_usize(length)->0 == usize::MAX {
            Some(
                Taken {
                    args: item_values(items),
                    err: Seq::empty(),
                    next: begun(front, count, items).len() + length.len() + 2int,
                    complete: false,
                },
            )
        } else {
            None
        },
{
    let lines = begun(front, count, items) + seq![36u8] + length + seq![13u8, 10u8];
    lemma_begun_length(front, count, items, length, part);
    lemma_wrapped_sum(lines.len() + parsed_usize(length)->0 + 2int, usize::MAX + 1);
}

/// An array whose first line holds no number is refused.
pub proof fn law_array_count_refused(front: Seq<u8>, count: Seq<u8>, more: Seq<u8>)
    requires
        one_line(seq![42u8] + count),
        parsed_usize(count) is None,
    ensures
        request_taken(
            front + seq![42u8] + count + seq![13u8, 10u8] + more,
            front.len() as int,
        ) == Some(
            Taken {
                args: Seq::empty(),
                err: "ERR Protocol error: invalid multibulk length"@,
                next: front.len() + count.len() + 2int,
                complete: false,
            },
        ),
{
    let b = front + seq![42u8] + count + seq![13u8, 10u8] + more;
    let s = front.len() as int;
    let line = seq![42u8] + count;
    lemma_marked_line(front, line, more);
    assert(front + line + seq![13u8, 10u8] + more =~= b);
    let lf = s + line.len() + 1;
    assert(b[s] == 42);
    assert(b.subrange(s + 1, lf - 1) =~= count);
    reveal_strlit("ERR Protocol error: invalid multibulk length");
    reveal_strlit("ERR Protocol error: ");
    reveal_strlit("invalid multibulk length");
    assert(protocol_error("invalid multibulk length"@)
        =~= "ERR Protocol error: invalid multibulk length"@);
}

/// A line that stands where a bulk string is due is refused if it does not start
/// with `$`, or if no number follows. The error shows the byte at its start, or a
/// space in place of a control character.
pub proof fn law_array_item_refused(
    front: Seq<u8>,
    count: Seq<u8>,
    items: Seq<Item>,
    line: Seq<u8>,
    more: Seq<u8>,
)
    requires
        items_ok(items),
        parsed_usize(count) matches Some(n) && items.len() < n,
        line.len() > 0,
        line[0] != 10 || begun(front, count, items).last() != 13,
        one_line(line),
        line[0] == 36 ==> parsed_usize(line.skip(1)) is None,
        (begun(front, count, items) + line + seq![13u8, 10u8] + more).len() <= usize::MAX,
    ensures
        request_taken(
            begun(front, count, items) + line + seq![13u8, 10u8] + more,
            front.len() as int,
        ) == Some(
            Taken {
                args: item_values(items),
                err: if line[0] == 36 {
                    "ERR Protocol error: invalid bulk length"@
                } else {
                    "ERR Protocol error: expected '$', got '"@.push(
                        if line[0] < 32 {
                            ' '
                        } else {
                            line[0] as char
                        },
                    ).push('\'')
                },
                next: begun(front, count, items).len() + line.len() + 1int,
                complete: false,
            },
        ),
{
    let head = begun(front, count, items);
    let tail = line + seq![13u8, 10u8] + more;
    assert(head + line + seq![13u8, 10u8] + more =~= head + tail);
    lemma_begun_read(front, count, items, tail);
    lemma_line_refused(head, line, more, (parsed_usize(count)->0 - items.len()) as nat);
    assert(item_values(items) + Seq::<Seq<u8>>::empty() =~= item_values(items));
}

/// A line that is refused where a bulk string is due.
proof fn lemma_line_refused(head: Seq<u8>, line: Seq<u8>, more: Seq<u8>, n: nat)
    requires
        head.len() > 0,
        n > 0,
        line.len() > 0,
        line[0] != 10 || head.last() != 13,
        one_line(line),
        line[0] == 36 ==> parsed_usize(line.skip(1)) is None,
    ensures
        bulks_taken(head + line + seq![13u8, 10u8] + more, head.len() as int, n) == Some(
            Taken {
                args: Seq::empty(),
                err: if line[0] == 36 {
                    "ERR Protocol error: invalid bulk length"@
                } else {
                    "ERR Protocol error: expected '$', got '"@.push(
                        if line[0] < 32 {
                            ' '
                        } else {
                            line[0] as char
                        },
                    ).push('\'')
                },
                next: head.len() + line.len() + 1int,
                complete: false,
            },
        ),
{
    let at = head.len() as int;
    let b = head + line + seq![13u8, 10u8] + more;
    let lf = at + line.len() + 1;
    lemma_marked_line(head, line, more);
    assert(b[at] == line[0]);
    lemma_refusals(line[0]);
    if line[0] == 36 {
        assert(b.subrange(at + 1, lf - 1) =~= line.skip(1));
    }
}

/// The texts of the errors.
proof fn lemma_refusals(b: u8)
    ensures
        protocol_error("invalid bulk length"@) == "ERR Protocol error: invalid bulk length"@,
        protocol_error(expected_dollar(b)) == "ERR Protocol error: expected '$', got '"@.push(
            if b < 32 {
                ' '
            } else {
                b as char
            },
        ).push('\''),
{
    reveal_strlit("ERR Protocol error: ");
    reveal_strlit("ERR Protocol error: invalid bulk length");
    reveal_strlit("invalid bulk length");
    assert(protocol_error("invalid bulk length"@) =~= "ERR Protocol error: invalid bulk length"@);
    reveal_strlit("ERR Protocol error: expected '$', got '");
    reveal_strlit("expected '$', got '");
    reveal_strlit("'");
    lemma_byte_char(b);
    let shown = if b < 32 { ' ' } else { b as char };
    assert(protocol_error(expected_dollar(b))
        =~= "ERR Protocol error: expected '$', got '"@.push(shown).push('\''));
}

/// Where a line end stands across the end of a bulk string, the LF is refused in
/// place of the next one.
pub proof fn law_array_stray_line_end(
    front: Seq<u8>,
    count: Seq<u8>,
    items: Seq<Item>,
    more: Seq<u8>,
)
    requires
        items_ok(items),
        parsed_usize(count) matches Some(n) && items.len() < n,
        begun(front, count, items).last() == 13,
        (begun(front, count, items) + seq![10u8] + more).len() <= usize::MAX,
    ensures
        request_taken(begun(front, count, items) + seq![10u8] + more, front.len() as int) == Some(
            Taken {
                args: item_values(items),
                err: "ERR Protocol error: expected '$', got ' '"@,
                next: begun(front, count, items).len() as int,
                complete: false,
            },
        ),
{
    let head = begun(front, count, items);
    let at = head.len() as int;
    let tail = seq![10u8] + more;
    let b = head + tail;
    assert(head + seq![10u8] + more =~= b);
    lemma_begun_read(front, count, items, tail);
    assert(b[at - 1] == head.last() && b[at] == 10);
    assert(item_values(items) + Seq::<Seq<u8>>::empty() =~= item_values(items));
    reveal_strlit("ERR Protocol error: ");
    reveal_strlit("ERR Protocol error: expected '$', got ' '");
    reveal_strlit("expected '$', got '");
    reveal_strlit("'");
    lemma_byte_char(10);
    assert(protocol_error(expected_dollar(10)) =~= "ERR Protocol error: expected '$', got ' '"@);
}

proof fn lemma_find_elsewhere(b: Seq<u8>, c: Seq<u8>, i: int, from: int)
    requires
        0 <= from < i,
        b.len() == c.len(),
        forall|j: int| from <= j < b.len() ==> #[trigger] b[j] == c[j],
    ensures
        find_crlf(b, i) == find_crlf(c, i),
    decreases b.len() - i,
{
    if i < b.len() {
        assert(b[i - 1] == c[i - 1] && b[i] == c[i]);
        lemma_find_elsewhere(b, c, i + 1, from);
    }
}

proof fn lemma_bulks_elsewhere(b: Seq<u8>, c: Seq<u8>, s: int, n: nat, from: int)
    requires
        0 <= from < s,
        b.len() == c.len(),
        forall|j: int| from <= j < b.len() ==> #[trigger] b[j] == c[j],
    ensures
        bulks_taken(b, s, n) == bulks_taken(c, s, n),
    decreases n,
{
    if n > 0 {
        lemma_find_elsewhere(b, c, s, from);
        lemma_dollar_line(b, s);
        if let Some(lf) = find_crlf(b, s) {
            assert(b[s] == c[s]);
            if b[s] == 36 {
                assert(b.subrange(s + 1, lf - 1) =~= c.subrange(s + 1, lf - 1));
                if let Bulk::Whole { next, .. } = bulk_at(b, s) {
                    let len = parsed_usize(b.subrange(s + 1, lf - 1))->0;
                    lemma_wrapped_sum(lf + 1 + len + 2, usize::MAX + 1);
                    assert(b.subrange(lf + 1, lf + 1 + len) =~= c.subrange(lf + 1, lf + 1 + len));
                    lemma_bulks_elsewhere(b, c, next, (n - 1) as nat, from);
                }
            }
        }
    }
}

/// The byte that an array starts with is not looked at, unless it is a CR; a CR
/// with an LF behind it cannot be read.
pub proof fn law_array_marker(b: Seq<u8>, ni: int, marker: u8)
    requires
        0 <= ni < b.len(),
    ensures
        b[ni] == 13 && ni + 1 < b.len() && b[ni + 1] == 10 ==> multibulk_taken(b, ni) is None,
        !(ni + 1 < b.len() && b[ni + 1] == 10 && (b[ni] == 13 || marker == 13)) ==>
            multibulk_taken(b.update(ni, marker), ni) == multibulk_taken(b, ni),
{
    let c = b.update(ni, marker);
    if !(ni + 1 < b.len() && b[ni + 1] == 10 && (b[ni] == 13 || marker == 13)) {
        lemma_find_elsewhere(b, c, ni + 2, ni + 1);
        assert(find_crlf(b, ni + 1) == find_crlf(c, ni + 1)) by {
            if ni + 1 < b.len() {
                assert(find_crlf(b, ni + 1) == find_crlf(b, ni + 2));
                assert(c[ni + 1] == b[ni + 1]);
                assert(find_crlf(c, ni + 1) == find_crlf(c, ni + 2));
            }
        }
        lemma_find_crlf(b, ni + 2);
        if let Some(lf) = find_crlf(b, ni + 1) {
            assert(find_crlf(b, ni + 2) == Some(lf));
            assert(b.subrange(ni + 1, lf - 1) =~= c.subrange(ni + 1, lf - 1));
            if let Some(n) = parsed_usize(b.subrange(ni + 1, lf - 1)) {
                lemma_bulks_elsewhere(b, c, lf + 1, n, ni + 1);
            }
        }
    }
}

proof fn lemma_byte_char(b: u8)
    ensures
        (b as char) as int == b as int,
        (b as char) < ' ' <==> b < 32,
{
}

} // verus!
