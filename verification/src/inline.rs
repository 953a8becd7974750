//! Inline requests: one line of words, as typed by hand.
//!
//! Words are parted by spaces, and a line ends with LF or CR LF. A word
//! in single or double quotes may hold spaces and escapes.

use crate::bytes::{copy_range, views, BACKSLASH, CR, DOUBLE_QUOTE, LF, SINGLE_QUOTE, SPACE};
use crate::request::{nothing_taken, stands_for, Taken};
use vstd::prelude::*;

verus! {

pub const BELL: u8 = 7;

pub const BACKSPACE: u8 = 8;

pub const TAB: u8 = 9;

pub const LETTER_A: u8 = 97;

pub const LETTER_B: u8 = 98;

pub const LETTER_N: u8 = 110;

pub const LETTER_R: u8 = 114;

pub const LETTER_T: u8 = 116;

pub const LETTER_X: u8 = 120;

pub open spec fn is_hex(b: u8) -> bool {
    48 <= b <= 57 || 65 <= b <= 70 || 97 <= b <= 102
}

/// The value of a hexadecimal digit.
pub open spec fn hex_digit(b: u8) -> u8 {
    if b <= 57 {
        (b - 48) as u8
    } else if b <= 70 {
        (b - 55) as u8
    } else {
        (b - 87) as u8
    }
}

/// The byte that `\xHL` stands for: the high digit, shifted left by four more
/// than the low digit. Only the low three bits of that distance count.
pub open spec fn hex_escape(high: u8, low: u8) -> u8 {
    hex_digit(high) << ((4 + hex_digit(low)) % 8)
}

/// The escape whose character after the backslash is at `i`: the byte that it
/// stands for, and how many bytes it takes up from `i` on. A character that
/// has no meaning of its own stands for itself, and so does an `x` without two
/// hexadecimal digits.
pub open spec fn escape(p: Seq<u8>, i: int) -> (u8, int) {
    if p[i] == LETTER_N {
        (LF, 1)
    } else if p[i] == LETTER_R {
        (CR, 1)
    } else if p[i] == LETTER_T {
        (TAB, 1)
    } else if p[i] == LETTER_B {
        (BACKSPACE, 1)
    } else if p[i] == LETTER_A {
        (BELL, 1)
    } else if p[i] == LETTER_X && i + 2 < p.len() && is_hex(p[i + 1]) && is_hex(p[i + 2]) {
        (hex_escape(p[i + 1], p[i + 2]), 3)
    } else {
        (p[i], 1)
    }
}

/// The rest of a quoted word.
#[verifier::ext_equal]
pub enum Quoted {
    /// The closing quote stands just before `next`.
    Closed { arg: Seq<u8>, next: int },
    /// The line ends before the closing quote.
    Unbalanced,
    /// The input ends before the closing quote.
    Open,
    /// The input ends with a backslash.
    Dangling,
}

/// `rest` with bytes put in front of it.
pub open spec fn preceded(front: Seq<u8>, rest: Quoted) -> Quoted {
    match rest {
        Quoted::Closed { arg, next } => Quoted::Closed { arg: front + arg, next },
        _ => rest,
    }
}

/// What follows an opening quote, from `i` on.
pub open spec fn quoted(p: Seq<u8>, i: int, quote: u8) -> Quoted
    decreases p.len() - i,
{
    if i >= p.len() {
        Quoted::Open
    } else if p[i] == LF {
        Quoted::Unbalanced
    } else if p[i] == BACKSLASH {
        if i + 1 >= p.len() {
            Quoted::Dangling
        } else {
            preceded(seq![escape(p, i + 1).0], quoted(p, i + 1 + escape(p, i + 1).1, quote))
        }
    } else if p[i] == quote {
        Quoted::Closed { arg: Seq::empty(), next: i + 1 }
    } else {
        preceded(seq![p[i]], quoted(p, i + 1, quote))
    }
}

/// A closing quote stands behind the opening one, inside the input.
pub proof fn lemma_quoted_end(p: Seq<u8>, i: int, quote: u8)
    requires
        0 <= i,
    ensures
        quoted(p, i, quote) matches Quoted::Closed { next, .. } ==> i < next <= p.len(),
    decreases p.len() - i,
{
    if i < p.len() && p[i] != LF {
        if p[i] == BACKSLASH {
            if i + 1 < p.len() {
                lemma_quoted_end(p, i + 1 + escape(p, i + 1).1, quote);
            }
        } else if p[i] != quote {
            lemma_quoted_end(p, i + 1, quote);
        }
    }
}

/// A line of words.
#[verifier::ext_equal]
pub enum Line {
    /// The line ends just before `next`.
    Complete { args: Seq<Seq<u8>>, next: int },
    /// The line ends inside a quoted word.
    Unbalanced,
    /// The input ends before the line does.
    Partial,
    /// The input ends with a backslash inside a quoted word.
    Dangling,
}

/// `rest` with words put in front of it.
pub open spec fn led_by(front: Seq<Seq<u8>>, rest: Line) -> Line {
    match rest {
        Line::Complete { args, next } => Line::Complete { args: front + args, next },
        _ => rest,
    }
}

/// The word from `start` to `end`, unless it is empty.
pub open spec fn word(p: Seq<u8>, start: int, end: int) -> Seq<Seq<u8>> {
    if start == end {
        Seq::empty()
    } else {
        seq![p.subrange(start, end)]
    }
}

/// Where the last word of a line ends: before the line feed at `i`, and before a
/// carriage return that belongs to it.
pub open spec fn line_end(p: Seq<u8>, i: int, start: int) -> int {
    if i > start && p[i - 1] == CR {
        i - 1
    } else {
        i
    }
}

/// The line of words from `i` on, where the word at `i` starts at `start`. Bytes
/// directly in front of an opening quote are dropped.
pub open spec fn line(p: Seq<u8>, i: int, start: int) -> Line
    decreases p.len() - i,
{
    if i < 0 || i >= p.len() {
        Line::Partial
    } else if p[i] == SPACE {
        led_by(word(p, start, i), line(p, i + 1, i + 1))
    } else if p[i] == LF {
        Line::Complete { args: word(p, start, line_end(p, i, start)), next: i + 1 }
    } else if p[i] == DOUBLE_QUOTE || p[i] == SINGLE_QUOTE {
        proof {
            lemma_quoted_end(p, i + 1, p[i]);
        }
        match quoted(p, i + 1, p[i]) {
            Quoted::Closed { arg, next } => led_by(seq![arg], line(p, next, next)),
            Quoted::Unbalanced => Line::Unbalanced,
            Quoted::Open => Line::Partial,
            Quoted::Dangling => Line::Dangling,
        }
    } else {
        line(p, i + 1, start)
    }
}

/// A line ends behind its start, inside the input.
pub(crate) proof fn lemma_line_end(p: Seq<u8>, i: int, start: int)
    ensures
        line(p, i, start) matches Line::Complete { next, .. } ==> i < next <= p.len(),
    decreases p.len() - i,
{
    if 0 <= i < p.len() {
        if p[i] == SPACE {
            lemma_line_end(p, i + 1, i + 1);
        } else if p[i] == LF {
        } else if p[i] == DOUBLE_QUOTE || p[i] == SINGLE_QUOTE {
            lemma_quoted_end(p, i + 1, p[i]);
            if let Quoted::Closed { next, .. } = quoted(p, i + 1, p[i]) {
                lemma_line_end(p, next, next);
            }
        } else {
            lemma_line_end(p, i + 1, start);
        }
    }
}

pub open spec fn unbalanced_quotes() -> Seq<char> {
    "ERR Protocol error: unbalanced quotes in request"@
}

/// What taking the inline request at `ni` comes to; nothing where the input ends
/// with a backslash inside a quoted word.
pub open spec fn inline_taken(p: Seq<u8>, ni: int) -> Option<Taken> {
    match line(p, ni, ni) {
        Line::Complete { args, next } => Some(
            Taken { args, err: Seq::empty(), next, complete: true },
        ),
        Line::Unbalanced => Some(Taken { err: unbalanced_quotes(), ..nothing_taken(ni) }),
        Line::Partial => Some(nothing_taken(ni)),
        Line::Dangling => None,
    }
}

/// The rest of a quoted word, read.
enum QuotedWord {
    Closed(Vec<u8>, usize),
    Unbalanced,
    Open,
    Dangling,
}

fn hex_to_digit(b: u8) -> (d: u8)
    requires
        is_hex(b),
    ensures
        d == hex_digit(b),
        d < 16,
{
    if b <= 57 {
        b - 48
    } else if b <= 70 {
        b - 55
    } else {
        b - 87
    }
}

fn hex_byte(b: u8) -> (r: bool)
    ensures
        r == is_hex(b),
{
    (b >= 48 && b <= 57) || (b >= 97 && b <= 102) || (b >= 65 && b <= 70)
}

/// Reads the escape whose character after the backslash is at `i`.
fn take_escape(packet: &Vec<u8>, i: usize) -> (r: (u8, usize))
    requires
        i < packet.len(),
    ensures
        r.0 == escape(packet@, i as int).0,
        r.1 == escape(packet@, i as int).1,
        i + r.1 <= packet.len(),
{
    let b: u8 = packet[i];
    if b == LETTER_N {
        (LF, 1)
    } else if b == LETTER_R {
        (CR, 1)
    } else if b == LETTER_T {
        (TAB, 1)
    } else if b == LETTER_B {
        (BACKSPACE, 1)
    } else if b == LETTER_A {
        (BELL, 1)
    } else if b == LETTER_X && packet.len() - i > 2 && hex_byte(packet[i + 1]) && hex_byte(
        packet[i + 2],
    ) {
        let high: u8 = hex_to_digit(packet[i + 1]);
        let low: u8 = hex_to_digit(packet[i + 2]);
        (high << ((4 + low) % 8), 3)
    } else {
        (b, 1)
    }
}

/// Reads what follows an opening quote.
fn take_quoted(packet: &Vec<u8>, start: usize, quote: u8) -> (r: QuotedWord)
    ensures
        match r {
            QuotedWord::Closed(arg, next) => quoted(packet@, start as int, quote)
                == (Quoted::Closed { arg: arg@, next: next as int }),
            QuotedWord::Unbalanced => quoted(packet@, start as int, quote) is Unbalanced,
            QuotedWord::Open => quoted(packet@, start as int, quote) is Open,
            QuotedWord::Dangling => quoted(packet@, start as int, quote) is Dangling,
        },
{
    let mut arg: Vec<u8> = Vec::new();
    let mut i: usize = start;
    assert(quoted(packet@, start as int, quote) =~= preceded(
        arg@,
        quoted(packet@, i as int, quote),
    ));
    while i < packet.len()
        invariant
            quoted(packet@, start as int, quote) == preceded(
                arg@,
                quoted(packet@, i as int, quote),
            ),
        decreases packet.len() - i,
    {
        let b: u8 = packet[i];
        let ghost before = arg@;
        if b == LF {
            return QuotedWord::Unbalanced;
        } else if b == BACKSLASH {
            if packet.len() - i == 1 {
                return QuotedWord::Dangling;
            }
            let (byte, width) = take_escape(packet, i + 1);
            arg.push(byte);
            i = i + 1 + width;
            proof {
                let rest = quoted(packet@, i as int, quote);
                assert(preceded(before, preceded(seq![byte], rest)) =~= preceded(arg@, rest));
            }
        } else if b == quote {
            proof {
                assert(preceded(arg@, quoted(packet@, i as int, quote)) =~= (Quoted::Closed {
                    arg: arg@,
                    next: i + 1,
                }));
            }
            return QuotedWord::Closed(arg, i + 1);
        } else {
            arg.push(b);
            i = i + 1;
            proof {
                let rest = quoted(packet@, i as int, quote);
                assert(preceded(before, preceded(seq![b], rest)) =~= preceded(arg@, rest));
            }
        }
    }
    QuotedWord::Open
}

/// Takes the inline request at `ni`. Returns nothing where the input ends with a
/// backslash inside a quoted word, which leaves no character to escape.
pub fn try_take_inline_args(packet: &Vec<u8>, ni: usize) -> (r: Option<
    (Vec<Vec<u8>>, String, usize, bool),
>)
    ensures
        match r {
            Some(taken) => inline_taken(packet@, ni as int) matches Some(t) && stands_for(taken, t),
            None => inline_taken(packet@, ni as int) is None,
        },
{
    let mut i: usize = ni;
    let mut s: usize = ni;
    let mut args: Vec<Vec<u8>> = Vec::new();
    let ghost whole = line(packet@, ni as int, ni as int);
    assert(whole =~= led_by(views(args@), line(packet@, i as int, s as int)));
    while i < packet.len()
        invariant
            s <= i,
            ni <= i,
            whole == line(packet@, ni as int, ni as int),
            whole == led_by(views(args@), line(packet@, i as int, s as int)),
        decreases packet.len() - i,
    {
        let b: u8 = packet[i];
        let ghost before = views(args@);
        if b == SPACE || b == LF {
            let mut end: usize = i;
            if b == LF && i > s && packet[i - 1] == CR {
                end = i - 1;
            }
            if s != end {
                args.push(copy_range(packet.as_slice(), s, end));
            }
            proof {
                assert(views(args@) =~= before + word(packet@, s as int, end as int));
            }
            if b == LF {
                return Some((args, String::default(), i + 1, true));
            }
            proof {
                let rest = line(packet@, i + 1, i + 1);
                assert(led_by(before, led_by(word(packet@, s as int, end as int), rest)) =~= led_by(
                    views(args@),
                    rest,
                ));
            }
            s = i + 1;
            i = i + 1;
        } else if b == DOUBLE_QUOTE || b == SINGLE_QUOTE {
            proof {
                lemma_quoted_end(packet@, i + 1, b);
            }
            match take_quoted(packet, i + 1, b) {
                QuotedWord::Closed(arg, next) => {
                    let ghost word_view = arg@;
                    args.push(arg);
                    s = next;
                    i = next;
                    proof {
                        let rest = line(packet@, i as int, s as int);
                        assert(views(args@) =~= before + seq![word_view]);
                        assert(led_by(before, led_by(seq![word_view], rest)) =~= led_by(
                            views(args@),
                            rest,
                        ));
                    }
                },
                QuotedWord::Unbalanced => {
                    let message = "ERR Protocol error: unbalanced quotes in request".to_string();
                    assert(views(Seq::<Vec<u8>>::empty()) =~= Seq::empty());
                    return Some((Vec::new(), message, ni, false));
                },
                QuotedWord::Open => {
                    assert(views(Seq::<Vec<u8>>::empty()) =~= Seq::empty());
                    return Some((Vec::new(), String::default(), ni, false));
                },
                QuotedWord::Dangling => {
                    return None;
                },
            }
        } else {
            i = i + 1;
        }
    }
    assert(views(Seq::<Vec<u8>>::empty()) =~= Seq::empty());
    Some((Vec::new(), String::default(), ni, false))
}

/// Takes the inline request at `ni`: its words, an error or nothing, where
/// reading stopped, and whether the line was complete.
pub fn redcon_take_inline_args(packet: &Vec<u8>, ni: usize) -> (r: (
    Vec<Vec<u8>>,
    String,
    usize,
    bool,
))
    requires
        inline_taken(packet@, ni as int) is Some,
    ensures
        stands_for(r, inline_taken(packet@, ni as int)->0),
{
    try_take_inline_args(packet, ni).unwrap()
}

} // verus!
