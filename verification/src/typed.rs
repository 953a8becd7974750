//! What a typed line means, piece by piece.

use crate::bytes::BACKSLASH;
use crate::inline::{
    escape, hex_digit, inline_taken, led_by, line, preceded, quoted, Line, Quoted, LETTER_X,
};
use crate::request::Taken;
use vstd::arithmetic::power::pow;
use vstd::prelude::*;

verus! {

/// What may stand between quotes.
pub enum Unit {
    /// A byte for itself.
    Plain { byte: u8 },
    /// A backslash with the character behind it.
    Escaped { c: u8 },
    /// `\x` with two hexadecimal digits.
    Hex { high: u8, low: u8 },
    /// `\x` without them.
    BareX,
}

pub open spec fn unit_text(unit: Unit) -> Seq<u8> {
    match unit {
        Unit::Plain { byte } => seq![byte],
        Unit::Escaped { c } => seq![92u8, c],
        Unit::Hex { high, low } => seq![92u8, 120u8, high, low],
        Unit::BareX => seq![92u8, 120u8],
    }
}

pub open spec fn units_text(units: Seq<Unit>) -> Seq<u8>
    decreases units.len(),
{
    if units.len() == 0 {
        Seq::empty()
    } else {
        unit_text(units[0]) + units_text(units.drop_first())
    }
}

pub open spec fn is_hex_digit(b: u8) -> bool {
    48 <= b <= 57 || 65 <= b <= 70 || 97 <= b <= 102
}

/// The number that a hexadecimal digit stands for, in either case.
pub open spec fn hex_number(b: u8) -> int {
    if 48 <= b <= 57 {
        b - 48
    } else if 65 <= b <= 70 {
        b - 65 + 10
    } else {
        b - 97 + 10
    }
}

/// The byte that a unit stands for, as a number.
pub open spec fn unit_value(unit: Unit) -> int {
    match unit {
        Unit::Plain { byte } => byte as int,
        Unit::Escaped { c } => if c == 110 {
            10
        } else if c == 114 {
            13
        } else if c == 116 {
            9
        } else if c == 98 {
            8
        } else if c == 97 {
            7
        } else {
            c as int
        },
        Unit::Hex { high, low } => (hex_number(high) * pow(
            2,
            ((4 + hex_number(low)) % 8) as nat,
        )) % 256,
        Unit::BareX => 120,
    }
}

/// The bytes that units stand for, one for each.
pub open spec fn units_bytes(units: Seq<Unit>) -> Seq<u8> {
    Seq::new(units.len(), |i: int| unit_value(units[i]) as u8)
}

/// Whether units can be told apart between two `quote`s, where `tail` follows
/// them.
pub open spec fn units_ok(units: Seq<Unit>, quote: u8, tail: Seq<u8>) -> bool
    decreases units.len(),
{
    units.len() == 0 || {
        let rest = units_text(units.drop_first()) + tail;
        &&& match units[0] {
            Unit::Plain { byte } => byte != quote && byte != 10 && byte != 92,
            Unit::Escaped { c } => c != 120,
            Unit::Hex { high, low } => is_hex_digit(high) && is_hex_digit(low),
            Unit::BareX => !(rest.len() >= 2 && is_hex_digit(rest[0]) && is_hex_digit(rest[1])),
        }
        &&& units_ok(units.drop_first(), quote, tail)
    }
}

proof fn lemma_shifted(h: u8, k: u8)
    requires
        h < 16,
        k < 8,
    ensures
        k == 0 ==> (h << k) as int == h * 1 % 256,
        k == 1 ==> (h << k) as int == h * 2 % 256,
        k == 2 ==> (h << k) as int == h * 4 % 256,
        k == 3 ==> (h << k) as int == h * 8 % 256,
        k == 4 ==> (h << k) as int == h * 16 % 256,
        k == 5 ==> (h << k) as int == h * 32 % 256,
        k == 6 ==> (h << k) as int == h * 64 % 256,
        k == 7 ==> (h << k) as int == h * 128 % 256,
{
    assert(k == 0u8 && h < 16u8 ==> ((h << k) as u16) == (h as u16) * 1u16 % 256) by (bit_vector);
    assert(k == 1u8 && h < 16u8 ==> ((h << k) as u16) == (h as u16) * 2u16 % 256) by (bit_vector);
    assert(k == 2u8 && h < 16u8 ==> ((h << k) as u16) == (h as u16) * 4u16 % 256) by (bit_vector);
    assert(k == 3u8 && h < 16u8 ==> ((h << k) as u16) == (h as u16) * 8u16 % 256) by (bit_vector);
    assert(k == 4u8 && h < 16u8 ==> ((h << k) as u16) == (h as u16) * 16u16 % 256) by (bit_vector);
    assert(k == 5u8 && h < 16u8 ==> ((h << k) as u16) == (h as u16) * 32u16 % 256) by (bit_vector);
    assert(k == 6u8 && h < 16u8 ==> ((h << k) as u16) == (h as u16) * 64u16 % 256) by (bit_vector);
    assert(k == 7u8 && h < 16u8 ==> ((h << k) as u16) == (h as u16) * 128u16 % 256) by (bit_vector);
}

proof fn lemma_powers_of_two()
    ensures
        pow(2, 0) == 1,
        pow(2, 1) == 2,
        pow(2, 2) == 4,
        pow(2, 3) == 8,
        pow(2, 4) == 16,
        pow(2, 5) == 32,
        pow(2, 6) == 64,
        pow(2, 7) == 128,
{
    reveal(pow);
    reveal_with_fuel(pow, 8);
}

proof fn lemma_hex_unit(p: Seq<u8>, i: int)
    requires
        0 <= i,
        i + 2 < p.len(),
        p[i] == LETTER_X,
        is_hex_digit(p[i + 1]),
        is_hex_digit(p[i + 2]),
    ensures
        escape(p, i).0 == unit_value(Unit::Hex { high: p[i + 1], low: p[i + 2] }),
        escape(p, i).1 == 3,
{
    let h = hex_digit(p[i + 1]);
    let l = hex_digit(p[i + 2]);
    assert(h == hex_number(p[i + 1]) && l == hex_number(p[i + 2]));
    let k: u8 = ((4 + l) % 8) as u8;
    lemma_shifted(h, k);
    lemma_powers_of_two();
}

proof fn lemma_unit_values(unit: Unit)
    ensures
        0 <= unit_value(unit) < 256,
{
}

/// Between quotes, units are read as the bytes that they stand for.
proof fn lemma_units_read(front: Seq<u8>, units: Seq<Unit>, quote: u8, tail: Seq<u8>)
    requires
        quote == 34 || quote == 39,
        units_ok(units, quote, tail),
    ensures
        ({
            let p = front + units_text(units) + tail;
            quoted(p, front.len() as int, quote) == preceded(
                units_bytes(units),
                quoted(p, (front + units_text(units)).len() as int, quote),
            )
        }),
    decreases units.len(),
{
    let p = front + units_text(units) + tail;
    let s = front.len() as int;
    let end = (front + units_text(units)).len() as int;
    if units.len() == 0 {
        assert(units_bytes(units) =~= Seq::empty());
        assert(preceded(Seq::empty(), quoted(p, end, quote)) =~= quoted(p, end, quote));
    } else {
        let unit = units[0];
        let rest = units.drop_first();
        let longer = front + unit_text(unit);
        let text = units_text(rest) + tail;
        lemma_units_read(longer, rest, quote, tail);
        assert(longer + units_text(rest) + tail =~= p);
        assert((longer + units_text(rest)).len() == end);
        lemma_unit_values(unit);
        let byte = unit_value(unit) as u8;
        assert(p[s] == unit_text(unit)[0]);
        assert(quoted(p, s, quote) == preceded(
            seq![byte],
            quoted(p, longer.len() as int, quote),
        )) by {
            match unit {
                Unit::Plain { .. } => {},
                Unit::Escaped { c } => {
                    assert(p[s + 1] == c);
                },
                Unit::Hex { high, low } => {
                    assert(p[s + 1] == 120 && p[s + 2] == high && p[s + 3] == low);
                    lemma_hex_unit(p, s + 1);
                },
                Unit::BareX => {
                    assert(p[s + 1] == 120);
                    if s + 3 < p.len() {
                        assert(p[s + 2] == text[0]);
                        assert(p[s + 3] == text[1]);
                    }
                },
            }
        }
        assert(units_bytes(units) =~= seq![byte] + units_bytes(rest));
        let last = quoted(p, end, quote);
        assert(preceded(seq![byte], preceded(units_bytes(rest), last)) =~= preceded(
            units_bytes(units),
            last,
        ));
    }
}

/// A part of a line.
pub enum Piece {
    Space,
    /// Bytes without quotes around them.
    Word { bytes: Seq<u8> },
    /// A quoted word.
    InQuotes { quote: u8, units: Seq<Unit> },
}

pub open spec fn piece_text(piece: Piece) -> Seq<u8> {
    match piece {
        Piece::Space => seq![32u8],
        Piece::Word { bytes } => bytes,
        Piece::InQuotes { quote, units } => seq![quote] + units_text(units) + seq![quote],
    }
}

pub open spec fn pieces_text(pieces: Seq<Piece>) -> Seq<u8>
    decreases pieces.len(),
{
    if pieces.len() == 0 {
        Seq::empty()
    } else {
        piece_text(pieces[0]) + pieces_text(pieces.drop_first())
    }
}

/// Whether the pieces of a line can be told apart.
pub open spec fn pieces_ok(pieces: Seq<Piece>) -> bool {
    &&& forall|i: int|
        0 <= i < pieces.len() ==> match #[trigger] pieces[i] {
            Piece::Space => true,
            Piece::Word { bytes } => {
                &&& bytes.len() > 0
                &&& forall|j: int|
                    0 <= j < bytes.len() ==> #[trigger] bytes[j] != 32 && bytes[j] != 10 && bytes[j]
                        != 34 && bytes[j] != 39
            },
            Piece::InQuotes { quote, units } => (quote == 34 || quote == 39) && units_ok(
                units,
                quote,
                seq![quote],
            ),
        }
    &&& forall|i: int, j: int|
        0 <= i && j == i + 1 && j < pieces.len() && #[trigger] pieces[i] is Word ==> !(
        #[trigger] pieces[j] is Word)
}

/// The arguments that the pieces of a line stand for: quoted words, and words
/// that do not run into a quoted one. A word at the end is not among them.
pub open spec fn ended_args(pieces: Seq<Piece>) -> Seq<Seq<u8>>
    decreases pieces.len(),
{
    if pieces.len() == 0 {
        Seq::empty()
    } else {
        let rest = ended_args(pieces.drop_first());
        match pieces[0] {
            Piece::Space => rest,
            Piece::Word { bytes } => if pieces.len() > 1 && pieces[1] is Space {
                seq![bytes] + rest
            } else {
                rest
            },
            Piece::InQuotes { units, .. } => seq![units_bytes(units)] + rest,
        }
    }
}

/// The word at the end of a line, if there is one.
pub open spec fn end_word(pieces: Seq<Piece>) -> Seq<u8> {
    if pieces.len() > 0 && pieces.last() is Word {
        pieces.last()->bytes
    } else {
        Seq::empty()
    }
}

/// The arguments that a line stands for.
pub open spec fn line_args(pieces: Seq<Piece>) -> Seq<Seq<u8>> {
    if end_word(pieces).len() > 0 {
        ended_args(pieces).push(end_word(pieces))
    } else {
        ended_args(pieces)
    }
}

proof fn lemma_pieces_rest(pieces: Seq<Piece>)
    requires
        pieces_ok(pieces),
        pieces.len() > 0,
    ensures
        pieces_ok(pieces.drop_first()),
        pieces.len() > 1 ==> end_word(pieces.drop_first()) == end_word(pieces),
{
    let rest = pieces.drop_first();
    assert forall|i: int, j: int|
        0 <= i && j == i + 1 && j < rest.len() && #[trigger] rest[i] is Word implies !(
    #[trigger] rest[j] is Word) by {
        assert(pieces[i + 1] == rest[i]);
        assert(pieces[j + 1] == rest[j]);
    }
    assert forall|i: int| 0 <= i < rest.len() implies match #[trigger] rest[i] {
        Piece::Space => true,
        Piece::Word { bytes } => {
            &&& bytes.len() > 0
            &&& forall|j: int|
                0 <= j < bytes.len() ==> #[trigger] bytes[j] != 32 && bytes[j] != 10 && bytes[j]
                    != 34 && bytes[j] != 39
        },
        Piece::InQuotes { quote, units } => (quote == 34 || quote == 39) && units_ok(
            units,
            quote,
            seq![quote],
        ),
    } by {
        assert(pieces[i + 1] == rest[i]);
    }
}

proof fn lemma_over_bytes(p: Seq<u8>, i: int, end: int, start: int)
    requires
        0 <= start <= i <= end <= p.len(),
        forall|j: int|
            i <= j < end ==> #[trigger] p[j] != 32 && p[j] != 10 && p[j] != 34 && p[j] != 39,
    ensures
        line(p, i, start) == line(p, end, start),
    decreases end - i,
{
    if i < end {
        assert(p[i] != 32);
        lemma_over_bytes(p, i + 1, end, start);
    }
}

/// The units of a whole quoted word can be told apart whatever follows it.
proof fn lemma_units_closed(units: Seq<Unit>, quote: u8, more: Seq<u8>)
    requires
        quote == 34 || quote == 39,
        units_ok(units, quote, seq![quote]),
    ensures
        units_ok(units, quote, seq![quote] + more),
    decreases units.len(),
{
    if units.len() > 0 {
        let rest = units.drop_first();
        lemma_units_closed(rest, quote, more);
        let short = units_text(rest) + seq![quote];
        let long = units_text(rest) + (seq![quote] + more);
        assert(long[0] == short[0]);
        if units_text(rest).len() > 0 {
            assert(long[1] == short[1]);
        }
    }
}

proof fn lemma_quotes_read(front: Seq<u8>, quote: u8, units: Seq<Unit>, more: Seq<u8>)
    requires
        quote == 34 || quote == 39,
        units_ok(units, quote, seq![quote]),
    ensures
        ({
            let text = seq![quote] + units_text(units) + seq![quote];
            quoted(front + text + more, front.len() + 1int, quote) == (Quoted::Closed {
                arg: units_bytes(units),
                next: (front + text).len() as int,
            })
        }),
{
    let text = seq![quote] + units_text(units) + seq![quote];
    let p = front + text + more;
    let open = front + seq![quote];
    let tail = seq![quote] + more;
    lemma_units_closed(units, quote, more);
    lemma_units_read(open, units, quote, tail);
    assert(open + units_text(units) + tail =~= p);
    let end = (open + units_text(units)).len() as int;
    assert(p[end] == quote);
    assert(quoted(p, end, quote) == (Quoted::Closed { arg: Seq::empty(), next: end + 1 }));
    assert(units_bytes(units) + Seq::<u8>::empty() =~= units_bytes(units));
}

/// Whether the pieces of a line are read as the arguments that have ended, and a
/// word that may go on.
spec fn read_so_far(front: Seq<u8>, pieces: Seq<Piece>, tail: Seq<u8>) -> bool {
    let p = front + pieces_text(pieces) + tail;
    let end = (front + pieces_text(pieces)).len() as int;
    let w = end_word(pieces);
    &&& w.len() <= pieces_text(pieces).len()
    &&& p.subrange(end - w.len(), end) == w
    &&& line(p, front.len() as int, front.len() as int) == led_by(
        ended_args(pieces),
        line(p, end, end - w.len()),
    )
}

/// The text of a line, with its first piece set apart.
proof fn lemma_first_piece(front: Seq<u8>, pieces: Seq<Piece>, tail: Seq<u8>)
    requires
        pieces_ok(pieces),
        pieces.len() > 0,
    ensures
        ({
            let text = piece_text(pieces[0]);
            let rest = pieces.drop_first();
            let p = front + pieces_text(pieces) + tail;
            &&& text.len() > 0
            &&& (front + text) + pieces_text(rest) + tail == p
            &&& front + text + (pieces_text(rest) + tail) == p
            &&& (front + text + pieces_text(rest)).len() == (front + pieces_text(pieces)).len()
            &&& p.subrange(front.len() as int, (front + text).len() as int) == text
            &&& p[front.len() as int] == text[0]
            &&& pieces_text(rest).len() <= pieces_text(pieces).len()
        }),
{
    let text = piece_text(pieces[0]);
    let rest = pieces.drop_first();
    let p = front + pieces_text(pieces) + tail;
    assert((front + text) + pieces_text(rest) + tail =~= p);
    assert(front + text + (pieces_text(rest) + tail) =~= p);
    assert(p.subrange(front.len() as int, (front + text).len() as int) =~= text);
}

proof fn lemma_same_end_word(pieces: Seq<Piece>)
    requires
        pieces.len() > 0,
        pieces[0] !is Word || pieces.len() > 1,
    ensures
        end_word(pieces.drop_first()) == end_word(pieces),
{
    if pieces.len() == 1 {
        assert(pieces.last() == pieces[0]);
    }
}

proof fn lemma_space_read(front: Seq<u8>, pieces: Seq<Piece>, tail: Seq<u8>)
    requires
        pieces_ok(pieces),
        pieces.len() > 0,
        pieces[0] is Space,
        read_so_far(front + piece_text(pieces[0]), pieces.drop_first(), tail),
    ensures
        read_so_far(front, pieces, tail),
{
    let p = front + pieces_text(pieces) + tail;
    let s = front.len() as int;
    lemma_first_piece(front, pieces, tail);
    lemma_same_end_word(pieces);
    assert(line(p, s, s) == led_by(Seq::empty(), line(p, s + 1, s + 1)));
    assert(led_by(Seq::empty(), line(p, s + 1, s + 1)) =~= line(p, s + 1, s + 1));
}

proof fn lemma_led_twice(a: Seq<Seq<u8>>, b: Seq<Seq<u8>>, rest: Line)
    ensures
        led_by(a, led_by(b, rest)) == led_by(a + b, rest),
{
    assert(led_by(a, led_by(b, rest)) =~= led_by(a + b, rest));
}

proof fn lemma_in_quotes_read(front: Seq<u8>, pieces: Seq<Piece>, tail: Seq<u8>)
    requires
        pieces_ok(pieces),
        pieces.len() > 0,
        pieces[0] is InQuotes,
        read_so_far(front + piece_text(pieces[0]), pieces.drop_first(), tail),
    ensures
        read_so_far(front, pieces, tail),
{
    let p = front + pieces_text(pieces) + tail;
    let s = front.len() as int;
    let rest = pieces.drop_first();
    let quote = pieces[0]->quote;
    let units = pieces[0]->units;
    let next = (front + piece_text(pieces[0])).len() as int;
    let end = (front + pieces_text(pieces)).len() as int;
    lemma_first_piece(front, pieces, tail);
    lemma_same_end_word(pieces);
    lemma_quotes_read(front, quote, units, pieces_text(rest) + tail);
    assert(line(p, s, s) == led_by(seq![units_bytes(units)], line(p, next, next)));
    lemma_led_twice(
        seq![units_bytes(units)],
        ended_args(rest),
        line(p, end, end - end_word(pieces).len()),
    );
}

proof fn lemma_word_read(front: Seq<u8>, pieces: Seq<Piece>, tail: Seq<u8>)
    requires
        pieces_ok(pieces),
        pieces.len() > 0,
        pieces[0] is Word,
        read_so_far(front + piece_text(pieces[0]), pieces.drop_first(), tail),
    ensures
        read_so_far(front, pieces, tail),
{
    let p = front + pieces_text(pieces) + tail;
    let s = front.len() as int;
    let rest = pieces.drop_first();
    let bytes = pieces[0]->bytes;
    let e = s + bytes.len();
    let end = (front + pieces_text(pieces)).len() as int;
    let last = line(p, end, end - end_word(pieces).len());
    lemma_first_piece(front, pieces, tail);
    assert forall|j: int| s <= j < e implies #[trigger] p[j] != 32 && p[j] != 10 && p[j] != 34
        && p[j] != 39 by {
        assert(p.subrange(s, e)[j - s] == bytes[j - s]);
    }
    lemma_over_bytes(p, s, e, s);
    if rest.len() == 0 {
        assert(pieces.last() == pieces[0]);
        assert(pieces_text(rest) =~= Seq::empty());
        assert(ended_args(rest) =~= Seq::empty());
        assert(led_by(Seq::empty(), last) =~= last);
    } else {
        assert(rest[0] == pieces[1]);
        lemma_same_end_word(pieces);
        lemma_pieces_rest(pieces);
        lemma_first_piece(front + bytes, rest, tail);
        assert(pieces[0] is Word && !(pieces[1] is Word));
        if rest[0] is Space {
            let after = line(p, e + 1, e + 1);
            assert(line(p, e, s) == led_by(seq![bytes], after));
            assert(line(p, e, e) == led_by(Seq::empty(), after));
            assert(led_by(Seq::empty(), after) =~= after);
            lemma_led_twice(seq![bytes], ended_args(rest), last);
        } else {
            assert(line(p, e, s) == line(p, e, e));
        }
    }
}

/// The pieces of a line are read one by one.
proof fn lemma_pieces_read(front: Seq<u8>, pieces: Seq<Piece>, tail: Seq<u8>)
    requires
        pieces_ok(pieces),
    ensures
        read_so_far(front, pieces, tail),
    decreases pieces.len(),
{
    let p = front + pieces_text(pieces) + tail;
    if pieces.len() == 0 {
        let end = front.len() as int;
        assert(front + pieces_text(pieces) =~= front);
        assert(p.subrange(end, end) =~= Seq::empty());
        assert(led_by(Seq::empty(), line(p, end, end)) =~= line(p, end, end));
    } else {
        lemma_pieces_rest(pieces);
        lemma_pieces_read(front + piece_text(pieces[0]), pieces.drop_first(), tail);
        match pieces[0] {
            Piece::Space => {
                lemma_space_read(front, pieces, tail);
            },
            Piece::InQuotes { .. } => {
                lemma_in_quotes_read(front, pieces, tail);
            },
            Piece::Word { .. } => {
                lemma_word_read(front, pieces, tail);
            },
        }
    }
}

/// A whole line is read as the arguments that it stands for, wherever it starts
/// and whatever follows it. It ends with CR LF, or with LF alone.
pub proof fn law_line_read(front: Seq<u8>, pieces: Seq<Piece>, more: Seq<u8>)
    requires
        pieces_ok(pieces),
    ensures
        ({
            let text = front + pieces_text(pieces);
            &&& inline_taken(text + seq![13u8, 10u8] + more, front.len() as int) == Some(
                Taken {
                    args: line_args(pieces),
                    err: Seq::empty(),
                    next: text.len() + 2int,
                    complete: true,
                },
            )
            &&& end_word(pieces).len() == 0 || end_word(pieces).last() != 13 ==> inline_taken(
                text + seq![10u8] + more,
                front.len() as int,
            ) == Some(
                Taken {
                    args: line_args(pieces),
                    err: Seq::empty(),
                    next: text.len() + 1int,
                    complete: true,
                },
            )
        }),
{
    let text = front + pieces_text(pieces);
    let s = front.len() as int;
    let end = text.len() as int;
    let w = end_word(pieces);
    let args = ended_args(pieces);
    let both = seq![13u8, 10u8] + more;
    let p = text + both;
    assert(text + seq![13u8, 10u8] + more =~= p);
    lemma_pieces_read(front, pieces, both);
    assert(p[end] == 13 && p[end + 1] == 10);
    assert(line(p, end, end - w.len()) == line(p, end + 1, end - w.len()));
    if w.len() == 0 {
        assert(args + Seq::<Seq<u8>>::empty() =~= line_args(pieces));
    } else {
        assert(args + seq![w] =~= line_args(pieces));
    }
    if w.len() == 0 || w.last() != 13 {
        let one = seq![10u8] + more;
        let q = text + one;
        assert(text + seq![10u8] + more =~= q);
        lemma_pieces_read(front, pieces, one);
        assert(q[end] == 10);
        if w.len() > 0 {
            assert(q.subrange(end - w.len(), end)[w.len() - 1] == w.last());
            assert(q[end - 1] == w.last());
        }
    }
}

/// A line that has not ended is waited upon, also inside a quoted word. Where the
/// line ends there, it is refused; where the input ends there with a backslash,
/// it cannot be read.
pub proof fn law_line_not_ended(
    front: Seq<u8>,
    pieces: Seq<Piece>,
    quote: u8,
    units: Seq<Unit>,
    more: Seq<u8>,
)
    requires
        pieces_ok(pieces),
        quote == 34 || quote == 39,
    ensures
        ({
            let s = front.len() as int;
            let text = front + pieces_text(pieces);
            let open = text + seq![quote] + units_text(units);
            let waiting = Taken {
                args: Seq::empty(),
                err: Seq::empty(),
                next: s,
                complete: false,
            };
            &&& inline_taken(text, s) == Some(waiting)
            &&& units_ok(units, quote, Seq::empty()) ==> inline_taken(open, s) == Some(waiting)
            &&& units_ok(units, quote, seq![92u8]) ==> inline_taken(open + seq![92u8], s) is None
            &&& units_ok(units, quote, seq![10u8] + more) ==> inline_taken(
                open + seq![10u8] + more,
                s,
            ) == Some(
                Taken { err: "ERR Protocol error: unbalanced quotes in request"@, ..waiting },
            )
        }),
{
    let s = front.len() as int;
    let text = front + pieces_text(pieces);
    lemma_pieces_read(front, pieces, Seq::empty());
    assert(text + Seq::<u8>::empty() =~= text);
    if units_ok(units, quote, Seq::empty()) {
        lemma_open_quote(front, pieces, quote, units, Seq::empty());
        let open = text + seq![quote] + units_text(units);
        assert(open + Seq::<u8>::empty() =~= open);
    }
    if units_ok(units, quote, seq![92u8]) {
        lemma_open_quote(front, pieces, quote, units, seq![92u8]);
    }
    if units_ok(units, quote, seq![10u8] + more) {
        lemma_open_quote(front, pieces, quote, units, seq![10u8] + more);
        let open = text + seq![quote] + units_text(units);
        assert(open + (seq![10u8] + more) =~= open + seq![10u8] + more);
    }
}

/// What comes of an opening quote whose closing one is not there.
proof fn lemma_quote_not_closed(text: Seq<u8>, quote: u8, units: Seq<Unit>, tail: Seq<u8>)
    requires
        quote == 34 || quote == 39,
        units_ok(units, quote, tail),
        tail.len() == 0 || tail[0] == 10 || tail == seq![92u8],
    ensures
        quoted(text + seq![quote] + units_text(units) + tail, text.len() + 1int, quote)
            == if tail.len() == 0 {
            Quoted::Open
        } else if tail[0] == 10 {
            Quoted::Unbalanced
        } else {
            Quoted::Dangling
        },
{
    let open = text + seq![quote];
    let p = open + units_text(units) + tail;
    let close = (open + units_text(units)).len() as int;
    lemma_units_read(open, units, quote, tail);
    if tail.len() > 0 {
        assert(p[close] == tail[0]);
    }
}

proof fn lemma_open_quote(
    front: Seq<u8>,
    pieces: Seq<Piece>,
    quote: u8,
    units: Seq<Unit>,
    tail: Seq<u8>,
)
    requires
        pieces_ok(pieces),
        quote == 34 || quote == 39,
        units_ok(units, quote, tail),
        tail.len() == 0 || tail[0] == 10 || tail == seq![92u8],
    ensures
        ({
            let s = front.len() as int;
            let p = front + pieces_text(pieces) + seq![quote] + units_text(units) + tail;
            line(p, s, s) == if tail.len() == 0 {
                Line::Partial
            } else if tail[0] == 10 {
                Line::Unbalanced
            } else {
                Line::Dangling
            }
        }),
{
    let text = front + pieces_text(pieces);
    let p = text + seq![quote] + units_text(units) + tail;
    let after = seq![quote] + units_text(units) + tail;
    assert(text + after =~= p);
    lemma_pieces_read(front, pieces, after);
    lemma_quote_not_closed(text, quote, units, tail);
    assert(p[text.len() as int] == quote);
}

/// Between quotes of either kind, `\n`, `\r`, `\t`, `\b` and `\a` stand for LF,
/// CR, TAB, BACKSPACE and BELL. Any other character but `x` stands for itself
/// behind a backslash. What comes after is read as it is without the escape.
pub proof fn law_escapes(front: Seq<u8>, c: u8, rest: Seq<u8>, quote: u8)
    requires
        quote == 34 || quote == 39,
        c != 120,
    ensures
        ({
            let p = front + seq![92u8, c] + rest;
            let byte: u8 = if c == 110 {
                10
            } else if c == 114 {
                13
            } else if c == 116 {
                9
            } else if c == 98 {
                8
            } else if c == 97 {
                7
            } else {
                c
            };
            match quoted(p, front.len() + 2int, quote) {
                Quoted::Closed { arg, next } => quoted(p, front.len() as int, quote) == (
                Quoted::Closed { arg: seq![byte] + arg, next }),
                other => quoted(p, front.len() as int, quote) == other,
            }
        }),
{
    let p = front + seq![92u8, c] + rest;
    let s = front.len() as int;
    assert(p[s] == BACKSLASH && p[s + 1] == c);
    assert(escape(p, s + 1).1 == 1);
}

} // verus!
