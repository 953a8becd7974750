//! Byte strings: the bytes that the protocol gives a meaning to, and decimal
//! numbers.

use vstd::arithmetic::power::pow;
use vstd::prelude::*;

verus! {

/// Line feed, which ends a line.
pub const LF: u8 = 10;

/// Carriage return, which may stand before a line feed.
pub const CR: u8 = 13;

pub const SPACE: u8 = 32;

pub const DOUBLE_QUOTE: u8 = 34;

/// Introduces the length of one bulk string.
pub const DOLLAR: u8 = 36;

pub const SINGLE_QUOTE: u8 = 39;

/// Introduces the number of elements of an array.
pub const STAR: u8 = 42;

pub const PLUS: u8 = 43;

pub const ZERO: u8 = 48;

pub const NINE: u8 = 57;

pub const BACKSLASH: u8 = 92;

/// The contents of a list of byte strings.
pub open spec fn views(list: Seq<Vec<u8>>) -> Seq<Seq<u8>> {
    Seq::new(list.len(), |i: int| list[i]@)
}

/// The end of a line.
pub open spec fn crlf() -> Seq<u8> {
    seq![CR, LF]
}

pub open spec fn is_digit(b: u8) -> bool {
    ZERO <= b <= NINE
}

pub open spec fn all_digits(s: Seq<u8>) -> bool {
    forall|i: int| 0 <= i < s.len() ==> is_digit(#[trigger] s[i])
}

/// The number that a string of decimal digits stands for.
pub open spec fn digits_value(s: Seq<u8>) -> nat
    decreases s.len(),
{
    if s.len() == 0 {
        0
    } else {
        (digits_value(s.drop_last()) * 10 + (s.last() - ZERO)) as nat
    }
}

/// The decimal representation of a number, without leading zeros.
pub open spec fn decimal(n: nat) -> Seq<u8>
    decreases n,
{
    if n < 10 {
        seq![(ZERO + n) as u8]
    } else {
        decimal(n / 10).push((ZERO + n % 10) as u8)
    }
}

/// The digits of an unsigned number, after the plus sign that may precede them.
pub open spec fn unsigned_digits(s: Seq<u8>) -> Seq<u8> {
    if s.len() > 0 && s[0] == PLUS {
        s.skip(1)
    } else {
        s
    }
}

/// The number written in `s`: an optional plus sign and at least one digit, with
/// a value that fits a `usize`.
pub open spec fn parsed_usize(s: Seq<u8>) -> Option<nat> {
    let digits = unsigned_digits(s);
    if digits.len() > 0 && all_digits(digits) && digits_value(digits) <= usize::MAX {
        Some(digits_value(digits))
    } else {
        None
    }
}

proof fn lemma_digits_value_grows(s: Seq<u8>, k: int)
    requires
        all_digits(s),
        0 <= k <= s.len(),
    ensures
        digits_value(s.take(k)) <= digits_value(s),
    decreases s.len() - k,
{
    if k == s.len() {
        assert(s.take(k) =~= s);
    } else {
        let longer = s.take(k + 1);
        assert(longer.drop_last() =~= s.take(k));
        assert(is_digit(s[k]));
        lemma_digits_value_grows(s, k + 1);
    }
}

proof fn lemma_decimal_digits(n: nat)
    ensures
        decimal(n).len() > 0,
        all_digits(decimal(n)),
        digits_value(decimal(n)) == n,
    decreases n,
{
    if n < 10 {
        let d = decimal(n);
        assert(d.drop_last() =~= Seq::<u8>::empty());
        assert(digits_value(d.drop_last()) == 0);
    } else {
        let d = decimal(n);
        lemma_decimal_digits(n / 10);
        assert(d.drop_last() =~= decimal(n / 10));
        assert(all_digits(d)) by {
            assert forall|i: int| 0 <= i < d.len() implies is_digit(#[trigger] d[i]) by {
                if i < d.len() - 1 {
                    assert(d[i] == decimal(n / 10)[i]);
                }
            }
        }
    }
}

/// A number that was written in decimal is read back unchanged.
pub proof fn law_decimal_read_back(n: nat)
    requires
        n <= usize::MAX,
    ensures
        parsed_usize(decimal(n)) == Some(n),
{
    lemma_decimal_digits(n);
    assert(is_digit(decimal(n)[0]));
}

/// The decimal representation of a number has digits only.
pub(crate) proof fn lemma_decimal_is_digits(n: nat)
    ensures
        decimal(n).len() > 0,
        forall|i: int| 0 <= i < decimal(n).len() ==> is_digit(#[trigger] decimal(n)[i]),
{
    lemma_decimal_digits(n);
}

/// A string of decimal digits has its value by position, in base ten: digits that
/// are put behind others move those up by as many powers of ten.
pub proof fn law_digits_by_position(s: Seq<u8>, t: Seq<u8>)
    requires
        forall|i: int| 0 <= i < s.len() ==> 48 <= #[trigger] s[i] <= 57,
        forall|i: int| 0 <= i < t.len() ==> 48 <= #[trigger] t[i] <= 57,
    ensures
        digits_value(s + t) == digits_value(s) * pow(10, t.len()) + digits_value(t),
    decreases t.len(),
{
    if t.len() == 0 {
        assert(s + t =~= s);
        vstd::arithmetic::power::lemma_pow0(10);
    } else {
        let front = t.drop_last();
        let a = digits_value(s) as int;
        let m = pow(10, front.len());
        law_digits_by_position(s, front);
        assert((s + t).drop_last() =~= s + front);
        assert((s + t).last() == t.last());
        vstd::arithmetic::power::lemma_pow_adds(10, front.len(), 1);
        vstd::arithmetic::power::lemma_pow1(10);
        assert((a * m + digits_value(front)) * 10 == a * (m * 10) + digits_value(front) * 10)
            by (nonlinear_arith);
    }
}

/// A single digit stands for its number, and no digit for nothing.
pub proof fn law_digit_value(d: u8)
    requires
        48 <= d <= 57,
    ensures
        digits_value(seq![d]) == d - 48,
        digits_value(Seq::empty()) == 0,
{
    assert(seq![d].drop_last() =~= Seq::<u8>::empty());
    assert(digits_value(seq![d].drop_last()) == 0);
}

/// The decimal representation of a number is the string of digits that has its
/// value, without leading zeros.
pub proof fn law_decimal_digits(n: nat)
    ensures
        decimal(n).len() > 0,
        forall|i: int| 0 <= i < decimal(n).len() ==> 48 <= #[trigger] decimal(n)[i] <= 57,
        digits_value(decimal(n)) == n,
        decimal(n).len() > 1 ==> decimal(n)[0] != 48,
    decreases n,
{
    lemma_decimal_digits(n);
    assert forall|i: int| 0 <= i < decimal(n).len() implies 48 <= #[trigger] decimal(n)[i]
        <= 57 by {
        assert(is_digit(decimal(n)[i]));
    }
    if n >= 10 {
        law_decimal_digits(n / 10);
        lemma_decimal_digits(n / 10);
        assert(decimal(n)[0] == decimal(n / 10)[0]);
        if decimal(n / 10).len() == 1 && decimal(n / 10)[0] == 48 {
            law_digit_value(48);
            assert(decimal(n / 10) =~= seq![48u8]);
        }
    }
}

/// An unsigned number is read from its digits, with or without a plus sign, if
/// its value fits the machine.
pub proof fn law_number_read(digits: Seq<u8>)
    requires
        digits.len() > 0,
        forall|i: int| 0 <= i < digits.len() ==> 48 <= #[trigger] digits[i] <= 57,
    ensures
        parsed_usize(digits) == if digits_value(digits) <= usize::MAX {
            Some(digits_value(digits))
        } else {
            None
        },
        parsed_usize(seq![43u8] + digits) == parsed_usize(digits),
{
    assert(digits[0] != 43);
    assert((seq![43u8] + digits).skip(1) =~= digits);
}

/// Nothing else is read as a number: what is read is a plus sign or none, and
/// then digits, of which there is one at least.
pub proof fn law_no_other_number(s: Seq<u8>)
    requires
        parsed_usize(s) is Some,
    ensures
        s.len() > 0,
        48 <= s[0] <= 57 || (s[0] == 43 && s.len() > 1),
        forall|i: int| 1 <= i < s.len() ==> 48 <= #[trigger] s[i] <= 57,
{
    let digits = unsigned_digits(s);
    if s[0] == 43 {
        assert forall|i: int| 1 <= i < s.len() implies 48 <= #[trigger] s[i] <= 57 by {
            assert(digits[i - 1] == s[i]);
            assert(is_digit(digits[i - 1]));
        }
    } else {
        assert(is_digit(digits[0]));
        assert forall|i: int| 1 <= i < s.len() implies 48 <= #[trigger] s[i] <= 57 by {
            assert(is_digit(digits[i]));
        }
    }
}

/// A list of byte strings holds them one by one, as they are.
pub proof fn law_views(list: Seq<Vec<u8>>)
    ensures
        views(list).len() == list.len(),
        forall|i: int| 0 <= i < list.len() ==> #[trigger] views(list)[i] == list[i]@,
{
}

/// Reads the unsigned number in `s`.
pub fn parse_usize(s: &[u8]) -> (r: Option<usize>)
    ensures
        match r {
            Some(n) => parsed_usize(s@) == Some(n as nat),
            None => parsed_usize(s@) is None,
        },
{
    let start: usize = if s.len() > 0 && s[0] == PLUS { 1 } else { 0 };
    let ghost digits = unsigned_digits(s@);
    assert(digits =~= s@.skip(start as int));
    if start == s.len() {
        return None;
    }
    let mut value: usize = 0;
    let mut i: usize = start;
    assert(digits.take(0) =~= Seq::<u8>::empty());
    while i < s.len()
        invariant
            start <= i <= s.len(),
            start <= 1,
            digits == unsigned_digits(s@),
            digits == s@.skip(start as int),
            digits.len() > 0,
            all_digits(digits.take(i - start)),
            value == digits_value(digits.take(i - start)),
        decreases s.len() - i,
    {
        let b: u8 = s[i];
        let ghost k = i - start;
        assert(digits[k] == b);
        if b < ZERO || b > NINE {
            assert(!is_digit(digits[k]));
            return None;
        }
        assert(digits.take(k + 1).drop_last() =~= digits.take(k));
        assert(all_digits(digits.take(k + 1))) by {
            assert forall|j: int| 0 <= j < k + 1 implies is_digit(
                #[trigger] digits.take(k + 1)[j],
            ) by {
                if j < k {
                    assert(digits.take(k + 1)[j] == digits.take(k)[j]);
                }
            }
        }
        let digit: usize = (b - ZERO) as usize;
        let scaled: Option<usize> = value.checked_mul(10);
        let sum: Option<usize> = match scaled {
            Some(t) => t.checked_add(digit),
            None => None,
        };
        match sum {
            Some(t) => {
                value = t;
            },
            None => {
                proof {
                    if all_digits(digits) {
                        lemma_digits_value_grows(digits, k + 1);
                    }
                }
                return None;
            },
        }
        i = i + 1;
    }
    assert(digits.take(digits.len() as int) =~= digits);
    Some(value)
}

/// Writes `n` in decimal.
pub fn decimal_bytes(n: usize) -> (r: Vec<u8>)
    ensures
        r@ == decimal(n as nat),
    decreases n,
{
    if n < 10 {
        let mut digits: Vec<u8> = Vec::new();
        digits.push(ZERO + n as u8);
        digits
    } else {
        let mut digits = decimal_bytes(n / 10);
        digits.push(ZERO + (n % 10) as u8);
        digits
    }
}

/// Appends a byte string to another.
pub fn append_bytes(out: &mut Vec<u8>, more: &[u8])
    ensures
        final(out)@ == old(out)@ + more@,
{
    out.extend_from_slice(more);
    assert(out@ =~= old(out)@ + more@);
}

/// Copies the bytes from `start` up to `end`.
pub fn copy_range(s: &[u8], start: usize, end: usize) -> (r: Vec<u8>)
    requires
        start <= end <= s@.len(),
    ensures
        r@ == s@.subrange(start as int, end as int),
{
    vstd::slice::slice_to_vec(vstd::slice::slice_subrange(s, start, end))
}

} // verus!
