//! Multibulk requests: an array of bulk strings, as client libraries send them.
//!
//! `*2\r\n$3\r\nGET\r\n$1\r\nk\r\n` is the request `GET k`.

use crate::bytes::{copy_range, parse_usize, parsed_usize, views, CR, DOLLAR, LF};
use crate::request::{nothing_taken, stands_for, Taken};
use crate::text::{is_line, safe_chars, safe_line_from_string};
use vstd::prelude::*;
use vstd::string::*;

verus! {

/// The first position from `i` on that holds an LF with a CR just before it.
pub open spec fn find_crlf(b: Seq<u8>, i: int) -> Option<int>
    decreases b.len() - i,
{
    if i >= b.len() {
        None
    } else if b[i - 1] == CR && b[i] == LF {
        Some(i)
    } else {
        find_crlf(b, i + 1)
    }
}

/// What stands at the place of a bulk string.
#[verifier::ext_equal]
pub enum Bulk {
    /// A whole bulk string, which ends just before `next`.
    Whole { arg: Seq<u8>, next: int },
    /// The input ends before the line with the length does.
    NoLine,
    /// The line that ends at `lf` does not start with `$`.
    NoDollar { lf: int },
    /// The line that ends at `lf` holds no length.
    NoLength { lf: int },
    /// The input ends before the bulk string does.
    Short { lf: int },
    /// The length reaches past the end of the address space.
    TooLong,
}

/// The bulk string at `s`. Lengths are summed up modulo the address space.
pub open spec fn bulk_at(b: Seq<u8>, s: int) -> Bulk {
    match find_crlf(b, s) {
        None => Bulk::NoLine,
        Some(lf) => if b[s] != DOLLAR {
            Bulk::NoDollar { lf }
        } else {
            match parsed_usize(b.subrange(s + 1, lf - 1)) {
                None => Bulk::NoLength { lf },
                Some(n) => if b.len() < (lf + 1 + n + 2) % (usize::MAX + 1) {
                    Bulk::Short { lf }
                } else if lf + 1 + n + 2 > usize::MAX {
                    Bulk::TooLong
                } else {
                    Bulk::Whole {
                        arg: b.subrange(lf + 1, lf + 1 + n),
                        next: lf + 1 + n + 2,
                    }
                },
            }
        },
    }
}

/// The protocol error with the given detail, on one line.
pub open spec fn protocol_error(detail: Seq<char>) -> Seq<char> {
    "ERR Protocol error: "@ + safe_chars(detail)
}

/// The detail for a line that starts with `b` where `$` was due.
pub open spec fn expected_dollar(b: u8) -> Seq<char> {
    "expected '$', got '"@.push(b as char) + "'"@
}

/// `rest` with arguments put in front of its own.
pub open spec fn after_args(front: Seq<Seq<u8>>, rest: Option<Taken>) -> Option<Taken> {
    match rest {
        Some(t) => Some(Taken { args: front + t.args, ..t }),
        None => None,
    }
}

/// What taking `n` bulk strings from `s` on comes to; nothing where a length is
/// too long. A bulk string that is cut short is waited for.
pub open spec fn bulks_taken(b: Seq<u8>, s: int, n: nat) -> Option<Taken>
    decreases n,
{
    if n == 0 {
        Some(Taken { args: Seq::empty(), err: Seq::empty(), next: s, complete: true })
    } else {
        match bulk_at(b, s) {
            Bulk::Whole { arg, next } => after_args(
                seq![arg],
                bulks_taken(b, next, (n - 1) as nat),
            ),
            Bulk::NoLine => Some(nothing_taken(b.len() as int)),
            Bulk::NoDollar { lf } => Some(
                Taken { err: protocol_error(expected_dollar(b[s])), ..nothing_taken(lf) },
            ),
            Bulk::NoLength { lf } => Some(
                Taken { err: protocol_error("invalid bulk length"@), ..nothing_taken(lf) },
            ),
            Bulk::Short { lf } => Some(nothing_taken(lf)),
            Bulk::TooLong => None,
        }
    }
}

/// What taking the multibulk request at `ni` comes to; nothing where a length is
/// too long, or where a bare line end stands at `ni`.
pub open spec fn multibulk_taken(b: Seq<u8>, ni: int) -> Option<Taken> {
    match find_crlf(b, ni + 1) {
        None => Some(nothing_taken(if ni + 1 < b.len() { b.len() as int } else { ni + 1 })),
        Some(lf) => if lf - 1 < ni + 1 {
            None
        } else {
            match parsed_usize(b.subrange(ni + 1, lf - 1)) {
                None => Some(
                    Taken {
                        err: protocol_error("invalid multibulk length"@),
                        ..nothing_taken(lf)
                    },
                ),
                Some(n) => bulks_taken(b, lf + 1, n),
            }
        },
    }
}

pub(crate) proof fn lemma_find_crlf(b: Seq<u8>, i: int)
    requires
        1 <= i,
    ensures
        find_crlf(b, i) matches Some(lf) ==> i <= lf < b.len() && b[lf - 1] == CR && b[lf] == LF,
    decreases b.len() - i,
{
    if i < b.len() && !(b[i - 1] == CR && b[i] == LF) {
        lemma_find_crlf(b, i + 1);
    }
}

/// A line that starts with `$` ends after at least two more bytes.
pub(crate) proof fn lemma_dollar_line(b: Seq<u8>, s: int)
    requires
        1 <= s,
    ensures
        find_crlf(b, s) matches Some(lf) ==> s <= lf < b.len() && (b[s] == DOLLAR ==> s + 1 <= lf
            - 1),
{
    lemma_find_crlf(b, s);
}

proof fn lemma_bulks_end(b: Seq<u8>, s: int, n: nat)
    requires
        1 <= s <= b.len(),
    ensures
        bulks_taken(b, s, n) matches Some(t) ==> t.complete ==> {
            &&& s <= t.next <= b.len()
            &&& t.err.len() == 0
        },
    decreases n,
{
    if n > 0 {
        lemma_dollar_line(b, s);
        if let Bulk::Whole { next, .. } = bulk_at(b, s) {
            let sum = next;
            lemma_wrapped_sum(sum, usize::MAX + 1);
            lemma_bulks_end(b, next, (n - 1) as nat);
        }
    }
}

/// A complete request ends behind its start, inside the input.
pub(crate) proof fn lemma_multibulk_end(b: Seq<u8>, ni: int)
    requires
        0 <= ni,
    ensures
        multibulk_taken(b, ni) matches Some(t) ==> t.complete ==> {
            &&& ni < t.next <= b.len()
            &&& t.err.len() == 0
        },
{
    lemma_find_crlf(b, ni + 1);
    if let Some(lf) = find_crlf(b, ni + 1) {
        if ni + 1 <= lf - 1 {
            if let Some(n) = parsed_usize(b.subrange(ni + 1, lf - 1)) {
                lemma_bulks_end(b, lf + 1, n);
            }
        }
    }
}

proof fn lemma_error_line(detail: Seq<char>)
    ensures
        is_line(protocol_error(detail)),
{
    reveal_strlit("ERR Protocol error: ");
}

proof fn lemma_bulks_error_line(b: Seq<u8>, s: int, n: nat)
    requires
        bulks_taken(b, s, n) is Some,
    ensures
        is_line(bulks_taken(b, s, n)->0.err),
    decreases n,
{
    if n > 0 {
        match bulk_at(b, s) {
            Bulk::Whole { next, .. } => {
                lemma_bulks_error_line(b, next, (n - 1) as nat);
            },
            Bulk::NoDollar { .. } => {
                lemma_error_line(expected_dollar(b[s]));
            },
            Bulk::NoLength { .. } => {
                lemma_error_line("invalid bulk length"@);
            },
            _ => {},
        }
    }
}

/// A protocol error is one line of text.
pub(crate) proof fn lemma_multibulk_error_line(b: Seq<u8>, ni: int)
    requires
        multibulk_taken(b, ni) is Some,
    ensures
        is_line(multibulk_taken(b, ni)->0.err),
{
    if let Some(lf) = find_crlf(b, ni + 1) {
        match parsed_usize(b.subrange(ni + 1, lf - 1)) {
            None => {
                lemma_error_line("invalid multibulk length"@);
            },
            Some(n) => {
                lemma_bulks_error_line(b, lf + 1, n);
            },
        }
    }
}

/// The remainder of a sum that exceeds the modulus at most twice.
pub(crate) proof fn lemma_wrapped_sum(sum: int, modulus: int)
    requires
        0 < modulus,
        0 <= sum < 3 * modulus,
    ensures
        sum < modulus ==> sum % modulus == sum,
        modulus <= sum < 2 * modulus ==> sum % modulus == sum - modulus,
        2 * modulus <= sum ==> sum % modulus == sum - 2 * modulus,
{
    if sum < modulus {
        vstd::arithmetic::div_mod::lemma_fundamental_div_mod_converse(sum, modulus, 0, sum);
    } else if sum < 2 * modulus {
        vstd::arithmetic::div_mod::lemma_fundamental_div_mod_converse(
            sum,
            modulus,
            1,
            sum - modulus,
        );
    } else {
        vstd::arithmetic::div_mod::lemma_fundamental_div_mod_converse(
            sum,
            modulus,
            2,
            sum - 2 * modulus,
        );
    }
}

/// Finds the end of the line that `i` is in.
fn find_line(b: &Vec<u8>, i: usize) -> (r: Option<usize>)
    requires
        1 <= i,
    ensures
        match r {
            Some(lf) => find_crlf(b@, i as int) == Some(lf as int) && i <= lf < b.len(),
            None => find_crlf(b@, i as int) is None,
        },
{
    let mut j: usize = i;
    while j < b.len()
        invariant
            1 <= i <= j,
            find_crlf(b@, i as int) == find_crlf(b@, j as int),
        decreases b.len() - j,
    {
        if b[j - 1] == CR && b[j] == LF {
            return Some(j);
        }
        j = j + 1;
    }
    None
}

fn protocol_error_message(detail: String) -> (r: String)
    ensures
        r@ == protocol_error(detail@),
        r@.len() > 0,
{
    let mut message = "ERR Protocol error: ".to_string();
    message.append(safe_line_from_string(detail).as_str());
    proof {
        reveal_strlit("ERR Protocol error: ");
    }
    message
}

fn expected_dollar_message(b: u8) -> (r: String)
    ensures
        r@ == protocol_error(expected_dollar(b)),
{
    let mut detail = "expected '$', got '".to_string();
    detail.push(b as char);
    detail.append("'");
    protocol_error_message(detail)
}

/// Takes the multibulk request at `ni`. Returns nothing where a length reaches
/// past the end of the address space, or where a bare line end stands at `ni`.
pub fn try_take_multibulk_args(input: &Vec<u8>, ni: usize) -> (r: Option<
    (Vec<Vec<u8>>, String, usize, bool),
>)
    requires
        ni < usize::MAX,
    ensures
        match r {
            Some(taken) => multibulk_taken(input@, ni as int) matches Some(t) && stands_for(
                taken,
                t,
            ),
            None => multibulk_taken(input@, ni as int) is None,
        },
{
    let mut args: Vec<Vec<u8>> = Vec::new();
    assert(views(args@) =~= Seq::empty());
    let header: usize = match find_line(input, ni + 1) {
        None => {
            let next: usize = if ni + 1 < input.len() {
                input.len()
            } else {
                ni + 1
            };
            return Some((args, String::default(), next, false));
        },
        Some(lf) => lf,
    };
    if header - 1 < ni + 1 {
        return None;
    }
    let nargs: usize = match parse_usize(
        vstd::slice::slice_subrange(input.as_slice(), ni + 1, header - 1),
    ) {
        None => {
            let err = protocol_error_message("invalid multibulk length".to_string());
            return Some((args, err, header, false));
        },
        Some(n) => n,
    };
    let mut i: usize = header + 1;
    let mut left: usize = nargs;
    let ghost whole = bulks_taken(input@, i as int, nargs as nat);
    assert(whole =~= after_args(views(args@), bulks_taken(input@, i as int, left as nat)));
    while left > 0
        invariant
            1 <= i <= input.len(),
            whole == after_args(views(args@), bulks_taken(input@, i as int, left as nat)),
            multibulk_taken(input@, ni as int) == whole,
        decreases left,
    {
        let s: usize = i;
        proof {
            lemma_dollar_line(input@, s as int);
        }
        let lf: usize = match find_line(input, s) {
            None => {
                return Some((args, String::default(), input.len(), false));
            },
            Some(lf) => lf,
        };
        if input[s] != DOLLAR {
            return Some((args, expected_dollar_message(input[s]), lf, false));
        }
        let nbytes: usize = match parse_usize(
            vstd::slice::slice_subrange(input.as_slice(), s + 1, lf - 1),
        ) {
            None => {
                let err = protocol_error_message("invalid bulk length".to_string());
                return Some((args, err, lf, false));
            },
            Some(n) => n,
        };
        let needed: usize = (lf + 1).wrapping_add(nbytes).wrapping_add(2);
        proof {
            lemma_wrapped_sum(lf + 1 + nbytes + 2, usize::MAX + 1);
        }
        if input.len() < needed {
            return Some((args, String::default(), lf, false));
        }
        if nbytes > usize::MAX - (lf + 1) || 2 > usize::MAX - (lf + 1 + nbytes) {
            return None;
        }
        let ghost before = views(args@);
        let arg = copy_range(input.as_slice(), lf + 1, lf + 1 + nbytes);
        let ghost value = arg@;
        args.push(arg);
        i = needed;
        left = left - 1;
        proof {
            let rest = bulks_taken(input@, i as int, left as nat);
            assert(views(args@) =~= before + seq![value]);
            assert(after_args(before, after_args(seq![value], rest)) =~= after_args(
                views(args@),
                rest,
            ));
        }
    }
    Some((args, String::default(), i, true))
}

/// Takes the multibulk request at `ni`: its arguments, an error or nothing, where
/// reading stopped, and whether the request was complete.
pub fn redcon_take_multibulk_args(input: &Vec<u8>, ni: usize) -> (r: (
    Vec<Vec<u8>>,
    String,
    usize,
    bool,
))
    requires
        ni < usize::MAX,
        multibulk_taken(input@, ni as int) is Some,
    ensures
        stands_for(r, multibulk_taken(input@, ni as int)->0),
{
    try_take_multibulk_args(input, ni).unwrap()
}

} // verus!
