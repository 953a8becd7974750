//! How the server is set up, and how work is shared out among its threads.

use crate::bytes::{decimal, decimal_bytes, law_decimal_digits};
use vstd::prelude::*;
use vstd::string::*;
use vstd::utf8::encode_utf8;

verus! {

/// The decimal representation of a number, as text.
pub open spec fn decimal_text(n: nat) -> Seq<char> {
    decimal(n).map_values(|b: u8| b as char)
}

/// The text of a number is that of its digits.
pub proof fn law_decimal_text(n: nat)
    ensures
        encode_utf8(decimal_text(n)) == decimal(n),
{
    let text = decimal_text(n);
    law_decimal_digits(n);
    assert forall|i: int| 0 <= i < text.len() implies (#[trigger] text[i] as nat) < 128 by {
        assert(text[i] == decimal(n)[i] as char);
        assert(decimal(n)[i] <= 57);
    }
    vstd::utf8::is_ascii_chars_encode_utf8(text);
    assert forall|i: int| 0 <= i < text.len() implies #[trigger] encode_utf8(text)[i]
        == decimal(n)[i] by {
        assert(text[i] == decimal(n)[i] as char);
        assert(decimal(n)[i] <= 57);
        assert(text[i] as u8 == encode_utf8(text)[i]);
    }
    assert(encode_utf8(text) =~= decimal(n));
}

fn append_decimal(out: &mut String, n: usize)
    ensures
        final(out)@ == old(out)@ + decimal_text(n as nat),
{
    let digits = decimal_bytes(n);
    let mut i: usize = 0;
    while i < digits.len()
        invariant
            i <= digits.len(),
            digits@ == decimal(n as nat),
            out@ == old(out)@ + decimal_text(n as nat).take(i as int),
        decreases digits.len() - i,
    {
        out.push(digits[i] as char);
        i = i + 1;
        assert(out@ =~= old(out)@ + decimal_text(n as nat).take(i as int));
    }
    assert(decimal_text(n as nat).take(digits.len() as int) =~= decimal_text(n as nat));
}

/// The address to listen on: `port`, on all interfaces.
pub fn listen_address(port: usize) -> (r: String)
    ensures
        r@ == "0.0.0.0:"@ + decimal_text(port as nat),
{
    let mut address = "0.0.0.0:".to_string();
    append_decimal(&mut address, port);
    address
}

/// What is said when the server has started.
pub fn started_line(port: usize, threads: usize) -> (r: String)
    ensures
        r@ == "Server started on port "@ + decimal_text(port as nat) + " using "@ + decimal_text(
            threads as nat,
        ) + if threads == 1 {
            " thread"@
        } else {
            " threads"@
        },
{
    let mut said = "Server started on port ".to_string();
    append_decimal(&mut said, port);
    said.append(" using ");
    append_decimal(&mut said, threads);
    if threads == 1 {
        said.append(" thread");
    } else {
        said.append(" threads");
    }
    said
}

/// The number of threads to use when `wanted` are asked for: at least one.
pub fn thread_count(wanted: usize) -> (threads: usize)
    ensures
        threads == if wanted == 0 { 1 } else { wanted as int },
{
    if wanted == 0 {
        1
    } else {
        wanted
    }
}

/// The thread that serves a connection.
pub open spec fn thread_of(id: int, threads: int) -> int {
    id % threads
}

/// The threads take turns: as many connections in a row as there are threads are
/// served by different ones, and the connection after them by the same one as
/// the first.
pub proof fn law_threads_take_turns(id: int, later: int, threads: int)
    requires
        0 <= id < later < id + threads,
    ensures
        0 <= thread_of(id, threads) < threads,
        thread_of(later, threads) != thread_of(id, threads),
        thread_of(id + threads, threads) == thread_of(id, threads),
        later == id + 1 && thread_of(later, threads) != 0 ==> thread_of(later, threads)
            == thread_of(id, threads) + 1,
        id < threads ==> thread_of(id, threads) == id,
{
    let q = id / threads;
    let r = id % threads;
    let gap = later - id;
    vstd::arithmetic::div_mod::lemma_fundamental_div_mod(id, threads);
    vstd::arithmetic::div_mod::lemma_mod_pos_bound(id, threads);
    vstd::arithmetic::mul::lemma_mul_is_commutative(q, threads);
    vstd::arithmetic::mul::lemma_mul_is_distributive_add_other_way(threads, q, 1);
    vstd::arithmetic::div_mod::lemma_fundamental_div_mod_converse(id + threads, threads, q + 1, r);
    if r + gap < threads {
        vstd::arithmetic::div_mod::lemma_fundamental_div_mod_converse(
            later,
            threads,
            q,
            r + gap,
        );
    } else {
        vstd::arithmetic::div_mod::lemma_fundamental_div_mod_converse(
            later,
            threads,
            q + 1,
            r + gap - threads,
        );
    }
    if id < threads {
        vstd::arithmetic::div_mod::lemma_small_mod(id as nat, threads as nat);
    }
}

/// The number of the connection that follows connection `id`, and the thread
/// that serves it: the threads take turns.
pub fn next_connection(id: usize, threads: usize) -> (r: (usize, usize))
    requires
        id < usize::MAX,
        threads > 0,
    ensures
        r.0 == id + 1,
        r.1 == (id + 1) % threads as int,
        r.1 == thread_of(r.0 as int, threads as int),
        r.1 < threads,
{
    let next: usize = id + 1;
    (next, next % threads)
}

} // verus!
