//! A connection: when to write, when to read, what to wait for, when to close.
//!
//! The socket itself is out of sight here. Whoever holds it carries out an
//! [`Action`] and reports what came of it. The store is needed only to run
//! requests.

use crate::bytes::append_bytes;
use crate::reply::{lemma_error_reply_sent, protocol_error_bytes, protocol_error_reply};
use crate::request::{batch, request_views};
use crate::session::{
    answered, ends, handled, keys_after, lemma_none_answered, run_requests, served, take_requests,
};
use crate::store::Store;
use vstd::prelude::*;

verus! {

/// What a connection has still to be read, to be sent, and to do.
pub struct Conn {
    /// Received, and not yet handled.
    pub input: Vec<u8>,
    /// To be sent.
    pub output: Vec<u8>,
    /// Whether to close the connection once the output has been sent.
    pub close: bool,
    /// Whether the socket is watched for being writable.
    pub reg_write: bool,
}

/// What a socket is to be watched for.
#[derive(Debug, PartialEq, Eq, Clone, Copy)]
pub enum Interest {
    Readable,
    ReadableWritable,
}

/// What to do for a connection.
#[derive(Debug, PartialEq, Eq)]
pub enum Action {
    /// Write the output to the socket.
    Write,
    /// Read from the socket.
    Read,
    /// Run the requests on the store.
    Run { requests: Vec<Vec<Vec<u8>>> },
    /// Wait for the next event: watch the socket for something else from now on,
    /// or drop it.
    Finish { watch: Option<Interest>, drop: bool },
}

/// What came of a write.
pub enum Sent {
    /// So many bytes were accepted.
    Accepted(usize),
    /// The socket was not ready.
    Blocked,
    Failed,
}

/// What came of a read.
pub enum Received {
    /// These bytes came in; none at the end of the stream.
    Bytes(Vec<u8>),
    /// The socket was not ready.
    Blocked,
    Failed,
}

/// What is left of the output when `n` bytes of it were accepted.
pub open spec fn unsent(output: Seq<u8>, n: nat) -> Seq<u8> {
    if n < output.len() {
        output.skip(n as int)
    } else {
        Seq::empty()
    }
}

/// How an event ends: the socket is watched for being writable just while there
/// is output, and it is dropped if it failed, or if it is to be closed and
/// nothing is left to send.
pub open spec fn settled(conn: Conn, failed: bool) -> Action {
    Action::Finish {
        watch: if conn.output@.len() > 0 && !conn.reg_write {
            Some(Interest::ReadableWritable)
        } else if conn.output@.len() == 0 && conn.reg_write {
            Some(Interest::Readable)
        } else {
            None
        },
        drop: failed || (conn.output@.len() == 0 && conn.close),
    }
}

/// What follows when there may be output to send: it is written, or the event
/// ends.
pub open spec fn followed(conn: Conn) -> Action {
    if conn.output@.len() > 0 {
        Action::Write
    } else {
        settled(conn, false)
    }
}

/// What is received and run is what is handled: the replies to the requests, or
/// to input that breaks the protocol, are those that are owed for the input.
pub proof fn law_received_and_run(
    input: Seq<u8>,
    keys: Map<Seq<u8>, Seq<u8>>,
    out: Seq<u8>,
    close: bool,
    rest: Seq<u8>,
    after: Map<Seq<u8>, Seq<u8>>,
)
    requires
        batch(input, 0) matches Some(b) && rest == input.skip(b.consumed) && if b.err.len() > 0 {
            out == protocol_error_bytes(b.err) && close && after == keys
        } else if b.requests.len() > 0 {
            &&& answered(b.requests, keys, out)
            &&& close == ends(b.requests)
            &&& after == keys_after(b.requests, keys, served(b.requests))
        } else {
            out == Seq::<u8>::empty() && !close && after == keys
        },
    ensures
        handled(input, keys, out, close, rest, after),
{
    let b = batch(input, 0)->0;
    if b.err.len() == 0 && b.requests.len() == 0 {
        lemma_none_answered(b.requests, keys);
    }
}

/// Output is sent in order, and nothing of it is lost: what was accepted and what
/// is left make up the whole.
pub proof fn law_output_is_kept(output: Seq<u8>, n: nat)
    ensures
        n <= output.len() ==> output == output.take(n as int) + unsent(output, n),
        n >= output.len() ==> unsent(output, n) == Seq::<u8>::empty(),
{
    if n <= output.len() {
        assert(output =~= output.take(n as int) + unsent(output, n));
    }
}

/// At the end of an event the socket is watched for being writable just while
/// there is output, and what it is watched for is changed only where it has to
/// be.
pub proof fn law_watched_while_output(conn: Conn, failed: bool)
    ensures
        settled(conn, failed) matches Action::Finish { watch, drop } && {
            let watched = match watch {
                Some(Interest::ReadableWritable) => true,
                Some(Interest::Readable) => false,
                None => conn.reg_write,
            };
            &&& watched == (conn.output@.len() > 0)
            &&& watch is Some ==> watched != conn.reg_write
            &&& failed ==> drop
            &&& conn.output@.len() == 0 && conn.close ==> drop
        },
{
}

/// Output is written before anything else is done.
pub proof fn law_output_first(conn: Conn)
    ensures
        followed(conn) is Write <==> conn.output@.len() > 0,
        followed(conn) !is Write ==> followed(conn) == settled(conn, false),
{
}

/// A socket that has not failed is dropped only when all output has been sent.
pub proof fn law_close_after_output(conn: Conn)
    ensures
        settled(conn, false) matches Action::Finish { drop, .. } && (drop ==> conn.output@.len()
            == 0 && conn.close),
{
}

impl Conn {
    /// A connection that has just been accepted.
    pub fn new() -> (conn: Conn)
        ensures
            conn.input@ == Seq::<u8>::empty(),
            conn.output@ == Seq::<u8>::empty(),
            !conn.close,
            !conn.reg_write,
    {
        Conn { input: Vec::new(), output: Vec::new(), close: false, reg_write: false }
    }

    /// Settles what to wait for at the end of an event.
    fn settle(&mut self, failed: bool) -> (action: Action)
        ensures
            action == settled(*old(self), failed),
            final(self).reg_write == (old(self).output@.len() > 0),
            final(self).input@ == old(self).input@,
            final(self).output@ == old(self).output@,
            final(self).close == old(self).close,
    {
        let mut watch: Option<Interest> = None;
        let mut drop: bool = failed;
        if self.output.len() > 0 {
            if !self.reg_write {
                self.reg_write = true;
                watch = Some(Interest::ReadableWritable);
            }
        } else {
            if self.reg_write {
                self.reg_write = false;
                watch = Some(Interest::Readable);
            }
            if !drop {
                drop = self.close;
            }
        }
        Action::Finish { watch, drop }
    }

    /// The socket is ready: output goes first, and a connection that is to be
    /// closed is not read from any more.
    pub fn ready(&mut self) -> (action: Action)
        ensures
            action == if old(self).output@.len() > 0 {
                Action::Write
            } else if !old(self).close {
                Action::Read
            } else {
                settled(*old(self), false)
            },
            action is Finish ==> !final(self).reg_write,
            action !is Finish ==> final(self).reg_write == old(self).reg_write,
            final(self).input@ == old(self).input@,
            final(self).output@ == old(self).output@,
            final(self).close == old(self).close,
    {
        if self.output.len() > 0 {
            Action::Write
        } else if !self.close {
            Action::Read
        } else {
            self.settle(false)
        }
    }

    /// The output was written, as far as it was.
    pub fn sent(&mut self, outcome: Sent) -> (action: Action)
        ensures
            final(self).output@ == match outcome {
                Sent::Accepted(n) => unsent(old(self).output@, n as nat),
                _ => old(self).output@,
            },
            final(self).input@ == old(self).input@,
            final(self).close == old(self).close,
            final(self).reg_write == (final(self).output@.len() > 0),
            action == settled(
                Conn { reg_write: old(self).reg_write, ..*final(self) },
                outcome is Failed,
            ),
    {
        let mut failed: bool = false;
        match outcome {
            Sent::Accepted(n) => {
                if n < self.output.len() {
                    let rest = self.output.split_off(n);
                    self.output = rest;
                } else {
                    self.output = Vec::new();
                }
                assert(self.output@ =~= unsent(old(self).output@, n as nat));
            },
            Sent::Blocked => {},
            Sent::Failed => {
                failed = true;
            },
        }
        self.settle(failed)
    }

    /// Goes on with the output, if there is any.
    fn follow(&mut self) -> (action: Action)
        ensures
            action == followed(*old(self)),
            action is Write ==> final(self).reg_write == old(self).reg_write,
            action !is Write ==> !final(self).reg_write,
            final(self).input@ == old(self).input@,
            final(self).output@ == old(self).output@,
            final(self).close == old(self).close,
    {
        if self.output.len() > 0 {
            Action::Write
        } else {
            self.settle(false)
        }
    }

    /// Something was read, or nothing. The complete requests are taken out of the
    /// input, and are to be run next; input that breaks the protocol is answered
    /// at once, and its requests are not run. Returns nothing, with the connection
    /// unchanged but for the bytes that came in, where the input cannot be read
    /// any further.
    pub fn received(&mut self, outcome: Received) -> (r: Option<Action>)
        ensures
            match outcome {
                Received::Bytes(bytes) if bytes@.len() > 0 => {
                    let input = old(self).input@ + bytes@;
                    match r {
                        Some(action) => {
                            &&& batch(input, 0) matches Some(b)
                            &&& final(self).input@ == input.skip(b.consumed)
                            &&& if b.err.len() > 0 {
                                &&& action is Write
                                &&& final(self).output@ == old(self).output@
                                    + protocol_error_bytes(b.err)
                                &&& final(self).close
                                &&& final(self).reg_write == old(self).reg_write
                            } else if b.requests.len() > 0 {
                                &&& action matches Action::Run { requests }
                                &&& request_views(requests@) == b.requests
                                &&& forall|k: int|
                                    0 <= k < requests.len() ==> (#[trigger] requests[k]).len() > 0
                                &&& final(self).output@ == old(self).output@
                                &&& final(self).close == old(self).close
                                &&& final(self).reg_write == old(self).reg_write
                            } else {
                                &&& action == followed(
                                    Conn { reg_write: old(self).reg_write, ..*final(self) },
                                )
                                &&& final(self).output@ == old(self).output@
                                &&& !final(self).close
                                &&& final(self).reg_write == (action is Write
                                    && old(self).reg_write)
                            }
                        },
                        None => {
                            &&& batch(input, 0) is None
                            &&& final(self).input@ == input
                            &&& final(self).output@ == old(self).output@
                            &&& final(self).close == old(self).close
                            &&& final(self).reg_write == old(self).reg_write
                        },
                    }
                },
                _ => {
                    &&& r == Some(settled(*old(self), outcome !is Blocked))
                    &&& final(self).reg_write == (old(self).output@.len() > 0)
                    &&& final(self).input@ == old(self).input@
                    &&& final(self).output@ == old(self).output@
                    &&& final(self).close == old(self).close
                },
            },
    {
        match outcome {
            Received::Bytes(bytes) => {
                if bytes.len() == 0 {
                    return Some(self.settle(true));
                }
                append_bytes(&mut self.input, bytes.as_slice());
                let (requests, err) = match take_requests(&mut self.input) {
                    None => {
                        return None;
                    },
                    Some(taken) => taken,
                };
                if !err.as_str().is_empty() {
                    append_bytes(&mut self.output, protocol_error_reply(err.as_str()).as_slice());
                    self.close = true;
                    proof {
                        lemma_error_reply_sent(err@);
                    }
                    Some(Action::Write)
                } else if requests.len() > 0 {
                    Some(Action::Run { requests })
                } else {
                    self.close = false;
                    Some(self.follow())
                }
            },
            Received::Blocked => Some(self.settle(false)),
            Received::Failed => Some(self.settle(true)),
        }
    }

    /// Runs the requests that were received, up to one that ends the connection.
    pub fn run(&mut self, requests: &Vec<Vec<Vec<u8>>>, store: &mut Store) -> (action: Action)
        requires
            forall|k: int| 0 <= k < requests.len() ==> (#[trigger] requests[k]).len() > 0,
        ensures
            exists|out: Seq<u8>|
                {
                    &&& final(self).output@ == old(self).output@ + out
                    &&& #[trigger] answered(request_views(requests@), old(store)@, out)
                },
            final(self).close == ends(request_views(requests@)),
            final(store)@ == keys_after(
                request_views(requests@),
                old(store)@,
                served(request_views(requests@)),
            ),
            final(self).input@ == old(self).input@,
            action == followed(Conn { reg_write: old(self).reg_write, ..*final(self) }),
            final(self).reg_write == (action is Write && old(self).reg_write),
    {
        let (output, close) = run_requests(requests, store);
        append_bytes(&mut self.output, output.as_slice());
        self.close = close;
        assert(answered(request_views(requests@), old(store)@, output@));
        self.follow()
    }

    /// The connection was opened, and is greeted with `output`. Returns what to
    /// watch the socket for; nothing if it is to be dropped.
    pub fn opened(&mut self, output: Vec<u8>, close: bool) -> (watch: Option<Interest>)
        ensures
            final(self).input@ == old(self).input@,
            if output@.len() > 0 {
                &&& watch == Some(Interest::ReadableWritable)
                &&& final(self).output@ == output@
                &&& final(self).close == close
                &&& final(self).reg_write
            } else {
                &&& watch == if close {
                    None
                } else {
                    Some(Interest::Readable)
                }
                &&& final(self).output@ == old(self).output@
                &&& final(self).close == old(self).close
                &&& final(self).reg_write == old(self).reg_write
            },
    {
        if output.len() > 0 {
            self.reg_write = true;
            self.close = close;
            self.output = output;
            Some(Interest::ReadableWritable)
        } else if !close {
            Some(Interest::Readable)
        } else {
            None
        }
    }
}

} // verus!
