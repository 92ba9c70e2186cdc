//! The two directions of a connection that many callers share: requests are
//! written in the order they are queued, and each response is handed to the
//! caller that has waited longest.

use super::error;
use super::error::{answer, Error};
use super::link::{Fatal, Lost};
use crate::buf;
use crate::io;
use crate::io::{FrameReader, FrameTooLarge, FrameWriter, Layout, BUF};
use crate::wire;
use crate::wire::{Op, Status, HEADER_LEN, MAX_FRAME};
use bytes::{Bytes, BytesMut};
use vstd::prelude::*;

verus! {

/// A flush this small waits one scheduler turn for more requests to coalesce; a
/// larger one goes out at once.
pub const YIELD_BELOW: usize = 16384;

/// Request bodies below this are copied into the buffer: they were just encoded
/// and are hot.
pub const INLINE_REQUEST: usize = 4096;

/// What a reader does next.
#[derive(Debug)]
pub enum Next {
    /// Nothing complete is there: read on.
    More,
    /// Hand this to the caller that has waited longest.
    Reply(Result<(Status, Bytes), Error>),
    /// Hand this to the caller that has waited longest, and end the connection.
    Last(Result<(Status, Bytes), Error>, Lost),
    /// End the connection.
    Stop(Lost),
}

/// Whether the protocol has no status for `tag`.
pub open spec fn unknown(tag: u8) -> bool {
    forall|s: Status| #[trigger] s.byte() != tag
}

/// Whether `r` is what a reader does with `input`, some caller waiting or none,
/// with `rest` left of the input.
pub open spec fn reads(input: Seq<u8>, waiting: bool, r: Next, rest: Seq<u8>) -> bool {
    match io::next_frame(MAX_FRAME as nat, input) {
        Ok(None) => r is More && rest == input,
        Ok(Some(((tag, body), after))) => rest == after && if !waiting {
            r == Next::Stop(Lost::Fatal(Fatal::Desync))
        } else if unknown(tag) {
            r matches Next::Last(a, lost) && error::answers(a, tag, body) && lost == Lost::Fatal(
                Fatal::InvalidStatus(tag),
            )
        } else {
            r matches Next::Reply(a) && error::answers(a, tag, body)
        },
        Err(n) => rest == input && r == if waiting {
            Next::Last(Err(Error::ResponseTooLarge(n as usize)), Lost::Transient)
        } else {
            Next::Stop(Lost::Transient)
        },
    }
}

/// The responses that are handed to callers, in the order in which they are,
/// when `waiting` callers wait and `input` is read.
pub open spec fn handed_out(input: Seq<u8>, waiting: nat) -> Seq<(u8, Seq<u8>)>
    decreases input.len(),
{
    match io::next_frame(MAX_FRAME as nat, input) {
        Ok(Some((f, rest))) => if waiting == 0 {
            Seq::empty()
        } else if unknown(f.0) {
            seq![f]
        } else {
            seq![f] + handed_out(rest, (waiting - 1) as nat)
        },
        _ => Seq::empty(),
    }
}

/// Reads responses and hands each to the caller that has waited longest.
pub struct Replies {
    reader: FrameReader,
}

impl View for Replies {
    type V = Seq<u8>;

    /// The input that has not been handed out yet.
    closed spec fn view(&self) -> Seq<u8> {
        self.reader@
    }
}

impl Replies {
    pub closed spec fn wf(&self) -> bool {
        self.reader.wf() && self.reader.limit() == MAX_FRAME
    }

    pub fn new() -> (r: Self)
        ensures
            r.wf(),
            r@ == Seq::<u8>::empty(),
    {
        Replies { reader: FrameReader::new(MAX_FRAME) }
    }

    /// The buffer to read more input into, with room in it.
    pub fn prepare(&mut self) -> (b: &mut BytesMut)
        requires
            old(self).wf(),
            old(self)@.len() + BUF <= buf::MAX_LEN,
        ensures
            buf::mut_seq(*b) == old(self)@,
            final(self).wf(),
            final(self)@ == buf::mut_seq(*final(b)),
    {
        self.reader.prepare()
    }

    /// What to do with the input that is there. `waiting` says whether any
    /// caller waits. A request is queued for an answer before it is written, so
    /// a response with no caller waiting is unsolicited: the stream is
    /// desynchronised and matching can't be trusted. One longer than the limit
    /// is reported to its caller instead of a bare `Closed`; the fault is the
    /// client's limit, not the protocol, so the next call may reconnect.
    pub fn next(&mut self, waiting: bool) -> (r: Next)
        requires
            old(self).wf(),
        ensures
            final(self).wf(),
            reads(old(self)@, waiting, r, final(self)@),
    {
        match self.reader.next_buffered_owned() {
            Ok(Some((tag, body))) => {
                if !waiting {
                    return Next::Stop(Lost::Fatal(Fatal::Desync));
                }
                let known = Status::from_u8(tag).is_some();
                let a = answer(tag, body);
                if known {
                    Next::Reply(a)
                } else {
                    Next::Last(a, Lost::Fatal(Fatal::InvalidStatus(tag)))
                }
            },
            Ok(None) => Next::More,
            Err(FrameTooLarge(n)) => if waiting {
                Next::Last(Err(Error::ResponseTooLarge(n)), Lost::Transient)
            } else {
                Next::Stop(Lost::Transient)
            },
        }
    }
}

/// Requests on their way out.
pub struct Requests {
    out: FrameWriter,
    yielded: bool,
    queued: usize,
}

impl View for Requests {
    type V = Seq<u8>;

    /// What is to be written.
    closed spec fn view(&self) -> Seq<u8> {
        self.out@
    }
}

impl Requests {
    pub closed spec fn wf(&self) -> bool {
        self.out.wf() && self.queued <= self.out@.len() && self.out@.len() <= buf::MAX_LEN
    }

    /// Bytes of request bodies queued since the last flush.
    pub closed spec fn bodies(&self) -> nat {
        self.queued as nat
    }

    /// Whether this flush has waited for more requests already.
    pub closed spec fn waited(&self) -> bool {
        self.yielded
    }

    /// How what is to be written lies in memory.
    pub closed spec fn layout(&self) -> Layout {
        self.out.layout()
    }

    /// Bodies shorter than this are copied into the buffer.
    pub closed spec fn limit(&self) -> nat {
        self.out.limit()
    }

    pub fn new() -> (r: Self)
        ensures
            r.wf(),
            r@ == Seq::<u8>::empty(),
            r.bodies() == 0,
            !r.waited(),
            r.layout() == Layout::nothing(),
            r.limit() == INLINE_REQUEST,
    {
        Requests {
            out: FrameWriter::with_inline_limit(INLINE_REQUEST),
            yielded: false,
            queued: 0,
        }
    }

    /// Queue one request behind those queued before.
    pub fn queue(&mut self, op: Op, body: Bytes)
        requires
            old(self).wf(),
            buf::bytes_seq(body).len() <= u32::MAX,
            old(self)@.len() + HEADER_LEN + buf::bytes_seq(body).len() <= buf::MAX_LEN,
        ensures
            final(self).wf(),
            final(self)@ == old(self)@ + wire::frame_bytes((op.byte(), buf::bytes_seq(body))),
            final(self).bodies() == old(self).bodies() + buf::bytes_seq(body).len(),
            final(self).waited() == old(self).waited(),
            final(self).layout() == old(self).layout().copied(
                wire::header_bytes(op.byte(), buf::bytes_seq(body).len()),
            ).queued(buf::bytes_seq(body), old(self).limit()),
            final(self).limit() == old(self).limit(),
    {
        let n: usize = body.len();
        self.out.frame(op.as_u8(), body);
        self.queued = self.queued + n;
    }

    /// Whether to wait one scheduler turn for more requests, now that no more
    /// are queued: the callers woken by the last replies are about to queue
    /// their next ones. Only once a flush, and only while it is small: large
    /// bodies already fill a packet each, and holding them back only delays the
    /// server.
    pub fn wait_for_more(&mut self) -> (r: bool)
        requires
            old(self).wf(),
        ensures
            final(self).wf(),
            final(self)@ == old(self)@,
            r == (!old(self).waited() && old(self).bodies() < YIELD_BELOW),
            r == worth_a_turn(old(self).waited(), old(self).bodies()),
            final(self).bodies() == old(self).bodies(),
            final(self).waited() == (old(self).waited() || r),
            final(self).layout() == old(self).layout(),
            final(self).limit() == old(self).limit(),
    {
        let r = !self.yielded && self.queued < YIELD_BELOW;
        if r {
            self.yielded = true;
        }
        r
    }

    /// Queue the ping that keeps a quiet connection open. Nobody waits for its
    /// answer, which goes through the same queue as every other.
    pub fn ping(&mut self)
        requires
            old(self).wf(),
            old(self)@.len() + HEADER_LEN <= buf::MAX_LEN,
        ensures
            final(self).wf(),
            final(self)@ == old(self)@ + wire::frame_bytes((Op::Ping.byte(), Seq::empty())),
            final(self).bodies() == old(self).bodies(),
            final(self).waited() == old(self).waited(),
            final(self).layout() == old(self).layout().copied(
                wire::header_bytes(Op::Ping.byte(), 0),
            ).queued(Seq::empty(), old(self).limit()),
            final(self).limit() == old(self).limit(),
    {
        self.out.frame(Op::Ping.as_u8(), Bytes::new());
    }

    /// What is to be written; the flush after it starts afresh.
    pub fn output(&mut self) -> (w: &mut FrameWriter)
        requires
            old(self).wf(),
        ensures
            w.wf(),
            w@ == old(self)@,
            final(self)@ == final(w)@,
            final(w).wf() && final(w)@.len() <= buf::MAX_LEN ==> final(self).wf(),
            final(self).bodies() == 0,
            !final(self).waited(),
            w.layout() == old(self).layout(),
            w.limit() == old(self).limit(),
            final(self).layout() == final(w).layout(),
            final(self).limit() == final(w).limit(),
    {
        self.yielded = false;
        self.queued = 0;
        &mut self.out
    }
}

// Laws

/// Responses within the limit and with statuses the protocol has are handed to
/// the callers in the order in which they were sent, one to each.
pub proof fn responses_go_to_callers_in_order(fs: Seq<(u8, Seq<u8>)>, waiting: nat)
    requires
        fs.len() <= waiting,
        forall|i: int|
            0 <= i < fs.len() ==> (#[trigger] fs[i]).1.len() <= MAX_FRAME && !unknown(fs[i].0),
    ensures
        handed_out(wire::frames_bytes(fs), waiting) == fs,
    decreases fs.len(),
{
    if fs.len() == 0 {
        assert(fs =~= Seq::empty());
    } else {
        let tail = fs.drop_first();
        assert(fs =~= seq![fs[0]] + tail);
        wire::frames_bytes_front(fs[0], tail);
        io::written_frame_is_read(MAX_FRAME as nat, fs[0], wire::frames_bytes(tail));
        responses_go_to_callers_in_order(tail, (waiting - 1) as nat);
        assert(seq![fs[0]] + tail =~= fs);
    }
}

/// No caller is handed a response that it did not ask for: at most one each,
/// and one more ends the connection for good.
pub proof fn an_unsolicited_response_ends_the_connection(
    f: (u8, Seq<u8>),
    after: Seq<u8>,
    waiting: nat,
    r: Next,
    rest: Seq<u8>,
)
    requires
        f.1.len() <= MAX_FRAME,
        reads(wire::frame_bytes(f) + after, false, r, rest),
    ensures
        r == Next::Stop(Lost::Fatal(Fatal::Desync)),
        handed_out(wire::frame_bytes(f) + after, waiting).len() <= waiting,
{
    io::written_frame_is_read(MAX_FRAME as nat, f, after);
    handed_out_len(wire::frame_bytes(f) + after, waiting);
}

proof fn handed_out_len(input: Seq<u8>, waiting: nat)
    ensures
        handed_out(input, waiting).len() <= waiting,
    decreases input.len(),
{
    match io::next_frame(MAX_FRAME as nat, input) {
        Ok(Some((f, rest))) => {
            if waiting > 0 && !unknown(f.0) {
                handed_out_len(rest, (waiting - 1) as nat);
            }
        },
        _ => {},
    }
}

/// What a reader does is to hand out the responses, one by one and in order,
/// each to the caller that has waited longest: it reads on where none is
/// complete, and ends the connection behind a status that it does not know, on a
/// response that is too long, and on one that nobody waits for.
pub proof fn a_reader_hands_out_the_next_response(
    input: Seq<u8>,
    waiting: nat,
    r: Next,
    rest: Seq<u8>,
)
    requires
        reads(input, waiting > 0, r, rest),
    ensures
        match r {
            Next::More => rest == input && handed_out(input, waiting).len() == 0,
            Next::Reply(a) => {
                let all = handed_out(input, waiting);
                &&& waiting > 0
                &&& all.len() > 0
                &&& error::answers(a, all[0].0, all[0].1)
                &&& all[0].0 <= 5
                &&& all == seq![all[0]] + handed_out(rest, (waiting - 1) as nat)
            },
            Next::Last(a, lost) => {
                let all = handed_out(input, waiting);
                &&& waiting > 0
                &&& all.len() <= 1
                &&& all.len() == 1 ==> all[0].0 > 5 && error::answers(a, all[0].0, all[0].1)
                    && lost == Lost::Fatal(Fatal::InvalidStatus(all[0].0))
                &&& all.len() == 0 ==> (a matches Err(Error::ResponseTooLarge(_))) && lost
                    == Lost::Transient
            },
            Next::Stop(_) => waiting == 0 && handed_out(input, waiting).len() == 0,
        },
{
    wire::tags_are_those_of_the_protocol();
    match io::next_frame(MAX_FRAME as nat, input) {
        Ok(Some((f, after))) => {
            known_bytes(f.0);
            if waiting > 0 && !unknown(f.0) {
                let all = handed_out(input, waiting);
                assert(all[0] == f);
                assert(all =~= seq![all[0]] + handed_out(after, (waiting - 1) as nat));
            }
        },
        _ => {},
    }
}

proof fn known_bytes(tag: u8)
    ensures
        unknown(tag) <==> tag > 5,
{
    wire::tags_are_those_of_the_protocol();
    if tag <= 5 {
        assert(Status::Success.byte() == 0 && Status::BadRequest.byte() == 1);
        assert(Status::UnknownOp.byte() == 2 && Status::TooLarge.byte() == 3);
        assert(Status::Unauthorized.byte() == 4 && Status::NotFound.byte() == 5);
    }
}

/// Whether a flush is held back for one scheduler turn.
pub open spec fn worth_a_turn(waited: bool, bodies: nat) -> bool {
    !waited && bodies < YIELD_BELOW
}

/// A flush is held back once at most, and only where its bodies are less than
/// 16 KiB together: with more behind it, it is no more likely to be.
pub proof fn a_flush_is_held_back_once(waited: bool, bodies: nat, more: nat)
    ensures
        !worth_a_turn(true, bodies),
        worth_a_turn(false, bodies) <==> bodies < 16384,
        worth_a_turn(waited, bodies + more) ==> worth_a_turn(waited, bodies),
{
}

} // verus!
