//! Zero-copy framing over any byte stream, shared by server and client.
//!
//! [`FrameReader`] accumulates input in one buffer and hands out frame bodies
//! as slices of it. [`FrameWriter`] coalesces small frames into one buffer,
//! queues large bodies by reference, and hands everything out in pieces for
//! vectored writes, so a pipelined burst costs one syscall each way.

use crate::buf;
use crate::text;
use crate::wire;
use crate::wire::{encode_header, to_le_bytes, HEADER_LEN};
use bytes::{Bytes, BytesMut};
use vstd::prelude::*;
use vstd::slice::slice_subrange;

verus! {

/// Read/write buffer size and the granularity of buffer growth.
pub const BUF: usize = 65536;

/// Bodies at or above this size are written by reference instead of copied.
pub const INLINE_BODY: usize = 1024;

/// Most slices handed to one vectored write.
pub const MAX_IOV: usize = 64;

// Reading

/// A frame announced a body of this many bytes, more than is accepted.
#[derive(Debug, Clone, Copy, PartialEq, Eq, Structural)]
pub struct FrameTooLarge(pub usize);

impl FrameTooLarge {
    /// The message for the error.
    pub open spec fn text(self) -> Seq<char> {
        "frame body of "@ + text::decimal(self.0 as nat) + " bytes exceeds the limit"@
    }

    /// The message for the error.
    pub fn to_string(&self) -> (s: String)
        ensures
            s@ == self.text(),
    {
        let mut s = String::new();
        s.append("frame body of ");
        text::push_decimal(&mut s, self.0 as u64);
        s.append(" bytes exceeds the limit");
        assert(s@ =~= self.text());
        s
    }
}

/// What the bytes at the head of `input` amount to: a frame and what follows
/// it, the length of a frame longer than `max`, or nothing complete yet.
pub open spec fn next_frame(max: nat, input: Seq<u8>) -> Result<
    Option<((u8, Seq<u8>), Seq<u8>)>,
    nat,
> {
    if input.len() < HEADER_LEN {
        Ok(None)
    } else {
        let len = wire::from_le32(input.subrange(1, 5));
        let rest = input.skip(5);
        if len > max {
            Err(len)
        } else if rest.len() < len {
            Ok(None)
        } else {
            Ok(Some(((input[0], rest.take(len as int)), rest.skip(len as int))))
        }
    }
}

/// The frames that can be taken from `input`, and the input left after them.
pub open spec fn all_frames(max: nat, input: Seq<u8>) -> (Seq<(u8, Seq<u8>)>, Seq<u8>)
    decreases input.len(),
{
    match next_frame(max, input) {
        Ok(Some((f, rest))) => {
            let (fs, left) = all_frames(max, rest);
            (seq![f] + fs, left)
        },
        _ => (Seq::empty(), input),
    }
}

/// A frame that is within the limit reads back as it was written, whatever
/// follows it.
pub proof fn written_frame_is_read(max: nat, f: (u8, Seq<u8>), rest: Seq<u8>)
    requires
        f.1.len() <= max,
        f.1.len() <= u32::MAX,
    ensures
        next_frame(max, wire::frame_bytes(f) + rest) == Ok::<
            Option<((u8, Seq<u8>), Seq<u8>)>,
            nat,
        >(Some((f, rest))),
{
    wire::frame_reads_back(f, rest);
}

/// Frames that are within the limit read back as they were written, in order.
pub proof fn written_frames_are_read(max: nat, fs: Seq<(u8, Seq<u8>)>)
    requires
        wire::bodies_fit(fs),
        forall|i: int| 0 <= i < fs.len() ==> (#[trigger] fs[i]).1.len() <= max,
    ensures
        all_frames(max, wire::frames_bytes(fs)) == (fs, Seq::<u8>::empty()),
    decreases fs.len(),
{
    if fs.len() == 0 {
        assert(fs =~= Seq::empty());
    } else {
        let tail = fs.drop_first();
        assert(fs =~= seq![fs[0]] + tail);
        wire::frames_bytes_front(fs[0], tail);
        written_frame_is_read(max, fs[0], wire::frames_bytes(tail));
        written_frames_are_read(max, tail);
    }
}

/// More input changes neither a frame that is complete nor one that is refused.
pub proof fn more_input_keeps_a_verdict(max: nat, a: Seq<u8>, b: Seq<u8>)
    ensures
        match next_frame(max, a) {
            Ok(Some((f, rest))) => next_frame(max, a + b) == Ok::<
                Option<((u8, Seq<u8>), Seq<u8>)>,
                nat,
            >(Some((f, rest + b))),
            Err(n) => next_frame(max, a + b) == Err::<Option<((u8, Seq<u8>), Seq<u8>)>, nat>(n),
            Ok(None) => true,
        },
{
    if a.len() >= HEADER_LEN {
        assert((a + b).subrange(1, 5) =~= a.subrange(1, 5));
        assert((a + b).skip(5) =~= a.skip(5) + b);
        let len = wire::from_le32(a.subrange(1, 5)) as int;
        if a.skip(5).len() >= len {
            assert((a.skip(5) + b).take(len) =~= a.skip(5).take(len));
            assert((a.skip(5) + b).skip(len) =~= a.skip(5).skip(len) + b);
        }
    }
}

/// How input is cut into reads does not matter: taking what can be taken
/// before the rest arrives yields the frames of the whole.
pub proof fn reads_may_be_cut_anywhere(max: nat, a: Seq<u8>, b: Seq<u8>)
    ensures
        ({
            let (first, left) = all_frames(max, a);
            let (second, rest) = all_frames(max, left + b);
            all_frames(max, a + b) == (first + second, rest)
        }),
    decreases a.len(),
{
    more_input_keeps_a_verdict(max, a, b);
    let (first, left) = all_frames(max, a);
    let (second, rest) = all_frames(max, left + b);
    match next_frame(max, a) {
        Ok(Some((f, r))) => {
            reads_may_be_cut_anywhere(max, r, b);
            let (fs, _) = all_frames(max, r);
            assert((seq![f] + fs) + second =~= seq![f] + (fs + second));
        },
        _ => {
            assert(Seq::<(u8, Seq<u8>)>::empty() + second =~= second);
        },
    }
}

/// The frames taken as input arrives in `reads`, each time all that can be, and
/// the input left after them.
pub open spec fn taken_by_reads(max: nat, reads: Seq<Seq<u8>>) -> (Seq<(u8, Seq<u8>)>, Seq<u8>)
    decreases reads.len(),
{
    if reads.len() == 0 {
        (Seq::empty(), Seq::empty())
    } else {
        let (before, left) = taken_by_reads(max, reads.drop_last());
        let (now, rest) = all_frames(max, left + reads.last());
        (before + now, rest)
    }
}

/// However often and wherever input is cut, the frames taken are those of the
/// whole.
pub proof fn any_reads_give_the_frames_of_the_whole(max: nat, reads: Seq<Seq<u8>>)
    ensures
        taken_by_reads(max, reads) == all_frames(max, reads.flatten()),
    decreases reads.len(),
{
    if reads.len() == 0 {
        assert(reads.flatten() =~= Seq::<u8>::empty());
    } else {
        let head = reads.drop_last();
        any_reads_give_the_frames_of_the_whole(max, head);
        assert(head.push(reads.last()) =~= reads);
        head.lemma_flatten_push(reads.last());
        reads_may_be_cut_anywhere(max, head.flatten(), reads.last());
    }
}

/// Frames within the limit are taken as they were written, in order, none lost,
/// repeated or cut, however they arrive.
pub proof fn written_frames_are_read_by_any_reads(
    max: nat,
    fs: Seq<(u8, Seq<u8>)>,
    reads: Seq<Seq<u8>>,
)
    requires
        wire::bodies_fit(fs),
        forall|i: int| 0 <= i < fs.len() ==> (#[trigger] fs[i]).1.len() <= max,
        reads.flatten() == wire::frames_bytes(fs),
    ensures
        taken_by_reads(max, reads) == (fs, Seq::<u8>::empty()),
{
    any_reads_give_the_frames_of_the_whole(max, reads);
    written_frames_are_read(max, fs);
}

/// Every frame takes its header at least.
pub proof fn frames_take_their_headers(max: nat, input: Seq<u8>)
    ensures
        all_frames(max, input).0.len() * HEADER_LEN + all_frames(max, input).1.len()
            <= input.len(),
    decreases input.len(),
{
    match next_frame(max, input) {
        Ok(Some((f, rest))) => {
            frames_take_their_headers(max, rest);
        },
        _ => {},
    }
}

/// A frame longer than the limit is refused as soon as its header is there,
/// with the length it announces.
pub proof fn a_longer_frame_is_refused(max: nat, tag: u8, len: nat, rest: Seq<u8>)
    requires
        max < len <= u32::MAX,
    ensures
        next_frame(max, wire::header_bytes(tag, len) + rest) == Err::<
            Option<((u8, Seq<u8>), Seq<u8>)>,
            nat,
        >(len),
{
    wire::header_reads_back(tag, len);
    let b = wire::header_bytes(tag, len) + rest;
    assert(b.subrange(1, 5) =~= wire::header_bytes(tag, len).subrange(1, 5));
}

/// A frame within the limit is waited for until its last byte is there.
pub proof fn an_incomplete_frame_is_waited_for(max: nat, f: (u8, Seq<u8>), n: int)
    requires
        f.1.len() <= max,
        f.1.len() <= u32::MAX,
        0 <= n < wire::frame_bytes(f).len(),
    ensures
        next_frame(max, wire::frame_bytes(f).take(n)) == Ok::<
            Option<((u8, Seq<u8>), Seq<u8>)>,
            nat,
        >(None),
{
    wire::header_reads_back(f.0, f.1.len());
    let b = wire::frame_bytes(f).take(n);
    if n >= HEADER_LEN {
        assert(b.subrange(1, 5) =~= wire::header_bytes(f.0, f.1.len()).subrange(1, 5));
    }
}

/// How much a buffer grows before the next read, when it holds `len` of its
/// `capacity` bytes and the frame at its head takes `need`: nothing when the
/// room left will do, else at least [`BUF`].
pub open spec fn growth(need: nat, len: nat, capacity: nat) -> nat {
    let pending = if need > len {
        (need - len) as nat
    } else {
        0
    };
    let most = if capacity > BUF {
        capacity
    } else {
        BUF as nat
    };
    let part = if pending < most {
        pending
    } else {
        most
    };
    let want = if part > BUF / 4 {
        part
    } else {
        (BUF / 4) as nat
    };
    if capacity - len < want {
        if want > BUF {
            want
        } else {
            BUF as nat
        }
    } else {
        0
    }
}

/// A buffer grows geometrically: by no more than it already spans (or one
/// [`BUF`]), however long a frame the peer has announced.
pub proof fn growth_is_bounded(need: nat, len: nat, capacity: nat)
    requires
        len <= capacity,
    ensures
        growth(need, len, capacity) <= capacity || growth(need, len, capacity) <= BUF,
        len + growth(need, len, capacity) > capacity || growth(need, len, capacity) == 0,
{
}

/// Takes frames off a byte stream.
pub struct FrameReader {
    buf: BytesMut,
    max_frame: usize,
    /// Total bytes the frame at the head of the buffer needs, if known.
    need: usize,
    /// Bytes of the frame lent out by the last `next_buffered`, released on
    /// the next call.
    lent: usize,
}

impl View for FrameReader {
    type V = Seq<u8>;

    /// The input that has not been handed out yet.
    closed spec fn view(&self) -> Seq<u8> {
        buf::mut_seq(self.buf).skip(self.lent as int)
    }
}

impl FrameReader {
    pub closed spec fn wf(&self) -> bool {
        &&& self.lent <= buf::mut_seq(self.buf).len()
        &&& self.need <= buf::MAX_LEN
        &&& HEADER_LEN + self.max_frame <= buf::MAX_LEN
    }

    /// The longest body accepted.
    pub closed spec fn limit(&self) -> nat {
        self.max_frame as nat
    }

    /// `max_frame` bounds the body length accepted from the peer.
    pub fn new(max_frame: usize) -> (r: Self)
        requires
            HEADER_LEN + max_frame <= buf::MAX_LEN,
        ensures
            r.wf(),
            r@ == Seq::<u8>::empty(),
            r.limit() == max_frame,
    {
        FrameReader { buf: BytesMut::with_capacity(BUF), max_frame, need: 0, lent: 0 }
    }

    /// Change the accepted body length, e.g. to lift a small pre-authentication
    /// limit once the peer has proven itself.
    pub fn set_max_frame(&mut self, max_frame: usize)
        requires
            old(self).wf(),
            HEADER_LEN + max_frame <= buf::MAX_LEN,
        ensures
            final(self).wf(),
            final(self)@ == old(self)@,
            final(self).limit() == max_frame,
    {
        self.max_frame = max_frame;
    }

    /// Next complete frame already in the buffer, as `(tag, body)`. The body
    /// borrows the read buffer and is released by the next call on the reader.
    /// `Ok(None)` means more input is needed.
    pub fn next_buffered(&mut self) -> (r: Result<Option<(u8, &[u8])>, FrameTooLarge>)
        requires
            old(self).wf(),
        ensures
            final(self).wf(),
            final(self).limit() == old(self).limit(),
            match r {
                Ok(Some((tag, body))) => next_frame(old(self).limit(), old(self)@) == Ok::<
                    Option<((u8, Seq<u8>), Seq<u8>)>,
                    nat,
                >(Some(((tag, body@), final(self)@))),
                Ok(None) => next_frame(old(self).limit(), old(self)@) == Ok::<
                    Option<((u8, Seq<u8>), Seq<u8>)>,
                    nat,
                >(None) && final(self)@ == old(self)@,
                Err(e) => next_frame(old(self).limit(), old(self)@) == Err::<
                    Option<((u8, Seq<u8>), Seq<u8>)>,
                    nat,
                >(e.0 as nat) && final(self)@ == old(self)@,
            },
    {
        self.release();
        let len: usize = match self.head() {
            Ok(Some(len)) => len,
            Ok(None) => return Ok(None),
            Err(e) => return Err(e),
        };
        self.lent = HEADER_LEN + len;
        let b = buf::mut_slice(&self.buf);
        assert(b@.subrange(5, 5 + len) =~= b@.skip(5).take(len as int));
        assert(b@.skip(5 + len) =~= b@.skip(5).skip(len as int));
        Ok(Some((b[0], slice_subrange(b, HEADER_LEN, HEADER_LEN + len))))
    }

    #[inline]
    fn release(&mut self)
        requires
            old(self).wf(),
        ensures
            final(self).wf(),
            final(self).lent == 0,
            final(self).limit() == old(self).limit(),
            final(self)@ == old(self)@,
            buf::mut_seq(final(self).buf) == old(self)@,
    {
        buf::advance(&mut self.buf, self.lent);
        self.lent = 0;
        assert(self@ =~= old(self)@);
    }

    /// Body length of the frame at the head of the buffer, if complete.
    #[inline]
    fn head(&mut self) -> (r: Result<Option<usize>, FrameTooLarge>)
        requires
            old(self).wf(),
            old(self).lent == 0,
        ensures
            final(self).wf(),
            final(self).lent == 0,
            final(self).max_frame == old(self).max_frame,
            final(self).buf == old(self).buf,
            ({
                let b = buf::mut_seq(old(self).buf);
                match next_frame(old(self).limit(), b) {
                    Ok(Some((f, rest))) => r == Ok::<Option<usize>, FrameTooLarge>(
                        Some(f.1.len() as usize),
                    ) && f.1.len() + HEADER_LEN + rest.len() == b.len() && b.len() <= usize::MAX,
                    Ok(None) => r == Ok::<Option<usize>, FrameTooLarge>(None),
                    Err(n) => r == Err::<Option<usize>, FrameTooLarge>(FrameTooLarge(n as usize)),
                }
            }),
    {
        let b = buf::mut_slice(&self.buf);
        if b.len() < HEADER_LEN {
            return Ok(None);
        }
        let len: usize = wire::body_len(b);
        if len > self.max_frame {
            return Err(FrameTooLarge(len));
        }
        if b.len() - HEADER_LEN < len {
            self.need = HEADER_LEN + len;
            return Ok(None);
        }
        self.need = 0;
        Ok(Some(len))
    }

    /// Like [`next_buffered`](Self::next_buffered) but the body is copied into
    /// its own allocation, for bodies handed to other tasks.
    pub fn next_buffered_owned(&mut self) -> (r: Result<Option<(u8, Bytes)>, FrameTooLarge>)
        requires
            old(self).wf(),
        ensures
            final(self).wf(),
            final(self).limit() == old(self).limit(),
            match r {
                Ok(Some((tag, body))) => next_frame(old(self).limit(), old(self)@) == Ok::<
                    Option<((u8, Seq<u8>), Seq<u8>)>,
                    nat,
                >(Some(((tag, buf::bytes_seq(body)), final(self)@))),
                Ok(None) => next_frame(old(self).limit(), old(self)@) == Ok::<
                    Option<((u8, Seq<u8>), Seq<u8>)>,
                    nat,
                >(None) && final(self)@ == old(self)@,
                Err(e) => next_frame(old(self).limit(), old(self)@) == Err::<
                    Option<((u8, Seq<u8>), Seq<u8>)>,
                    nat,
                >(e.0 as nat) && final(self)@ == old(self)@,
            },
    {
        self.release();
        let len: usize = match self.head() {
            Ok(Some(len)) => len,
            Ok(None) => return Ok(None),
            Err(e) => return Err(e),
        };
        let ghost input = buf::mut_seq(self.buf);
        let tag: u8 = buf::mut_slice(&self.buf)[0];
        buf::advance(&mut self.buf, HEADER_LEN);
        let body = Bytes::copy_from_slice(slice_subrange(buf::mut_slice(&self.buf), 0, len));
        buf::advance(&mut self.buf, len);
        assert(self@ =~= input.skip(5).skip(len as int));
        assert(buf::bytes_seq(body) =~= input.skip(5).take(len as int));
        Ok(Some((tag, body)))
    }

    /// Makes room for more input and lends the buffer to append it to.
    pub fn prepare(&mut self) -> (b: &mut BytesMut)
        requires
            old(self).wf(),
            old(self)@.len() + BUF <= buf::MAX_LEN,
        ensures
            buf::mut_seq(*b) == old(self)@,
            final(self).wf(),
            final(self).limit() == old(self).limit(),
            final(self)@ == buf::mut_seq(*final(b)),
    {
        self.release();
        // A buffer grown for one large frame would otherwise stay pinned to
        // an idle connection for its lifetime.
        if self.buf.is_empty() && self.buf.capacity() > 4 * BUF {
            self.buf = BytesMut::with_capacity(BUF);
        }
        let more: usize = grow_by(self.need, self.buf.len(), self.buf.capacity());
        if more > 0 {
            self.buf.reserve(more);
        }
        &mut self.buf
    }

    /// Appends input.
    pub fn feed(&mut self, input: &[u8])
        requires
            old(self).wf(),
            old(self)@.len() + BUF <= buf::MAX_LEN,
            old(self)@.len() + input@.len() <= buf::MAX_LEN,
        ensures
            final(self).wf(),
            final(self).limit() == old(self).limit(),
            final(self)@ == old(self)@ + input@,
    {
        buf::put_slice(self.prepare(), input);
    }
}

/// How much a buffer of `capacity` that holds `len` bytes grows before the next
/// read, when the frame at its head takes `need`.
pub fn grow_by(need: usize, len: usize, capacity: usize) -> (more: usize)
    requires
        len <= capacity,
    ensures
        more == growth(need as nat, len as nat, capacity as nat),
{
    // Grow towards a pending large frame geometrically rather than reserving
    // its full claimed length up front: a peer that announces a maximal frame
    // and sends nothing must not pin that much memory.
    let pending: usize = if need > len {
        need - len
    } else {
        0
    };
    let most: usize = if capacity > BUF {
        capacity
    } else {
        BUF
    };
    let part: usize = if pending < most {
        pending
    } else {
        most
    };
    let want: usize = if part > BUF / 4 {
        part
    } else {
        BUF / 4
    };
    if capacity - len < want {
        if want > BUF {
            want
        } else {
            BUF
        }
    } else {
        0
    }
}

// Writing

/// A spilled coalescing buffer stays mutable so a [`Mark`] inside it can
/// still be patched; a referenced body is shared and never touched.
enum Piece {
    Own(BytesMut),
    Shared(Bytes),
}

impl Piece {
    spec fn bytes(self) -> Seq<u8> {
        match self {
            Piece::Own(b) => buf::mut_seq(b),
            Piece::Shared(b) => buf::bytes_seq(b),
        }
    }

    #[inline]
    fn as_slice(&self) -> (s: &[u8])
        ensures
            s@ == self.bytes(),
    {
        match self {
            Piece::Own(b) => buf::mut_slice(b),
            Piece::Shared(b) => buf::bytes_slice(b),
        }
    }
}

/// The bytes of each piece.
spec fn pieces_parts(ps: Seq<Piece>) -> Seq<Seq<u8>> {
    ps.map_values(|p: Piece| p.bytes())
}

proof fn pieces_parts_flatten(ps: Seq<Piece>)
    ensures
        pieces_parts(ps).flatten() == pieces_bytes(ps),
    decreases ps.len(),
{
    if ps.len() == 0 {
        assert(pieces_parts(ps).flatten() =~= pieces_bytes(ps));
    } else {
        pieces_parts_flatten(ps.drop_last());
        assert(pieces_parts(ps) =~= pieces_parts(ps.drop_last()).push(ps.last().bytes()));
        pieces_parts(ps.drop_last()).lemma_flatten_push(ps.last().bytes());
    }
}

/// The bytes of pieces, one after another.
spec fn pieces_bytes(ps: Seq<Piece>) -> Seq<u8>
    decreases ps.len(),
{
    if ps.len() == 0 {
        Seq::empty()
    } else {
        pieces_bytes(ps.drop_last()) + ps.last().bytes()
    }
}

proof fn pieces_bytes_push(ps: Seq<Piece>, p: Piece)
    ensures
        pieces_bytes(ps.push(p)) == pieces_bytes(ps) + p.bytes(),
{
    assert(ps.push(p).drop_last() =~= ps);
}

proof fn pieces_bytes_concat(a: Seq<Piece>, b: Seq<Piece>)
    ensures
        pieces_bytes(a + b) == pieces_bytes(a) + pieces_bytes(b),
    decreases b.len(),
{
    if b.len() == 0 {
        assert(a + b =~= a);
        assert(pieces_bytes(a + b) =~= pieces_bytes(a) + pieces_bytes(b));
    } else {
        assert((a + b).drop_last() =~= a + b.drop_last());
        pieces_bytes_concat(a, b.drop_last());
        assert(pieces_bytes(a + b) =~= pieces_bytes(a) + pieces_bytes(b));
    }
}

/// The bytes before, of, and behind one piece.
proof fn pieces_bytes_around(ps: Seq<Piece>, k: int)
    requires
        0 <= k < ps.len(),
    ensures
        pieces_bytes(ps) == pieces_bytes(ps.take(k)) + ps[k].bytes() + pieces_bytes(
            ps.skip(k + 1),
        ),
        pieces_bytes(ps.skip(k)) == ps[k].bytes() + pieces_bytes(ps.skip(k + 1)),
        pieces_bytes(ps.take(k + 1)) == pieces_bytes(ps.take(k)) + ps[k].bytes(),
{
    let one = seq![ps[k]];
    assert(one.drop_last() =~= Seq::<Piece>::empty());
    assert(one.last() == ps[k]);
    assert(pieces_bytes(one.drop_last()) =~= Seq::<u8>::empty());
    assert(pieces_bytes(one) =~= ps[k].bytes());
    assert(ps.skip(k) =~= one + ps.skip(k + 1));
    pieces_bytes_concat(one, ps.skip(k + 1));
    assert(ps.take(k + 1) =~= ps.take(k) + one);
    pieces_bytes_concat(ps.take(k), one);
    assert(ps =~= ps.take(k) + ps.skip(k));
    pieces_bytes_concat(ps.take(k), ps.skip(k));
    assert(pieces_bytes(ps) =~= pieces_bytes(ps.take(k)) + ps[k].bytes() + pieces_bytes(
        ps.skip(k + 1),
    ));
}

/// Longer lists of pieces hold at least as many bytes.
proof fn pieces_bytes_grow(ps: Seq<Piece>, i: int, j: int)
    requires
        0 <= i <= j <= ps.len(),
    ensures
        pieces_bytes(ps.take(i)).len() <= pieces_bytes(ps.take(j)).len(),
{
    assert(ps.take(j) =~= ps.take(i) + ps.subrange(i, j));
    pieces_bytes_concat(ps.take(i), ps.subrange(i, j));
}

/// Pieces of the same lengths hold the same number of bytes.
proof fn pieces_bytes_same_len(ps: Seq<Piece>, qs: Seq<Piece>)
    requires
        ps.len() == qs.len(),
        forall|i: int|
            0 <= i < ps.len() ==> (#[trigger] ps[i]).bytes().len() == qs[i].bytes().len(),
    ensures
        pieces_bytes(ps).len() == pieces_bytes(qs).len(),
    decreases ps.len(),
{
    if ps.len() > 0 {
        assert(ps.last() == ps[ps.len() - 1]);
        assert forall|i: int| 0 <= i < ps.drop_last().len() implies (
        #[trigger] ps.drop_last()[i]).bytes().len() == qs.drop_last()[i].bytes().len() by {
            assert(ps.drop_last()[i] == ps[i]);
        }
        pieces_bytes_same_len(ps.drop_last(), qs.drop_last());
    }
}

/// Replacing part of one piece replaces that part of the whole.
proof fn pieces_bytes_patch(ps: Seq<Piece>, k: int, p: Piece, tail: Seq<u8>, at: int, new: Seq<u8>)
    requires
        0 <= k < ps.len(),
        0 <= at <= at + new.len() <= ps[k].bytes().len(),
        p.bytes() == ps[k].bytes().take(at) + new + ps[k].bytes().skip(at + new.len()),
    ensures
        ({
            let all = pieces_bytes(ps) + tail;
            let from = pieces_bytes(ps.take(k)).len() + at;
            pieces_bytes(ps.update(k, p)) + tail == all.take(from) + new + all.skip(
                from + new.len(),
            )
        }),
{
    let qs = ps.update(k, p);
    assert(qs.take(k) =~= ps.take(k));
    assert(qs.skip(k + 1) =~= ps.skip(k + 1));
    pieces_bytes_around(ps, k);
    pieces_bytes_around(qs, k);
    let head = pieces_bytes(ps.take(k));
    let b = ps[k].bytes();
    let rest = pieces_bytes(ps.skip(k + 1));
    let all = pieces_bytes(ps) + tail;
    assert(all =~= head + b + (rest + tail));
    assert(all.take(head.len() + at) =~= head + b.take(at));
    assert(all.skip(head.len() + at + new.len()) =~= b.skip(at + new.len()) + (rest + tail));
    assert(pieces_bytes(qs) + tail =~= all.take(head.len() + at) + new + all.skip(
        head.len() + at + new.len(),
    ));
}

/// The bytes of slices, one after another.
pub open spec fn slices_bytes(s: Seq<&[u8]>) -> Seq<u8>
    decreases s.len(),
{
    if s.len() == 0 {
        Seq::empty()
    } else {
        slices_bytes(s.drop_last()) + s.last()@
    }
}

/// How queued bytes lie in memory: the parts that are written as they stand, in
/// order, and behind them the coalescing buffer.
#[verifier::ext_equal]
pub struct Layout {
    pub parts: Seq<Seq<u8>>,
    pub rest: Seq<u8>,
}

impl Layout {
    pub open spec fn nothing() -> Layout {
        Layout { parts: Seq::empty(), rest: Seq::empty() }
    }

    /// With what the coalescing buffer holds, if anything, as a part of its own.
    pub open spec fn sealed(self) -> Layout {
        if self.rest.len() == 0 {
            self
        } else {
            Layout { parts: self.parts.push(self.rest), rest: Seq::empty() }
        }
    }

    /// With `b` copied into the coalescing buffer, which is emptied first where
    /// `b` would take it past [`BUF`].
    pub open spec fn copied(self, b: Seq<u8>) -> Layout {
        if self.rest.len() + b.len() > BUF {
            Layout { parts: self.sealed().parts, rest: b }
        } else {
            Layout { parts: self.parts, rest: self.rest + b }
        }
    }

    /// With `b` copied if it is shorter than `limit`, and as a part of its own
    /// otherwise.
    pub open spec fn queued(self, b: Seq<u8>, limit: nat) -> Layout {
        if b.len() < limit {
            self.copied(b)
        } else {
            Layout { parts: self.sealed().parts.push(b), rest: Seq::empty() }
        }
    }

    /// Cut off `offset` bytes into part `part`; the coalescing buffer counts as
    /// the last part.
    pub open spec fn up_to(self, part: int, offset: int) -> Layout {
        let last = if part < self.parts.len() {
            self.parts[part]
        } else {
            self.rest
        };
        Layout { parts: self.parts.take(part), rest: last.take(offset) }
    }

    /// The bytes lie in the same places, whatever they are.
    pub open spec fn same_shape(self, other: Layout) -> bool {
        &&& self.parts.len() == other.parts.len()
        &&& self.rest.len() == other.rest.len()
        &&& forall|i: int|
            0 <= i < self.parts.len() ==> (#[trigger] self.parts[i]).len() == other.parts[i].len()
    }

    /// Everything that is queued, in order.
    pub open spec fn bytes(self) -> Seq<u8> {
        self.parts.flatten() + self.rest
    }
}

/// The coalescing buffer is never filled past [`BUF`] by what is itself no
/// longer than that.
pub proof fn the_coalescing_buffer_stays_small(l: Layout, b: Seq<u8>, limit: nat)
    requires
        l.rest.len() <= BUF,
        b.len() <= BUF,
    ensures
        l.copied(b).rest.len() <= BUF,
        l.queued(b, limit).rest.len() <= BUF,
{
}

/// However bytes are queued, they come behind those that were queued before.
pub proof fn queueing_appends(l: Layout, b: Seq<u8>, limit: nat)
    ensures
        l.sealed().bytes() == l.bytes(),
        l.copied(b).bytes() == l.bytes() + b,
        l.queued(b, limit).bytes() == l.bytes() + b,
{
    l.parts.lemma_flatten_push(l.rest);
    l.sealed().parts.lemma_flatten_push(b);
    assert(l.sealed().bytes() =~= l.bytes());
    assert(l.copied(b).bytes() =~= l.bytes() + b);
    assert(l.queued(b, limit).bytes() =~= l.bytes() + b);
}

/// Where a frame whose length was not known up front begins; see
/// [`FrameWriter::begin`].
#[derive(Clone, Copy)]
pub struct Mark {
    piece: usize,
    offset: usize,
    len: usize,
}

impl Mark {
    /// How many bytes were queued before the frame.
    pub closed spec fn at(self) -> nat {
        self.len as nat
    }

    /// The part that the header stands in.
    pub closed spec fn part(self) -> nat {
        self.piece as nat
    }

    /// How far into that part the header stands.
    pub closed spec fn offset_in_part(self) -> nat {
        self.offset as nat
    }
}

/// What [`FrameWriter::end`] makes of a body written behind a placeholder
/// header is the frame of that body.
pub proof fn ended_frame_is_a_frame(before: Seq<u8>, tag: u8, body: Seq<u8>)
    ensures
        ({
            let all = before + wire::header_bytes(tag, 0) + body;
            let at = before.len() as int;
            all.take(at + 1) + buf::le32(body.len()) + all.skip(at + HEADER_LEN) == before
                + wire::frame_bytes((tag, body))
        }),
{
    let all = before + wire::header_bytes(tag, 0) + body;
    let at = before.len() as int;
    assert(all.take(at + 1) =~= before.push(tag));
    assert(all.skip(at + HEADER_LEN) =~= body);
    assert(before.push(tag) + buf::le32(body.len()) + body =~= before + wire::frame_bytes(
        (tag, body),
    ));
}

/// What [`FrameWriter::abort`] leaves of a frame is what was queued before it.
pub proof fn aborted_frame_leaves_no_trace(before: Seq<u8>, tag: u8, body: Seq<u8>)
    ensures
        (before + wire::header_bytes(tag, 0) + body).take(before.len() as int) == before,
{
    assert((before + wire::header_bytes(tag, 0) + body).take(before.len() as int) =~= before);
}

/// How far a flush has come.
#[derive(Clone, Copy)]
pub struct Cursor {
    piece: usize,
    offset: usize,
}

impl Cursor {
    /// The part that is written next.
    pub closed spec fn part(self) -> nat {
        self.piece as nat
    }

    /// How much of that part has been written.
    pub closed spec fn offset_in_part(self) -> nat {
        self.offset as nat
    }
}

/// Queues frames for a byte stream.
pub struct FrameWriter {
    chunk: BytesMut,
    pieces: Vec<Piece>,
    inline_limit: usize,
    /// Bytes queued in `pieces` and `chunk` together.
    len: usize,
}

impl View for FrameWriter {
    type V = Seq<u8>;

    /// The bytes queued.
    closed spec fn view(&self) -> Seq<u8> {
        pieces_bytes(self.pieces@) + buf::mut_seq(self.chunk)
    }
}

impl Default for FrameWriter {
    fn default() -> (w: Self)
        ensures
            w.wf(),
            w@ == Seq::<u8>::empty(),
            w.layout() == Layout::nothing(),
            w.limit() == INLINE_BODY,
    {
        Self::new()
    }
}

impl FrameWriter {
    pub closed spec fn wf(&self) -> bool {
        &&& self.len == self@.len()
        &&& self.inline_limit > 0 ==> forall|i: int|
            0 <= i < self.pieces@.len() ==> (#[trigger] self.pieces@[i]).bytes().len() > 0
    }

    /// How what is queued lies in memory.
    pub closed spec fn layout(&self) -> Layout {
        Layout { parts: pieces_parts(self.pieces@), rest: buf::mut_seq(self.chunk) }
    }

    /// Bodies shorter than this are copied.
    pub closed spec fn limit(&self) -> nat {
        self.inline_limit as nat
    }

    /// The layout holds what is queued.
    pub proof fn the_layout_is_what_is_queued(&self)
        ensures
            self.layout().bytes() == self@,
            self.sealed() == (self.layout().rest.len() == 0),
    {
        pieces_parts_flatten(self.pieces@);
    }

    /// `m` stands in front of a header that is still queued.
    pub closed spec fn holds(&self, m: Mark) -> bool {
        &&& m.piece <= self.pieces@.len()
        &&& m.piece < self.pieces@.len() ==> {
            &&& self.pieces@[m.piece as int] is Own
            &&& m.offset + HEADER_LEN <= self.pieces@[m.piece as int].bytes().len()
        }
        &&& m.piece == self.pieces@.len() ==> m.offset + HEADER_LEN <= buf::mut_seq(
            self.chunk,
        ).len()
        &&& m.len == pieces_bytes(self.pieces@.take(m.piece as int)).len() + m.offset
    }

    /// Nothing is waiting outside the pieces.
    pub closed spec fn sealed(&self) -> bool {
        buf::mut_seq(self.chunk).len() == 0
    }

    /// `c` stands within what is queued.
    pub closed spec fn within(&self, c: Cursor) -> bool {
        &&& c.piece <= self.pieces@.len()
        &&& c.piece < self.pieces@.len() ==> c.offset == 0 || c.offset
            < self.pieces@[c.piece as int].bytes().len()
        &&& c.piece == self.pieces@.len() ==> c.offset == 0
    }

    /// Every piece lies before `c`.
    pub closed spec fn at_end(&self, c: Cursor) -> bool {
        c.piece == self.pieces@.len()
    }

    /// What a flush that has come to `c` has left to send.
    pub closed spec fn unsent(&self, c: Cursor) -> Seq<u8> {
        pieces_bytes(self.pieces@.skip(c.piece as int)).skip(c.offset as int)
    }

    /// A mark lies within what is queued.
    pub proof fn mark_is_within(&self, m: Mark)
        requires
            self.wf(),
            self.holds(m),
        ensures
            m.at() + HEADER_LEN <= self@.len(),
    {
        let ps = self.pieces@;
        let k = m.piece as int;
        if k < ps.len() {
            pieces_bytes_around(ps, k);
        } else {
            assert(ps.take(k) =~= ps);
        }
    }

    pub fn new() -> (w: Self)
        ensures
            w.wf(),
            w@ == Seq::<u8>::empty(),
            w.layout() == Layout::nothing(),
            w.limit() == INLINE_BODY,
    {
        Self::with_inline_limit(INLINE_BODY)
    }

    /// Bodies shorter than `limit` are copied into the coalescing buffer;
    /// longer ones are written by reference. Copying is cheaper for data that
    /// is already hot (a freshly encoded request); referencing is cheaper for
    /// data that is not (a cache entry).
    pub fn with_inline_limit(limit: usize) -> (w: Self)
        ensures
            w.wf(),
            w@ == Seq::<u8>::empty(),
            w.layout() == Layout::nothing(),
            w.limit() == limit,
    {
        let w = FrameWriter {
            chunk: BytesMut::with_capacity(BUF),
            pieces: Vec::new(),
            inline_limit: limit,
            len: 0,
        };
        assert(w@ =~= Seq::<u8>::empty());
        assert(w.layout() =~= Layout::nothing());
        w
    }

    /// Start a frame whose body will total `len` bytes.
    #[inline]
    pub fn header(&mut self, tag: u8, len: usize)
        requires
            old(self).wf(),
            len <= u32::MAX,
            old(self)@.len() + HEADER_LEN <= buf::MAX_LEN,
        ensures
            final(self).wf(),
            final(self)@ == old(self)@ + wire::header_bytes(tag, len as nat),
            final(self).layout() == old(self).layout().copied(wire::header_bytes(tag, len as nat)),
            final(self).limit() == old(self).limit(),
            forall|m: Mark| #[trigger] old(self).holds(m) ==> final(self).holds(m),
    {
        let h = encode_header(tag, len);
        self.put_slice(h.as_slice());
    }

    /// Start a frame whose body length is only known once it is written:
    /// the header goes out with a placeholder that [`end`](Self::end)
    /// patches, so the body can be written as it is produced.
    #[inline]
    pub fn begin(&mut self, tag: u8) -> (mark: Mark)
        requires
            old(self).wf(),
            old(self)@.len() + HEADER_LEN <= buf::MAX_LEN,
        ensures
            final(self).wf(),
            final(self)@ == old(self)@ + wire::header_bytes(tag, 0),
            final(self).layout() == old(self).layout().copied(wire::header_bytes(tag, 0)),
            final(self).limit() == old(self).limit(),
            final(self).holds(mark),
            mark.at() == old(self)@.len(),
            mark.part() == final(self).layout().parts.len(),
            mark.offset_in_part() + HEADER_LEN == final(self).layout().rest.len(),
            forall|m: Mark| #[trigger] old(self).holds(m) ==> final(self).holds(m),
    {
        // The header must not straddle a spill; make room first.
        if self.chunk.len() + HEADER_LEN > BUF && !self.chunk.is_empty() {
            self.spill();
        }
        let mark = Mark { piece: self.pieces.len(), offset: self.chunk.len(), len: self.len };
        let h = encode_header(tag, 0);
        buf::put_slice(&mut self.chunk, h.as_slice());
        self.len = self.len + HEADER_LEN;
        assert(self.pieces@.take(self.pieces@.len() as int) =~= self.pieces@);
        assert(self@ =~= old(self)@ + wire::header_bytes(tag, 0));
        assert(self.layout() =~= old(self).layout().copied(wire::header_bytes(tag, 0)));
        mark
    }

    /// Bytes written since `mark`'s header.
    #[inline]
    pub fn since(&self, mark: Mark) -> (n: usize)
        requires
            self.wf(),
            self.holds(mark),
        ensures
            n == self@.len() - mark.at() - HEADER_LEN,
    {
        proof {
            self.mark_is_within(mark);
        }
        self.len - mark.len - HEADER_LEN
    }

    /// Close the frame begun at `mark` with what has been written since.
    pub fn end(&mut self, mark: Mark)
        requires
            old(self).wf(),
            old(self).holds(mark),
            old(self)@.len() - mark.at() - HEADER_LEN <= u32::MAX,
        ensures
            final(self).wf(),
            final(self)@ == old(self)@.take(mark.at() as int + 1) + buf::le32(
                (old(self)@.len() - mark.at() - HEADER_LEN) as nat,
            ) + old(self)@.skip(mark.at() as int + HEADER_LEN),
            final(self).layout().same_shape(old(self).layout()),
            final(self).limit() == old(self).limit(),
            forall|m: Mark| #[trigger] old(self).holds(m) ==> final(self).holds(m),
    {
        let len = to_le_bytes(self.since(mark) as u32);
        let at: usize = mark.offset + 1;
        let ghost ps = self.pieces@;
        let ghost k = mark.piece as int;
        if mark.piece == self.pieces.len() {
            buf::patch(&mut self.chunk, at, at + 4, len.as_slice());
            proof {
                assert(ps.take(k) =~= ps);
                assert(self@ =~= old(self)@.take(mark.at() as int + 1) + len@ + old(self)@.skip(
                    mark.at() as int + HEADER_LEN,
                ));
            }
        } else {
            match &mut self.pieces[mark.piece] {
                Piece::Own(b) => buf::patch(b, at, at + 4, len.as_slice()),
                Piece::Shared(_) => {},
            }
            proof {
                let p = self.pieces@[k];
                assert(self.pieces@ =~= ps.update(k, p));
                pieces_bytes_patch(ps, k, p, buf::mut_seq(self.chunk), at as int, len@);
                assert forall|m: Mark| #[trigger] old(self).holds(m) implies self.holds(m) by {
                    let n = m.piece as int;
                    pieces_bytes_same_len(ps.take(n), self.pieces@.take(n));
                }
            }
        }
    }

    /// Drop everything written since `mark`, header included; the writer is
    /// back where it was before [`begin`](Self::begin).
    pub fn abort(&mut self, mark: Mark)
        requires
            old(self).wf(),
            old(self).holds(mark),
        ensures
            final(self).wf(),
            final(self)@ == old(self)@.take(mark.at() as int),
            final(self).layout() == old(self).layout().up_to(
                mark.part() as int,
                mark.offset_in_part() as int,
            ),
            final(self).limit() == old(self).limit(),
            forall|m: Mark| #[trigger]
                old(self).holds(m) && m.at() + HEADER_LEN <= mark.at() ==> final(self).holds(m),
    {
        proof {
            self.mark_is_within(mark);
        }
        let ghost ps = self.pieces@;
        let ghost k = mark.piece as int;
        if mark.piece < self.pieces.len() {
            self.pieces.truncate(mark.piece + 1);
            match self.pieces.pop() {
                Some(Piece::Own(b)) => {
                    let mut b = b;
                    b.truncate(mark.offset);
                    self.chunk = b;
                },
                _ => {},
            }
            proof {
                pieces_bytes_around(ps, k);
                assert(self.pieces@ =~= ps.take(k));
            }
        } else {
            self.chunk.truncate(mark.offset);
            assert(ps.take(k) =~= ps);
        }
        self.len = mark.len;
        proof {
            assert forall|m: Mark| #[trigger]
                old(self).holds(m) && m.at() + HEADER_LEN <= mark.at() implies self.holds(m) by {
                let n = m.piece as int;
                if n > k {
                    pieces_bytes_around(ps, k);
                    pieces_bytes_grow(ps, k + 1, n);
                } else {
                    assert(self.pieces@.take(n) =~= ps.take(n));
                }
            }
        }
        assert(self@ =~= old(self)@.take(mark.at() as int));
        assert(self.layout() =~= old(self).layout().up_to(k, mark.offset as int));
    }

    /// Moves the coalescing buffer to the piece list.
    #[inline]
    fn spill(&mut self)
        requires
            old(self).wf(),
            buf::mut_seq(old(self).chunk).len() > 0,
        ensures
            final(self).wf(),
            final(self)@ == old(self)@,
            final(self).layout() == old(self).layout().sealed(),
            final(self).limit() == old(self).limit(),
            forall|m: Mark| #[trigger] old(self).holds(m) ==> final(self).holds(m),
    {
        self.seal();
        self.chunk.reserve(BUF);
        assert(self.layout() =~= old(self).layout().sealed());
    }

    /// Append body bytes by copy into the coalescing buffer. The buffer is
    /// bounded at [`BUF`]: a full one is spilled to the piece list rather than
    /// grown, so the allocation stays small and warm.
    #[inline]
    pub fn put_slice(&mut self, b: &[u8])
        requires
            old(self).wf(),
            old(self)@.len() + b@.len() <= buf::MAX_LEN,
        ensures
            final(self).wf(),
            final(self)@ == old(self)@ + b@,
            final(self).layout() == old(self).layout().copied(b@),
            final(self).limit() == old(self).limit(),
            forall|m: Mark| #[trigger] old(self).holds(m) ==> final(self).holds(m),
    {
        if self.chunk.len() + b.len() > BUF && !self.chunk.is_empty() {
            self.spill();
        }
        buf::put_slice(&mut self.chunk, b);
        self.len = self.len + b.len();
        assert(self@ =~= old(self)@ + b@);
        assert(self.layout() =~= old(self).layout().copied(b@));
    }

    /// Append body bytes by reference; large ones are written straight from `b`.
    pub fn put_bytes(&mut self, b: Bytes)
        requires
            old(self).wf(),
            old(self)@.len() + buf::bytes_seq(b).len() <= buf::MAX_LEN,
        ensures
            final(self).wf(),
            final(self)@ == old(self)@ + buf::bytes_seq(b),
            final(self).layout() == old(self).layout().queued(
                buf::bytes_seq(b),
                old(self).limit(),
            ),
            final(self).limit() == old(self).limit(),
            forall|m: Mark| #[trigger] old(self).holds(m) ==> final(self).holds(m),
    {
        if b.len() < self.inline_limit {
            self.put_slice(buf::bytes_slice(&b));
        } else {
            self.seal();
            self.len = self.len + b.len();
            let ghost ps = self.pieces@;
            let ghost p = Piece::Shared(b);
            self.pieces.push(Piece::Shared(b));
            proof {
                pieces_bytes_push(ps, p);
                assert forall|m: Mark| #[trigger] old(self).holds(m) implies self.holds(m) by {
                    if m.piece < ps.len() {
                        assert(self.pieces@.take(m.piece as int) =~= ps.take(m.piece as int));
                    }
                }
                assert(self@ =~= old(self)@ + buf::bytes_seq(b));
                assert(self.layout() =~= old(self).layout().queued(
                    buf::bytes_seq(b),
                    old(self).limit(),
                ));
            }
        }
    }

    /// Append a whole frame with an owned body.
    pub fn frame(&mut self, tag: u8, body: Bytes)
        requires
            old(self).wf(),
            buf::bytes_seq(body).len() <= u32::MAX,
            old(self)@.len() + HEADER_LEN + buf::bytes_seq(body).len() <= buf::MAX_LEN,
        ensures
            final(self).wf(),
            final(self)@ == old(self)@ + wire::frame_bytes((tag, buf::bytes_seq(body))),
            final(self).layout() == old(self).layout().copied(
                wire::header_bytes(tag, buf::bytes_seq(body).len()),
            ).queued(buf::bytes_seq(body), old(self).limit()),
            final(self).limit() == old(self).limit(),
            forall|m: Mark| #[trigger] old(self).holds(m) ==> final(self).holds(m),
    {
        self.header(tag, body.len());
        self.put_bytes(body);
        assert(self@ =~= old(self)@ + wire::frame_bytes((tag, buf::bytes_seq(body))));
    }

    pub fn is_empty(&self) -> (r: bool)
        requires
            self.wf(),
        ensures
            r == (self@.len() == 0),
    {
        self.len == 0
    }

    /// Bytes queued.
    pub fn len(&self) -> (n: usize)
        requires
            self.wf(),
        ensures
            n == self@.len(),
    {
        self.len
    }

    /// How many pieces have been split off the coalescing buffer or queued by
    /// reference.
    pub fn spilled(&self) -> (n: usize)
        ensures
            n == self.layout().parts.len(),
    {
        self.pieces.len()
    }

    /// Moves what the coalescing buffer holds, if anything, to the piece list,
    /// so that everything queued can be handed out.
    pub fn seal(&mut self)
        requires
            old(self).wf(),
        ensures
            final(self).wf(),
            final(self)@ == old(self)@,
            final(self).sealed(),
            final(self).layout() == old(self).layout().sealed(),
            final(self).limit() == old(self).limit(),
            forall|m: Mark| #[trigger] old(self).holds(m) ==> final(self).holds(m),
    {
        let ghost ps = self.pieces@;
        let ghost c = buf::mut_seq(self.chunk);
        if !self.chunk.is_empty() {
            let b = self.chunk.split();
            let ghost p = Piece::Own(b);
            self.pieces.push(Piece::Own(b));
            proof {
                pieces_bytes_push(ps, p);
                assert forall|m: Mark| #[trigger] old(self).holds(m) implies self.holds(m) by {
                    assert(self.pieces@.take(m.piece as int) =~= ps.take(m.piece as int));
                }
            }
        }
        assert(self@ =~= old(self)@);
        assert(self.layout() =~= old(self).layout().sealed());
    }

    /// Where a flush starts.
    pub fn start(&self) -> (c: Cursor)
        requires
            self.wf(),
            self.sealed(),
        ensures
            self.within(c),
            self.unsent(c) == self@,
            c.part() == 0,
            c.offset_in_part() == 0,
    {
        let c = Cursor { piece: 0, offset: 0 };
        proof {
            assert(self.pieces@.skip(0) =~= self.pieces@);
            assert(self.unsent(c) =~= self@);
        }
        c
    }

    /// Whether a flush that has come to `c` has no piece left.
    pub fn done(&self, c: Cursor) -> (r: bool)
        requires
            self.wf(),
            self.within(c),
        ensures
            r == self.at_end(c),
            r ==> self.unsent(c).len() == 0,
            self.limit() > 0 ==> r == (self.unsent(c).len() == 0),
    {
        proof {
            if c.piece == self.pieces@.len() {
                assert(self.pieces@.skip(c.piece as int) =~= Seq::<Piece>::empty());
            } else {
                pieces_bytes_around(self.pieces@, c.piece as int);
            }
        }
        c.piece >= self.pieces.len()
    }

    /// The slices to write next, at most [`MAX_IOV`] of them.
    pub fn gather(&self, c: Cursor) -> (s: Vec<&[u8]>)
        requires
            self.within(c),
        ensures
            s@.len() <= MAX_IOV,
            s@.len() <= self.layout().parts.len() - c.part(),
            s@.len() < MAX_IOV ==> s@.len() == self.layout().parts.len() - c.part(),
            forall|i: int|
                0 <= i < s@.len() ==> (#[trigger] s@[i])@ == self.layout().parts[c.part() + i].skip(
                    if i == 0 {
                        c.offset_in_part() as int
                    } else {
                        0
                    },
                ),
            slices_bytes(s@).is_prefix_of(self.unsent(c)),
            self.wf() && self.limit() > 0 && !self.at_end(c) ==> slices_bytes(s@).len() > 0,
            s@.len() < MAX_IOV ==> slices_bytes(s@) == self.unsent(c),
    {
        let mut s: Vec<&[u8]> = Vec::new();
        let mut i: usize = c.piece;
        let ghost ps = self.pieces@;
        let ghost all = pieces_bytes(ps.skip(c.piece as int));
        proof {
            if c.piece == ps.len() {
                assert(ps.skip(c.piece as int) =~= Seq::<Piece>::empty());
            } else {
                pieces_bytes_around(ps, c.piece as int);
            }
            assert(ps.subrange(c.piece as int, c.piece as int) =~= Seq::<Piece>::empty());
        }
        while i < self.pieces.len() && s.len() < MAX_IOV
            invariant
                self.within(c),
                ps == self.pieces@,
                all == pieces_bytes(ps.skip(c.piece as int)),
                c.offset <= all.len(),
                c.piece <= i <= ps.len(),
                s@.len() == i - c.piece,
                s@.len() <= MAX_IOV,
                i == c.piece ==> s@.len() == 0,
                s@.len() > 0 ==> slices_bytes(s@).len() >= s@[0]@.len(),
                forall|j: int|
                    0 <= j < s@.len() ==> (#[trigger] s@[j])@ == ps[c.piece + j].bytes().skip(
                        if j == 0 {
                            c.offset as int
                        } else {
                            0
                        },
                    ),
                i > c.piece ==> c.offset <= pieces_bytes(ps.subrange(c.piece as int, i as int)).len()
                    && slices_bytes(s@) == pieces_bytes(ps.subrange(c.piece as int, i as int)).skip(
                    c.offset as int,
                ),
            decreases ps.len() - i,
        {
            let p = self.pieces[i].as_slice();
            let from: usize = if i == c.piece {
                c.offset
            } else {
                0
            };
            let ghost before = s@;
            let ghost part = ps.subrange(c.piece as int, i as int);
            s.push(slice_subrange(p, from, p.len()));
            proof {
                assert(s@.drop_last() =~= before);
                assert(ps.subrange(c.piece as int, i + 1) =~= part.push(ps[i as int]));
                pieces_bytes_push(part, ps[i as int]);
                assert(s@.last()@ == ps[i as int].bytes().skip(from as int));
                if i == c.piece {
                    assert(part =~= Seq::<Piece>::empty());
                    assert(slices_bytes(before) =~= Seq::<u8>::empty());
                }
                assert(slices_bytes(s@) =~= pieces_bytes(part.push(ps[i as int])).skip(
                    c.offset as int,
                ));
            }
            i = i + 1;
        }
        proof {
            let part = ps.subrange(c.piece as int, i as int);
            assert(ps.skip(c.piece as int) =~= part + ps.skip(i as int));
            pieces_bytes_concat(part, ps.skip(i as int));
            if i > c.piece {
                assert(all.skip(c.offset as int) =~= slices_bytes(s@) + pieces_bytes(
                    ps.skip(i as int),
                ));
            }
            if i == ps.len() {
                assert(ps.skip(i as int) =~= Seq::<Piece>::empty());
                assert(all =~= pieces_bytes(part));
            }
        }
        s
    }

    /// Where a flush stands once `n` more bytes were written.
    pub fn wrote(&self, c: Cursor, n: usize) -> (next: Cursor)
        requires
            self.within(c),
            n <= self.unsent(c).len(),
        ensures
            self.within(next),
            self.unsent(next) == self.unsent(c).skip(n as int),
    {
        let mut next = c;
        let mut written: usize = n;
        let total: usize = self.pieces.len();
        let ghost ps = self.pieces@;
        assert(self.unsent(c).skip(0) =~= self.unsent(c));
        while written > 0
            invariant
                self.within(next),
                ps == self.pieces@,
                total == ps.len(),
                written <= n <= self.unsent(c).len(),
                self.unsent(next) == self.unsent(c).skip(n - written),
            decreases written, ps.len() - next.piece,
        {
            proof {
                assert(self.unsent(next).len() >= written);
                if next.piece == ps.len() {
                    assert(ps.skip(next.piece as int) =~= Seq::<Piece>::empty());
                    assert(self.unsent(next) =~= Seq::<u8>::empty());
                } else {
                    pieces_bytes_around(ps, next.piece as int);
                }
            }
            let remaining: usize = self.pieces[next.piece].as_slice().len() - next.offset;
            let ghost before = self.unsent(next);
            if written >= remaining {
                written = written - remaining;
                next = Cursor { piece: next.piece + 1, offset: 0 };
                assert(self.unsent(next) =~= before.skip(remaining as int));
                assert(before.skip(remaining as int) =~= self.unsent(c).skip(n - written));
            } else {
                next = Cursor { piece: next.piece, offset: next.offset + written };
                assert(self.unsent(next) =~= before.skip(written as int));
                assert(before.skip(written as int) =~= self.unsent(c).skip(n as int));
                written = 0;
            }
        }
        next
    }

    /// Where a flush stands once a write took `n` bytes. One that took nothing
    /// while something was left is an error: the sink takes no more.
    pub fn took(&self, c: Cursor, n: usize) -> (r: Option<Cursor>)
        requires
            self.within(c),
            !self.at_end(c),
            n <= self.unsent(c).len(),
        ensures
            n == 0 ==> r is None,
            n > 0 ==> (r matches Some(next) && self.within(next) && self.unsent(next)
                == self.unsent(c).skip(n as int)),
    {
        if n == 0 {
            None
        } else {
            Some(self.wrote(c, n))
        }
    }

    /// What a flush has sent and what it has left are what is queued, in order
    /// and each byte once, whatever each write takes; with nothing left, all of
    /// it was sent. A write that takes anything brings the end closer.
    pub proof fn a_flush_sends_what_is_queued(&self, sent: Seq<u8>, c: Cursor, next: Cursor, n: int)
        requires
            sent + self.unsent(c) == self@,
            0 <= n <= self.unsent(c).len(),
            self.unsent(next) == self.unsent(c).skip(n),
        ensures
            sent + self.unsent(c).take(n) + self.unsent(next) == self@,
            self.unsent(next).len() == 0 ==> sent + self.unsent(c).take(n) == self@,
            n > 0 ==> self.unsent(next).len() < self.unsent(c).len(),
    {
        assert(sent + self.unsent(c).take(n) + self.unsent(next) =~= sent + self.unsent(c));
        if self.unsent(next).len() == 0 {
            assert(sent + self.unsent(c).take(n) =~= self@);
        }
    }

    /// Empties the writer once everything has been written.
    pub fn flushed(&mut self)
        requires
            old(self).wf(),
            old(self).sealed(),
        ensures
            final(self).wf(),
            final(self)@ == Seq::<u8>::empty(),
            final(self).layout() == Layout::nothing(),
            final(self).limit() == old(self).limit(),
    {
        self.pieces.clear();
        self.len = 0;
        // Every piece is dropped now, so the chunk's allocation is unique
        // again and `reserve` reclaims it in place instead of allocating.
        self.chunk.reserve(BUF);
        assert(self@ =~= Seq::<u8>::empty());
        assert(self.layout() =~= Layout::nothing());
    }

    /// Drain queued output as one contiguous buffer (for callers that do
    /// their own I/O).
    pub fn take(&mut self) -> (v: Vec<u8>)
        requires
            old(self).wf(),
        ensures
            v@ == old(self)@,
            final(self).wf(),
            final(self)@ == Seq::<u8>::empty(),
            final(self).layout() == Layout::nothing(),
            final(self).limit() == old(self).limit(),
    {
        let mut v: Vec<u8> = Vec::new();
        let mut i: usize = 0;
        while i < self.pieces.len()
            invariant
                i <= self.pieces@.len(),
                v@ == pieces_bytes(self.pieces@.take(i as int)),
            decreases self.pieces@.len() - i,
        {
            proof {
                pieces_bytes_around(self.pieces@, i as int);
            }
            v.extend_from_slice(self.pieces[i].as_slice());
            i = i + 1;
        }
        assert(self.pieces@.take(self.pieces@.len() as int) =~= self.pieces@);
        let rest = self.chunk.split();
        v.extend_from_slice(buf::mut_slice(&rest));
        self.pieces.clear();
        self.len = 0;
        assert(v@ =~= old(self)@);
        assert(self@ =~= Seq::<u8>::empty());
        assert(self.layout() =~= Layout::nothing());
        v
    }
}

/// A buffer grows only where the room left is less than a read wants: all that
/// is missing of the frame, as far as the buffer spans as much, and 16 KiB at
/// the least. It then has that room, and was grown by 64 KiB at the least.
pub proof fn a_read_has_room(need: nat, len: nat, capacity: nat)
    requires
        len <= capacity,
    ensures
        ({
            let g = growth(need, len, capacity);
            let room = capacity - len + g;
            &&& room >= 16384
            &&& room >= need - len || room >= capacity
            &&& room >= need - len || room >= 65536
            &&& g == 0 || g >= 65536
            &&& g > 0 ==> capacity - len < 16384 || capacity < need
        }),
{
}

/// What is short is copied behind what was copied before, as long as 64 KiB hold
/// it; what is not short is not copied, and stands on its own behind the rest.
pub proof fn only_short_pieces_are_copied(l: Layout, b: Seq<u8>, limit: nat)
    ensures
        b.len() < limit && l.rest.len() + b.len() <= 65536 ==> l.queued(b, limit) == (Layout {
            rest: l.rest + b,
            ..l
        }),
        b.len() < limit && l.rest.len() + b.len() > 65536 ==> l.queued(b, limit).rest == b,
        b.len() >= limit ==> l.queued(b, limit).rest.len() == 0 && l.queued(b, limit).parts.last()
            == b,
        l.rest.len() > 0 && b.len() >= limit ==> l.queued(b, limit).parts == l.parts.push(
            l.rest,
        ).push(b),
        l.rest.len() == 0 && b.len() >= limit ==> l.queued(b, limit).parts == l.parts.push(b),
{
}

} // verus!
