//! The wire protocol shared by the server and the clients.
//!
//! Every message is a frame: `u8 tag, u32 len, body[len]`, little-endian.
//! A request's tag is its [`Op`], a response's is its [`Status`]. Bodies:
//!
//! ```text
//! op 1 GET   key                          -> Ok, value | NotFound
//! op 2 SET   u32 klen, key, value         -> Ok | TooLarge
//! op 3 DEL   key                          -> Ok (deleted) | NotFound
//! op 4 AUTH  token                        -> Ok | Unauthorized
//! op 5 PING  (ignored)                    -> Ok
//! op 6 BATCH u32 count, count x (u8 op, u32 len, body)
//!            -> Ok, u32 count, count x (u8 status, u32 len, body)
//! ```

use crate::buf;
use crate::text;
use bytes::{Bytes, BytesMut};
use vstd::prelude::*;
use vstd::slice::slice_subrange;

verus! {

/// Bytes in a frame header: tag plus length.
pub const HEADER_LEN: usize = 5;

/// Request tags.
#[derive(Clone, Copy, Debug, PartialEq, Eq, Structural)]
pub enum Op {
    Get,
    /// SET.
    Put,
    Del,
    Auth,
    Ping,
    Batch,
}

impl Op {
    /// The byte that stands for the op on the wire.
    pub open spec fn byte(self) -> u8 {
        match self {
            Op::Get => 1,
            Op::Put => 2,
            Op::Del => 3,
            Op::Auth => 4,
            Op::Ping => 5,
            Op::Batch => 6,
        }
    }

    /// The byte that stands for the op on the wire.
    pub fn as_u8(self) -> (b: u8)
        ensures
            b == self.byte(),
    {
        match self {
            Op::Get => 1,
            Op::Put => 2,
            Op::Del => 3,
            Op::Auth => 4,
            Op::Ping => 5,
            Op::Batch => 6,
        }
    }

    /// The op that `b` stands for, if any.
    pub fn from_u8(b: u8) -> (op: Option<Self>)
        ensures
            match op {
                Some(op) => op.byte() == b,
                None => forall|op: Op| #[trigger] op.byte() != b,
            },
    {
        match b {
            1 => Some(Op::Get),
            2 => Some(Op::Put),
            3 => Some(Op::Del),
            4 => Some(Op::Auth),
            5 => Some(Op::Ping),
            6 => Some(Op::Batch),
            _ => None,
        }
    }
}

/// Response tags. `Success`, which is Ok on the wire, and `NotFound` are
/// answers; the rest are refusals whose body is a message.
#[derive(Clone, Copy, Debug, PartialEq, Eq, Structural)]
pub enum Status {
    Success,
    BadRequest,
    UnknownOp,
    TooLarge,
    Unauthorized,
    NotFound,
}

impl Status {
    /// The byte that stands for the status on the wire.
    pub open spec fn byte(self) -> u8 {
        match self {
            Status::Success => 0,
            Status::BadRequest => 1,
            Status::UnknownOp => 2,
            Status::TooLarge => 3,
            Status::Unauthorized => 4,
            Status::NotFound => 5,
        }
    }

    /// The byte that stands for the status on the wire.
    pub fn as_u8(self) -> (b: u8)
        ensures
            b == self.byte(),
    {
        match self {
            Status::Success => 0,
            Status::BadRequest => 1,
            Status::UnknownOp => 2,
            Status::TooLarge => 3,
            Status::Unauthorized => 4,
            Status::NotFound => 5,
        }
    }

    /// The status that `b` stands for, if any.
    pub fn from_u8(b: u8) -> (status: Option<Self>)
        ensures
            match status {
                Some(status) => status.byte() == b,
                None => forall|status: Status| #[trigger] status.byte() != b,
            },
    {
        match b {
            0 => Some(Status::Success),
            1 => Some(Status::BadRequest),
            2 => Some(Status::UnknownOp),
            3 => Some(Status::TooLarge),
            4 => Some(Status::Unauthorized),
            5 => Some(Status::NotFound),
            _ => None,
        }
    }
}

/// No two ops share a byte, and no two statuses do, so the byte on the wire
/// names the tag.
pub proof fn tags_are_distinct(a: Op, b: Op, s: Status, t: Status)
    ensures
        a.byte() == b.byte() ==> a == b,
        s.byte() == t.byte() ==> s == t,
{
}

/// Why a body did not parse.
#[derive(Clone, Copy, Debug, PartialEq, Eq, Structural)]
pub enum DecodeError {
    /// The body ends `needed` bytes early.
    Truncated { needed: usize },
    /// This many bytes follow the last item.
    Trailing(usize),
    /// A batch announces this many items.
    TooMany(usize),
}

impl DecodeError {
    /// The message for the error.
    pub open spec fn text(self) -> Seq<char> {
        match self {
            DecodeError::Truncated { needed } => "unexpected end of frame: needed "@ + text::decimal(
                needed as nat,
            ) + " more bytes"@,
            DecodeError::Trailing(n) => "trailing "@ + text::decimal(n as nat) + " bytes after frame"@,
            DecodeError::TooMany(n) => text::decimal(n as nat)
                + " items in one batch exceeds the limit of "@ + text::decimal(MAX_ITEMS as nat),
        }
    }

    /// The message for the error.
    pub fn to_string(&self) -> (s: String)
        ensures
            s@ == self.text(),
    {
        let mut s = String::new();
        match *self {
            DecodeError::Truncated { needed } => {
                s.append("unexpected end of frame: needed ");
                text::push_decimal(&mut s, needed as u64);
                s.append(" more bytes");
            },
            DecodeError::Trailing(n) => {
                s.append("trailing ");
                text::push_decimal(&mut s, n as u64);
                s.append(" bytes after frame");
            },
            DecodeError::TooMany(n) => {
                text::push_decimal(&mut s, n as u64);
                s.append(" items in one batch exceeds the limit of ");
                text::push_decimal(&mut s, MAX_ITEMS as u64);
            },
        }
        assert(s@ =~= self.text());
        s
    }
}

/// Bytes in a length.
pub const U32: usize = 4;

/// Largest frame body either side accepts.
pub const MAX_FRAME: usize = 0x400_0000;

/// Most items in one batch.
pub const MAX_ITEMS: usize = 0x1_0000;

/// How long a client waits without a write before it pings the server, in
/// seconds.
pub const KEEPALIVE: u64 = 100;

// Lengths

/// The number that four bytes stand for, least significant first.
pub open spec fn from_le32(b: Seq<u8>) -> nat {
    (b[0] + 256 * b[1] + 65536 * b[2] + 16777216 * b[3]) as nat
}

/// A length that fits survives being written and read.
pub proof fn le32_roundtrip(n: nat)
    requires
        n <= u32::MAX,
    ensures
        buf::le32(n).len() == 4,
        from_le32(buf::le32(n)) == n,
{
}

/// Four bytes survive being read and written.
pub proof fn from_le32_roundtrip(b: Seq<u8>)
    requires
        b.len() == 4,
    ensures
        from_le32(b) <= u32::MAX,
        buf::le32(from_le32(b)) == b,
{
    let (b0, b1, b2, b3) = (b[0] as int, b[1] as int, b[2] as int, b[3] as int);
    let n = from_le32(b) as int;
    assert(n == b0 + 256 * (b1 + 256 * (b2 + 256 * b3)));
    assert(n % 256 == b0 && n / 256 == b1 + 256 * (b2 + 256 * b3));
    assert((n / 256) % 256 == b1 && (n / 256) / 256 == b2 + 256 * b3);
    assert(n / 65536 == (n / 256) / 256);
    assert((n / 65536) % 256 == b2 && (n / 65536) / 256 == b3);
    assert(n / 16777216 == (n / 65536) / 256);
    assert(buf::le32(from_le32(b)) =~= b);
}

/// `n` as four bytes, least significant first.
pub fn to_le_bytes(n: u32) -> (b: [u8; 4])
    ensures
        b@ == buf::le32(n as nat),
{
    let b: [u8; 4] = [
        (n % 256) as u8,
        (n / 256 % 256) as u8,
        (n / 65536 % 256) as u8,
        (n / 16777216 % 256) as u8,
    ];
    assert(b@ =~= buf::le32(n as nat));
    b
}

/// The number that `b`'s first four bytes stand for.
fn read_u32(b: &[u8]) -> (n: u32)
    requires
        b@.len() >= 4,
    ensures
        n == from_le32(b@.subrange(0, 4)),
{
    b[0] as u32 + 256 * b[1] as u32 + 65536 * b[2] as u32 + 16777216 * b[3] as u32
}

// Frames

/// The header of a frame: the tag, then the length of the body.
pub open spec fn header_bytes(tag: u8, len: nat) -> Seq<u8> {
    seq![tag] + buf::le32(len)
}

/// A frame, tag and body, as it is sent.
pub open spec fn frame_bytes(f: (u8, Seq<u8>)) -> Seq<u8> {
    header_bytes(f.0, f.1.len()) + f.1
}

/// The header of a frame whose body has `len` bytes.
#[inline]
pub fn encode_header(tag: u8, len: usize) -> (h: [u8; HEADER_LEN])
    requires
        len <= u32::MAX,
    ensures
        h@ == header_bytes(tag, len as nat),
{
    let l = to_le_bytes(len as u32);
    let h: [u8; HEADER_LEN] = [tag, l[0], l[1], l[2], l[3]];
    assert(h@ =~= header_bytes(tag, len as nat));
    h
}

/// The tag and the body length of a header.
#[inline]
pub fn decode_header(h: &[u8; HEADER_LEN]) -> (r: (u8, usize))
    ensures
        r.0 == h@[0],
        r.1 == from_le32(h@.subrange(1, 5)),
        h@ == header_bytes(r.0, r.1 as nat),
{
    let len: u32 = h[1] as u32 + 256 * h[2] as u32 + 65536 * h[3] as u32 + 16777216 * h[4] as u32;
    proof {
        from_le32_roundtrip(h@.subrange(1, 5));
        assert(h@ =~= seq![h@[0]] + h@.subrange(1, 5));
    }
    (h[0], len as usize)
}

/// The body length in the header at the start of `b`.
pub fn body_len(b: &[u8]) -> (n: usize)
    requires
        b@.len() >= HEADER_LEN,
    ensures
        n == from_le32(b@.subrange(1, 5)) <= u32::MAX,
{
    assert(b@.subrange(1, 5).subrange(0, 4) =~= b@.subrange(1, 5));
    read_u32(slice_subrange(b, 1, HEADER_LEN)) as usize
}

/// Reading a header back gives the tag and the length it was made from.
pub proof fn header_reads_back(tag: u8, len: nat)
    requires
        len <= u32::MAX,
    ensures
        header_bytes(tag, len).len() == HEADER_LEN,
        header_bytes(tag, len)[0] == tag,
        from_le32(header_bytes(tag, len).subrange(1, 5)) == len,
{
    le32_roundtrip(len);
    assert(header_bytes(tag, len).subrange(1, 5) =~= buf::le32(len));
}


// SET bodies

/// A SET body: the key's length, the key, then the value.
pub open spec fn set_bytes(key: Seq<u8>, value: Seq<u8>) -> Seq<u8> {
    buf::le32(key.len()) + key + value
}

/// What a SET body says: its key and value, or why it does not parse.
pub open spec fn parse_set(body: Seq<u8>) -> Result<(Seq<u8>, Seq<u8>), DecodeError> {
    if body.len() < 4 {
        Err(DecodeError::Truncated { needed: (4 - body.len()) as usize })
    } else {
        let klen = from_le32(body.subrange(0, 4));
        let rest = body.skip(4);
        if rest.len() < klen {
            Err(DecodeError::Truncated { needed: (klen - rest.len()) as usize })
        } else {
            Ok((rest.take(klen as int), rest.skip(klen as int)))
        }
    }
}

/// A SET body parses to the key and value it was made from.
pub proof fn set_reads_back(key: Seq<u8>, value: Seq<u8>)
    requires
        key.len() <= u32::MAX,
    ensures
        parse_set(set_bytes(key, value)) == Ok::<(Seq<u8>, Seq<u8>), DecodeError>((key, value)),
        set_bytes(key, value).len() == 4 + key.len() + value.len(),
{
    let body = set_bytes(key, value);
    le32_roundtrip(key.len());
    assert(body.subrange(0, 4) =~= buf::le32(key.len()));
    assert(body.skip(4) =~= key + value);
    assert((key + value).take(key.len() as int) =~= key);
    assert((key + value).skip(key.len() as int) =~= value);
}

/// A body that parses is the SET body of what it parses to.
pub proof fn set_writes_back(body: Seq<u8>)
    requires
        parse_set(body) is Ok,
    ensures
        parse_set(body) matches Ok((key, value)) && set_bytes(key, value) == body,
{
    let klen = from_le32(body.subrange(0, 4));
    from_le32_roundtrip(body.subrange(0, 4));
    let rest = body.skip(4);
    assert(set_bytes(rest.take(klen as int), rest.skip(klen as int)) =~= body);
}

#[inline]
fn split_count(body: &[u8]) -> (r: Result<(usize, &[u8]), DecodeError>)
    ensures
        match r {
            Ok((n, rest)) => body@.len() >= 4 && n == from_le32(body@.subrange(0, 4)) && rest@
                == body@.skip(4),
            Err(e) => body@.len() < 4 && e == (DecodeError::Truncated {
                needed: (4 - body@.len()) as usize,
            }),
        },
{
    if body.len() < U32 {
        return Err(DecodeError::Truncated { needed: U32 - body.len() });
    }
    let n: u32 = read_u32(body);
    Ok((n as usize, slice_subrange(body, U32, body.len())))
}

#[inline]
fn split_len(b: &[u8], len: usize) -> (r: Result<(&[u8], &[u8]), DecodeError>)
    ensures
        match r {
            Ok((head, rest)) => len <= b@.len() && head@ == b@.take(len as int) && rest@ == b@.skip(
                len as int,
            ),
            Err(e) => b@.len() < len && e == (DecodeError::Truncated {
                needed: (len - b@.len()) as usize,
            }),
        },
{
    if b.len() < len {
        return Err(DecodeError::Truncated { needed: len - b.len() });
    }
    Ok((slice_subrange(b, 0, len), slice_subrange(b, len, b.len())))
}

/// Size of a SET body for `key` and `value`.
#[inline]
pub fn set_size(key: &[u8], value: &[u8]) -> (n: usize)
    requires
        4 + key@.len() + value@.len() <= usize::MAX,
    ensures
        n == set_bytes(key@, value@).len(),
{
    U32 + key.len() + value.len()
}

/// Append a SET body to `out`.
#[inline]
pub fn put_set(out: &mut BytesMut, key: &[u8], value: &[u8])
    requires
        key@.len() <= u32::MAX,
        buf::mut_seq(*old(out)).len() + 4 + key@.len() + value@.len() <= buf::MAX_LEN,
    ensures
        buf::mut_seq(*final(out)) == buf::mut_seq(*old(out)) + set_bytes(key@, value@),
{
    put_set_key(out, key);
    buf::put_slice(out, value);
    assert(buf::mut_seq(*out) =~= buf::mut_seq(*old(out)) + set_bytes(key@, value@));
}

/// Append the `u32 klen, key` prefix of a SET body; the value follows it.
#[inline]
pub fn put_set_key(out: &mut BytesMut, key: &[u8])
    requires
        key@.len() <= u32::MAX,
        buf::mut_seq(*old(out)).len() + 4 + key@.len() <= buf::MAX_LEN,
    ensures
        buf::mut_seq(*final(out)) == buf::mut_seq(*old(out)) + buf::le32(key@.len()) + key@,
{
    buf::put_u32_le(out, key.len() as u32);
    buf::put_slice(out, key);
}

/// A SET body.
pub fn encode_set(key: &[u8], value: &[u8]) -> (body: Bytes)
    requires
        key@.len() <= u32::MAX,
        4 + key@.len() + value@.len() <= buf::MAX_LEN,
    ensures
        buf::bytes_seq(body) == set_bytes(key@, value@),
{
    let mut out = BytesMut::with_capacity(set_size(key, value));
    put_set(&mut out, key, value);
    assert(buf::mut_seq(out) =~= set_bytes(key@, value@));
    out.freeze()
}

/// The key and value of a SET body.
#[inline]
pub fn set_body(body: &[u8]) -> (r: Result<(&[u8], &[u8]), DecodeError>)
    ensures
        match r {
            Ok((key, value)) => parse_set(body@) == Ok::<(Seq<u8>, Seq<u8>), DecodeError>(
                (key@, value@),
            ),
            Err(e) => parse_set(body@) == Err::<(Seq<u8>, Seq<u8>), DecodeError>(e),
        },
{
    match split_count(body) {
        Ok((klen, rest)) => split_len(rest, klen),
        Err(e) => Err(e),
    }
}

// Batches

/// Frames one after another, as they are sent.
pub open spec fn frames_bytes(fs: Seq<(u8, Seq<u8>)>) -> Seq<u8>
    decreases fs.len(),
{
    if fs.len() == 0 {
        Seq::empty()
    } else {
        frames_bytes(fs.drop_last()) + frame_bytes(fs.last())
    }
}

/// A batch body, or the body of a batch's reply: how many frames, then the frames.
pub open spec fn batch_bytes(fs: Seq<(u8, Seq<u8>)>) -> Seq<u8> {
    buf::le32(fs.len()) + frames_bytes(fs)
}

/// The frame at the head of `b` and what follows it, or what is missing.
pub open spec fn parse_frame(b: Seq<u8>) -> Result<((u8, Seq<u8>), Seq<u8>), DecodeError> {
    if b.len() < HEADER_LEN {
        Err(DecodeError::Truncated { needed: (HEADER_LEN - b.len()) as usize })
    } else {
        let len = from_le32(b.subrange(1, 5));
        let rest = b.skip(5);
        if rest.len() < len {
            Err(DecodeError::Truncated { needed: (len - rest.len()) as usize })
        } else {
            Ok(((b[0], rest.take(len as int)), rest.skip(len as int)))
        }
    }
}

/// The first `n` frames of `b` and what follows them, or what is missing.
pub open spec fn parse_frames(n: nat, b: Seq<u8>) -> Result<
    (Seq<(u8, Seq<u8>)>, Seq<u8>),
    DecodeError,
>
    decreases n,
{
    if n == 0 {
        Ok((Seq::empty(), b))
    } else {
        match parse_frame(b) {
            Err(e) => Err(e),
            Ok((f, rest)) => prepend(seq![f], parse_frames((n - 1) as nat, rest)),
        }
    }
}

/// `fs` in front of the frames that were parsed, if they were.
pub open spec fn prepend(
    fs: Seq<(u8, Seq<u8>)>,
    r: Result<(Seq<(u8, Seq<u8>)>, Seq<u8>), DecodeError>,
) -> Result<(Seq<(u8, Seq<u8>)>, Seq<u8>), DecodeError> {
    match r {
        Err(e) => Err(e),
        Ok((gs, rest)) => Ok((fs + gs, rest)),
    }
}

/// The frames of a batch body, or why it is refused: too short for what it
/// announces, too many frames, or bytes left over.
pub open spec fn parse_batch(body: Seq<u8>) -> Result<Seq<(u8, Seq<u8>)>, DecodeError> {
    if body.len() < 4 {
        Err(DecodeError::Truncated { needed: (4 - body.len()) as usize })
    } else {
        let n = from_le32(body.subrange(0, 4));
        if n > MAX_ITEMS {
            Err(DecodeError::TooMany(n as usize))
        } else {
            match parse_frames(n, body.skip(4)) {
                Err(e) => Err(e),
                Ok((fs, rest)) => if rest.len() > 0 {
                    Err(DecodeError::Trailing(rest.len() as usize))
                } else {
                    Ok(fs)
                },
            }
        }
    }
}

/// Whether every body's length can be written in a header.
pub open spec fn bodies_fit(fs: Seq<(u8, Seq<u8>)>) -> bool {
    forall|i: int| 0 <= i < fs.len() ==> (#[trigger] fs[i]).1.len() <= u32::MAX
}

/// Writing one frame and then others is writing them all.
pub proof fn frames_bytes_front(f: (u8, Seq<u8>), fs: Seq<(u8, Seq<u8>)>)
    ensures
        frames_bytes(seq![f] + fs) == frame_bytes(f) + frames_bytes(fs),
    decreases fs.len(),
{
    let all = seq![f] + fs;
    if fs.len() == 0 {
        assert(all.drop_last() =~= Seq::<(u8, Seq<u8>)>::empty());
        assert(all.last() == f);
        assert(frames_bytes(all.drop_last()) =~= Seq::<u8>::empty());
        assert(frames_bytes(all) =~= frame_bytes(f) + frames_bytes(fs));
    } else {
        assert(all.drop_last() =~= seq![f] + fs.drop_last());
        frames_bytes_front(f, fs.drop_last());
        assert(frames_bytes(all) =~= frame_bytes(f) + frames_bytes(fs));
    }
}

/// Writing frames in two parts is writing them all.
pub proof fn frames_bytes_concat(a: Seq<(u8, Seq<u8>)>, b: Seq<(u8, Seq<u8>)>)
    ensures
        frames_bytes(a + b) == frames_bytes(a) + frames_bytes(b),
    decreases b.len(),
{
    if b.len() == 0 {
        assert(a + b =~= a);
        assert(frames_bytes(a + b) =~= frames_bytes(a) + frames_bytes(b));
    } else {
        assert((a + b).drop_last() =~= a + b.drop_last());
        frames_bytes_concat(a, b.drop_last());
        assert(frames_bytes(a + b) =~= frames_bytes(a) + frames_bytes(b));
    }
}

/// Where the body of the frame at `i` lies among the bytes of the frames.
pub proof fn frame_position(fs: Seq<(u8, Seq<u8>)>, i: int)
    requires
        0 <= i < fs.len(),
    ensures
        frames_bytes(fs.take(i + 1)).len() == frames_bytes(fs.take(i)).len() + HEADER_LEN
            + fs[i].1.len(),
        frames_bytes(fs.take(i + 1)).len() <= frames_bytes(fs).len(),
        frames_bytes(fs).subrange(
            frames_bytes(fs.take(i)).len() + HEADER_LEN,
            frames_bytes(fs.take(i + 1)).len() as int,
        ) == fs[i].1,
{
    let head = fs.take(i);
    let f = fs[i];
    assert(fs.take(i + 1) =~= head.push(f));
    assert(head.push(f).drop_last() =~= head);
    let bytes = frames_bytes(head) + frame_bytes(f);
    assert(frames_bytes(fs.take(i + 1)) == bytes);
    assert(fs =~= fs.take(i + 1) + fs.skip(i + 1));
    frames_bytes_concat(fs.take(i + 1), fs.skip(i + 1));
    assert(frames_bytes(fs).subrange(
        frames_bytes(head).len() + HEADER_LEN,
        bytes.len() as int,
    ) =~= f.1);
}

/// A frame's body is no longer than all the frames together.
pub proof fn frame_is_within(fs: Seq<(u8, Seq<u8>)>, i: int)
    requires
        0 <= i < fs.len(),
    ensures
        HEADER_LEN + fs[i].1.len() <= frames_bytes(fs).len(),
{
    frame_position(fs, i);
}

/// Every frame takes at least its header.
pub proof fn frames_bytes_len(fs: Seq<(u8, Seq<u8>)>)
    ensures
        frames_bytes(fs).len() >= 5 * fs.len(),
    decreases fs.len(),
{
    if fs.len() > 0 {
        frames_bytes_len(fs.drop_last());
    }
}

/// A frame followed by anything parses to that frame and what follows it.
pub proof fn frame_reads_back(f: (u8, Seq<u8>), rest: Seq<u8>)
    requires
        f.1.len() <= u32::MAX,
    ensures
        parse_frame(frame_bytes(f) + rest) == Ok::<((u8, Seq<u8>), Seq<u8>), DecodeError>(
            (f, rest),
        ),
{
    let b = frame_bytes(f) + rest;
    header_reads_back(f.0, f.1.len());
    assert(b.subrange(1, 5) =~= header_bytes(f.0, f.1.len()).subrange(1, 5));
    assert(b.skip(5) =~= f.1 + rest);
    assert((f.1 + rest).take(f.1.len() as int) =~= f.1);
    assert((f.1 + rest).skip(f.1.len() as int) =~= rest);
}

/// Frames followed by anything parse to those frames and what follows them.
pub proof fn frames_read_back(fs: Seq<(u8, Seq<u8>)>, rest: Seq<u8>)
    requires
        bodies_fit(fs),
    ensures
        parse_frames(fs.len(), frames_bytes(fs) + rest) == Ok::<
            (Seq<(u8, Seq<u8>)>, Seq<u8>),
            DecodeError,
        >((fs, rest)),
    decreases fs.len(),
{
    if fs.len() == 0 {
        assert(frames_bytes(fs) + rest =~= rest);
        assert(fs =~= Seq::empty());
    } else {
        let tail = fs.drop_first();
        assert(fs =~= seq![fs[0]] + tail);
        frames_bytes_front(fs[0], tail);
        assert(frames_bytes(fs) + rest =~= frame_bytes(fs[0]) + (frames_bytes(tail) + rest));
        frame_reads_back(fs[0], frames_bytes(tail) + rest);
        frames_read_back(tail, rest);
    }
}

/// A batch parses to the items it was made from.
pub proof fn batch_reads_back(fs: Seq<(u8, Seq<u8>)>)
    requires
        fs.len() <= MAX_ITEMS,
        bodies_fit(fs),
    ensures
        parse_batch(batch_bytes(fs)) == Ok::<Seq<(u8, Seq<u8>)>, DecodeError>(fs),
{
    let body = batch_bytes(fs);
    le32_roundtrip(fs.len());
    assert(body.subrange(0, 4) =~= buf::le32(fs.len()));
    assert(body.skip(4) =~= frames_bytes(fs) + Seq::<u8>::empty());
    frames_read_back(fs, Seq::empty());
}

/// What was parsed, written again and followed by the rest, is what was read.
pub proof fn frames_write_back(n: nat, b: Seq<u8>)
    requires
        parse_frames(n, b) is Ok,
    ensures
        parse_frames(n, b) matches Ok((fs, rest)) && fs.len() == n && bodies_fit(fs)
            && frames_bytes(fs) + rest == b,
    decreases n,
{
    if n == 0 {
        assert(frames_bytes(Seq::empty()) + b =~= b);
    } else {
        let (f, r) = parse_frame(b)->Ok_0;
        let (gs, rest) = parse_frames((n - 1) as nat, r)->Ok_0;
        frames_write_back((n - 1) as nat, r);
        from_le32_roundtrip(b.subrange(1, 5));
        frames_bytes_front(f, gs);
        assert(frame_bytes(f) + r =~= b);
        assert(frames_bytes(seq![f] + gs) + rest =~= frame_bytes(f) + (frames_bytes(gs) + rest));
    }
}

/// A batch body that is accepted is the batch of what it parses to, so
/// re-sending the items re-sends the body.
pub proof fn batch_writes_back(body: Seq<u8>)
    requires
        parse_batch(body) is Ok,
    ensures
        parse_batch(body) matches Ok(fs) && fs.len() <= MAX_ITEMS && bodies_fit(fs)
            && batch_bytes(fs) == body,
{
    let n = from_le32(body.subrange(0, 4));
    from_le32_roundtrip(body.subrange(0, 4));
    frames_write_back(n, body.skip(4));
    let fs = parse_batch(body)->Ok_0;
    assert(batch_bytes(fs) =~= body);
}

/// The items of a BATCH body, or the replies of a BATCH response: nested
/// frames, validated once up front so walking them cannot fail.
#[derive(Clone, Debug)]
pub struct Frames<'a> {
    rest: &'a [u8],
    left: usize,
}

impl<'a> View for Frames<'a> {
    type V = Seq<(u8, Seq<u8>)>;

    /// The frames still to come.
    closed spec fn view(&self) -> Seq<(u8, Seq<u8>)> {
        self.items()
    }
}

impl<'a> Frames<'a> {
    #[verifier::opaque]
    closed spec fn items(&self) -> Seq<(u8, Seq<u8>)> {
        parse_frames(self.left as nat, self.rest@)->Ok_0.0
    }

    /// All announced frames are there, and nothing follows them.
    #[verifier::opaque]
    pub closed spec fn wf(&self) -> bool {
        parse_frames(self.left as nat, self.rest@) matches Ok((fs, r)) && r.len() == 0
    }

    /// How many frames are still to come.
    pub fn len(&self) -> (n: usize)
        requires
            self.wf(),
        ensures
            n == self@.len(),
    {
        proof {
            reveal(Frames::wf);
            reveal(Frames::items);
            frames_write_back(self.left as nat, self.rest@);
        }
        self.left
    }

    /// The next frame, as `(tag, body)`.
    #[inline]
    pub fn next(&mut self) -> (r: Option<(u8, &'a [u8])>)
        requires
            old(self).wf(),
        ensures
            final(self).wf(),
            match r {
                Some((tag, body)) => old(self)@.len() > 0 && (tag, body@) == old(self)@[0]
                    && final(self)@ == old(self)@.drop_first(),
                None => old(self)@.len() == 0 && final(self)@ == old(self)@,
            },
    {
        proof {
            reveal(Frames::wf);
            reveal(Frames::items);
            frames_write_back(self.left as nat, self.rest@);
        }
        if self.left == 0 {
            return None;
        }
        self.left = self.left - 1;
        let tag: u8 = self.rest[0];
        let len: usize = body_len(self.rest);
        let rest = slice_subrange(self.rest, HEADER_LEN, self.rest.len());
        let body = slice_subrange(rest, 0, len);
        self.rest = slice_subrange(rest, len, rest.len());
        assert(old(self)@.drop_first() =~= self@);
        Some((tag, body))
    }
}

/// Validate a `u32 count, count x frame` body and walk its frames as
/// `(tag, body)`.
pub fn frames(body: &[u8]) -> (r: Result<Frames<'_>, DecodeError>)
    ensures
        match r {
            Ok(fs) => fs.wf() && parse_batch(body@) == Ok::<Seq<(u8, Seq<u8>)>, DecodeError>(fs@),
            Err(e) => parse_batch(body@) == Err::<Seq<(u8, Seq<u8>)>, DecodeError>(e),
        },
{
    let (n, first) = match split_count(body) {
        Ok(split) => split,
        Err(e) => return Err(e),
    };
    if n > MAX_ITEMS {
        return Err(DecodeError::TooMany(n));
    }
    let mut rest = first;
    let ghost mut done: Seq<(u8, Seq<u8>)> = Seq::empty();
    let mut i: usize = 0;
    assert(parse_frames(n as nat, first@) == prepend(done, parse_frames(n as nat, first@))) by {
        if parse_frames(n as nat, first@) is Ok {
            let fs = parse_frames(n as nat, first@)->Ok_0.0;
            assert(done + fs =~= fs);
        }
    }
    while i < n
        invariant
            i <= n <= MAX_ITEMS,
            body@.len() >= 4,
            n == from_le32(body@.subrange(0, 4)),
            first@ == body@.skip(4),
            parse_frames(n as nat, first@) == prepend(
                done,
                parse_frames((n - i) as nat, rest@),
            ),
        decreases n - i,
    {
        let ghost before = rest@;
        let (h, r) = match split_len(rest, HEADER_LEN) {
            Ok(split) => split,
            Err(e) => return Err(e),
        };
        assert(h@.subrange(1, 5) =~= before.subrange(1, 5));
        let len: usize = body_len(h);
        rest = match split_len(r, len) {
            Ok((_, after)) => after,
            Err(e) => return Err(e),
        };
        proof {
            let f = (before[0], before.skip(5).take(len as int));
            assert(parse_frame(before) == Ok::<((u8, Seq<u8>), Seq<u8>), DecodeError>((f, rest@)));
            let sub = parse_frames((n - i - 1) as nat, rest@);
            if sub is Ok {
                assert(done + (seq![f] + sub->Ok_0.0) =~= done.push(f) + sub->Ok_0.0);
            }
            done = done.push(f);
        }
        i = i + 1;
    }
    proof {
        reveal(Frames::wf);
        reveal(Frames::items);
        assert(done + Seq::<(u8, Seq<u8>)>::empty() =~= done);
    }
    if rest.len() > 0 {
        return Err(DecodeError::Trailing(rest.len()));
    }
    Ok(Frames { rest: first, left: n })
}


/// The replies of a BATCH response as owned `(status, body)` pairs sharing
/// the response's allocation.
pub fn decode_replies(body: Bytes) -> (r: Result<Vec<(u8, Bytes)>, DecodeError>)
    ensures
        match r {
            Ok(replies) => parse_batch(buf::bytes_seq(body)) == Ok::<
                Seq<(u8, Seq<u8>)>,
                DecodeError,
            >(reply_seq(replies@)),
            Err(e) => parse_batch(buf::bytes_seq(body)) == Err::<Seq<(u8, Seq<u8>)>, DecodeError>(
                e,
            ),
        },
{
    let whole = buf::bytes_slice(&body);
    let mut fs = match frames(whole) {
        Ok(fs) => fs,
        Err(e) => return Err(e),
    };
    let ghost all = fs@;
    proof {
        batch_writes_back(whole@);
        assert(whole@.skip(4) =~= frames_bytes(all));
        assert(all.take(0) =~= Seq::empty());
    }
    let n: usize = fs.len();
    let total: usize = whole.len();
    let mut out: Vec<(u8, Bytes)> = Vec::new();
    let mut at: usize = U32;
    let mut i: usize = 0;
    while i < n
        invariant
            i <= n,
            n == all.len(),
            fs.wf(),
            fs@ == all.skip(i as int),
            whole@ == buf::bytes_seq(body),
            4 <= whole@.len() == total,
            whole@.skip(4) == frames_bytes(all),
            at == 4 + frames_bytes(all.take(i as int)).len(),
            at <= whole@.len(),
            reply_seq(out@) == all.take(i as int),
        decreases n - i,
    {
        let ghost f = all[i as int];
        proof {
            frame_position(all, i as int);
            assert(all.skip(i as int).drop_first() =~= all.skip(i + 1));
            assert(all.take(i + 1) =~= all.take(i as int).push(f));
        }
        match fs.next() {
            Some((tag, b)) => {
                let start: usize = at + HEADER_LEN;
                let end: usize = start + b.len();
                let part = buf::slice_bytes(&body, start, end);
                assert(buf::bytes_seq(part) =~= whole@.skip(4).subrange(start - 4, end - 4));
                let ghost before = out@;
                out.push((tag, part));
                assert(reply_seq(out@) =~= reply_seq(before).push(f));
                at = end;
            },
            None => {},
        }
        i = i + 1;
    }
    assert(all.take(n as int) =~= all);
    Ok(out)
}

/// Owned frames as pairs of a tag and a body.
pub open spec fn reply_seq(replies: Seq<(u8, Bytes)>) -> Seq<(u8, Seq<u8>)> {
    replies.map_values(|r: (u8, Bytes)| (r.0, buf::bytes_seq(r.1)))
}

/// What a buffer holds behind the bytes that it held before.
pub open spec fn appended(before: BytesMut, after: BytesMut) -> Seq<u8> {
    buf::mut_seq(after).skip(buf::mut_seq(before).len() as int)
}

/// Builds a BATCH body: items in the order they are added.
pub struct BatchEncoder {
    out: BytesMut,
    count: usize,
    items: Ghost<Seq<(u8, Seq<u8>)>>,
}

impl View for BatchEncoder {
    type V = Seq<(u8, Seq<u8>)>;

    /// The items added so far.
    closed spec fn view(&self) -> Seq<(u8, Seq<u8>)> {
        self.items@
    }
}

impl Default for BatchEncoder {
    fn default() -> (b: Self)
        ensures
            b.wf(),
            b@ == Seq::<(u8, Seq<u8>)>::empty(),
    {
        Self::new()
    }
}

impl BatchEncoder {
    /// The buffer holds the items, behind room for their number.
    pub closed spec fn wf(&self) -> bool {
        &&& self.count == self.items@.len()
        &&& buf::mut_seq(self.out).len() >= 4
        &&& buf::mut_seq(self.out).skip(4) == frames_bytes(self.items@)
        &&& bodies_fit(self.items@)
    }

    /// Whether there is room for another `n` bytes of body.
    pub open spec fn room(&self, n: nat) -> bool {
        &&& n <= u32::MAX
        &&& batch_bytes(self@).len() + HEADER_LEN + n <= buf::MAX_LEN
    }

    pub fn new() -> (b: Self)
        ensures
            b.wf(),
            b@ == Seq::<(u8, Seq<u8>)>::empty(),
    {
        // Room for a typical batch of small items without regrowing from
        // nothing; callers that know their size use `with_capacity`.
        Self::with_capacity(512)
    }

    /// With room for `bytes` of items before the buffer grows.
    pub fn with_capacity(bytes: usize) -> (b: Self)
        requires
            4 + bytes <= buf::MAX_LEN,
        ensures
            b.wf(),
            b@ == Seq::<(u8, Seq<u8>)>::empty(),
    {
        let mut out = BytesMut::with_capacity(U32 + bytes);
        buf::put_u32_le(&mut out, 0);
        assert(buf::mut_seq(out).skip(4) =~= Seq::<u8>::empty());
        BatchEncoder { out, count: 0, items: Ghost(Seq::empty()) }
    }

    /// Items added so far.
    pub fn len(&self) -> (n: usize)
        requires
            self.wf(),
        ensures
            n == self@.len(),
    {
        self.count
    }

    pub fn is_empty(&self) -> (r: bool)
        requires
            self.wf(),
        ensures
            r == (self@.len() == 0),
    {
        self.count == 0
    }

    pub fn get(&mut self, key: &[u8])
        requires
            old(self).wf(),
            old(self).room(key@.len()),
        ensures
            final(self).wf(),
            final(self)@ == old(self)@.push((Op::Get.byte(), key@)),
    {
        self.push(Op::Get.as_u8(), key);
    }

    pub fn set(&mut self, key: &[u8], value: &[u8])
        requires
            old(self).wf(),
            old(self).room(4 + key@.len() + value@.len()),
        ensures
            final(self).wf(),
            final(self)@ == old(self)@.push((Op::Put.byte(), set_bytes(key@, value@))),
    {
        self.item(Op::Put.as_u8(), set_size(key, value));
        put_set(&mut self.out, key, value);
        let ghost body = set_bytes(key@, value@);
        assert(buf::mut_seq(self.out) =~= buf::mut_seq(old(self).out) + frame_bytes(
            (Op::Put.byte(), body),
        ));
        self.added(Op::Put.as_u8(), Ghost(body), Ghost(buf::mut_seq(old(self).out)));
    }

    /// A SET item whose value bytes are produced by `value` straight into
    /// the buffer, with no intermediate allocation, under a length patched
    /// afterwards. An error rolls the item back completely.
    pub fn set_with<E>(
        &mut self,
        key: &[u8],
        value: impl FnOnce(&mut BytesMut) -> Result<(), E>,
    ) -> (r: Result<(), E>)
        requires
            old(self).wf(),
            old(self).room(4 + key@.len()),
            forall|b: &mut BytesMut| #[trigger] call_requires(value, (b,)),
            forall|b: &mut BytesMut, r: Result<(), E>| #[trigger]
                call_ensures(value, (b,), r) ==> {
                    &&& buf::mut_seq(*b).is_prefix_of(buf::mut_seq(*final(b)))
                    &&& r is Ok ==> 4 + key@.len() + appended(*b, *final(b)).len() <= u32::MAX
                },
        ensures
            final(self).wf(),
            exists|b: &mut BytesMut| #[trigger]
                call_ensures(value, (b,), r) && final(self)@ == match r {
                    Ok(_) => old(self)@.push((Op::Put.byte(), set_bytes(key@, appended(*b, *final(b))))),
                    Err(_) => old(self)@,
                },
    {
        let ghost before = buf::mut_seq(self.out);
        let at: usize = self.out.len();
        self.item(Op::Put.as_u8(), 0);
        put_set_key(&mut self.out, key);
        let ghost prefix = buf::mut_seq(self.out);
        let out = &mut self.out;
        let r = value(out);
        let ghost v = buf::mut_seq(self.out).skip(prefix.len() as int);
        assert(exists|b: &mut BytesMut| #[trigger]
            call_ensures(value, (b,), r) && buf::mut_seq(*b) == prefix && appended(*b, *final(b))
                == v);
        if r.is_err() {
            self.out.truncate(at);
            assert(buf::mut_seq(self.out) =~= before);
            return r;
        }
        let ghost body = set_bytes(key@, v);
        let ghost h = header_bytes(Op::Put.byte(), 0);
        proof {
            assert(prefix == (before + h) + buf::le32(key@.len()) + key@);
            assert(buf::mut_seq(self.out) =~= prefix + v);
            assert(prefix + v =~= before + h + body);
        }
        let len = to_le_bytes((self.out.len() - at - HEADER_LEN) as u32);
        buf::patch(&mut self.out, at + 1, at + HEADER_LEN, len.as_slice());
        proof {
            let old_out = before + h + body;
            let len = buf::le32(body.len());
            assert(old_out.subrange(0, at + 1) =~= before.push(Op::Put.byte()));
            assert(old_out.subrange(at + 5, old_out.len() as int) =~= body);
            assert(before.push(Op::Put.byte()) + len + body =~= before + frame_bytes(
                (Op::Put.byte(), body),
            ));
        }
        self.added(Op::Put.as_u8(), Ghost(body), Ghost(before));
        r
    }

    pub fn del(&mut self, key: &[u8])
        requires
            old(self).wf(),
            old(self).room(key@.len()),
        ensures
            final(self).wf(),
            final(self)@ == old(self)@.push((Op::Del.byte(), key@)),
    {
        self.push(Op::Del.as_u8(), key);
    }

    /// Append an item that is already encoded as `(op, body)`, exactly as
    /// [`frames`] yields it: what a batch being split across servers
    /// re-emits for each of them.
    pub fn push(&mut self, op: u8, body: &[u8])
        requires
            old(self).wf(),
            old(self).room(body@.len()),
        ensures
            final(self).wf(),
            final(self)@ == old(self)@.push((op, body@)),
    {
        self.item(op, body.len());
        buf::put_slice(&mut self.out, body);
        assert(buf::mut_seq(self.out) =~= buf::mut_seq(old(self).out) + frame_bytes((op, body@)));
        self.added(op, Ghost(body@), Ghost(buf::mut_seq(old(self).out)));
    }

    /// Writes the header of the item to come.
    #[inline]
    fn item(&mut self, op: u8, len: usize)
        requires
            old(self).wf(),
            len <= u32::MAX,
            batch_bytes(old(self)@).len() + HEADER_LEN <= buf::MAX_LEN,
        ensures
            buf::mut_seq(final(self).out) == buf::mut_seq(old(self).out) + header_bytes(
                op,
                len as nat,
            ),
            final(self).count == old(self).count < usize::MAX,
            final(self).items@ == old(self).items@,
    {
        proof {
            frames_bytes_len(self.items@);
        }
        let h = encode_header(op, len);
        buf::put_slice(&mut self.out, h.as_slice());
    }

    /// Counts the item just written behind `before`.
    #[inline]
    fn added(&mut self, op: u8, body: Ghost<Seq<u8>>, before: Ghost<Seq<u8>>)
        requires
            old(self).count == old(self).items@.len(),
            before@.len() >= 4,
            before@.skip(4) == frames_bytes(old(self).items@),
            bodies_fit(old(self).items@),
            body@.len() <= u32::MAX,
            buf::mut_seq(old(self).out) == before@ + frame_bytes((op, body@)),
            old(self).count < usize::MAX,
        ensures
            final(self).wf(),
            final(self)@ == old(self)@.push((op, body@)),
    {
        self.count = self.count + 1;
        proof {
            let f = (op, body@);
            let fs = self.items@.push(f);
            assert(fs.drop_last() =~= self.items@);
            assert(buf::mut_seq(self.out).skip(4) =~= frames_bytes(fs));
            self.items@ = fs;
        }
    }

    /// The body. A batch holds at most [`MAX_ITEMS`]; check
    /// [`len`](Self::len) first.
    pub fn finish(self) -> (body: Bytes)
        requires
            self.wf(),
            self@.len() <= MAX_ITEMS,
        ensures
            buf::bytes_seq(body) == batch_bytes(self@),
            parse_batch(buf::bytes_seq(body)) == Ok::<Seq<(u8, Seq<u8>)>, DecodeError>(self@),
    {
        let mut out = self.out;
        let n = to_le_bytes(self.count as u32);
        buf::patch(&mut out, 0, U32, n.as_slice());
        assert(buf::mut_seq(out) =~= batch_bytes(self@));
        proof {
            batch_reads_back(self@);
        }
        out.freeze()
    }
}

// Laws of what is refused

/// Each op and each status has the byte that the protocol gives it.
pub proof fn tags_are_those_of_the_protocol()
    ensures
        Op::Get.byte() == 1 && Op::Put.byte() == 2 && Op::Del.byte() == 3,
        Op::Auth.byte() == 4 && Op::Ping.byte() == 5 && Op::Batch.byte() == 6,
        Status::Success.byte() == 0 && Status::BadRequest.byte() == 1,
        Status::UnknownOp.byte() == 2 && Status::TooLarge.byte() == 3,
        Status::Unauthorized.byte() == 4 && Status::NotFound.byte() == 5,
{
}

/// A header is the tag, then the length of the body in four bytes, the least
/// significant first.
pub proof fn a_header_is_little_endian(tag: u8, len: nat)
    requires
        len <= u32::MAX,
    ensures
        ({
            let h = header_bytes(tag, len);
            &&& h.len() == 5
            &&& h[0] == tag
            &&& h[1] == len % 256
            &&& h[2] == len / 256 % 256
            &&& h[3] == len / 65536 % 256
            &&& h[4] == len / 16777216
        }),
{
}

/// The body of a SET is the length of the key in four bytes, the least
/// significant first, then the key, then the value.
pub proof fn a_set_body_is_laid_out(key: Seq<u8>, value: Seq<u8>)
    requires
        key.len() <= u32::MAX,
    ensures
        ({
            let b = set_bytes(key, value);
            &&& b.len() == 4 + key.len() + value.len()
            &&& b[0] + 256 * b[1] + 65536 * b[2] + 16777216 * b[3] == key.len()
            &&& b.subrange(4, 4 + key.len() as int) == key
            &&& b.skip(4 + key.len() as int) == value
        }),
{
    le32_roundtrip(key.len());
    let b = set_bytes(key, value);
    assert(b.subrange(0, 4) =~= buf::le32(key.len()));
    assert(b.subrange(0, 4)[0] == b[0] && b.subrange(0, 4)[1] == b[1] && b.subrange(0, 4)[2]
        == b[2] && b.subrange(0, 4)[3] == b[3]);
    assert(b.subrange(4, 4 + key.len() as int) =~= key);
    assert(b.skip(4 + key.len() as int) =~= value);
}

/// The body of a SET that is cut short of its key is refused, with how many
/// bytes are missing of the length, or of the key.
pub proof fn a_cut_set_body_is_refused(key: Seq<u8>, value: Seq<u8>, n: int)
    requires
        key.len() <= u32::MAX,
        0 <= n < 4 + key.len(),
    ensures
        parse_set(set_bytes(key, value).take(n)) == Err::<(Seq<u8>, Seq<u8>), DecodeError>(
            DecodeError::Truncated {
                needed: (if n < 4 {
                    4 - n
                } else {
                    4 + key.len() - n
                }) as usize,
            },
        ),
{
    let b = set_bytes(key, value);
    le32_roundtrip(key.len());
    if n >= 4 {
        assert(b.take(n).subrange(0, 4) =~= buf::le32(key.len()));
    }
}

/// Frames that are cut short are refused, and never with more missing than is.
proof fn cut_frames_are_refused(fs: Seq<(u8, Seq<u8>)>, n: int)
    requires
        bodies_fit(fs),
        0 <= n < frames_bytes(fs).len(),
        frames_bytes(fs).len() <= usize::MAX,
    ensures
        parse_frames(fs.len(), frames_bytes(fs).take(n)) matches Err(e) && e matches DecodeError::Truncated {
            needed,
        } && 0 < needed && n + needed <= frames_bytes(fs).len(),
    decreases fs.len(),
{
    if fs.len() == 0 {
        assert(frames_bytes(fs).len() == 0);
    } else {
        let f = fs[0];
        let tail = fs.drop_first();
        assert(fs =~= seq![f] + tail);
        frames_bytes_front(f, tail);
        let all = frames_bytes(fs);
        let one = frame_bytes(f);
        let b = all.take(n);
        header_reads_back(f.0, f.1.len());
        if n >= HEADER_LEN {
            assert(b.subrange(1, 5) =~= header_bytes(f.0, f.1.len()).subrange(1, 5));
        }
        if n >= one.len() {
            assert(b =~= one + frames_bytes(tail).take(n - one.len()));
            frame_reads_back(f, frames_bytes(tail).take(n - one.len()));
            cut_frames_are_refused(tail, n - one.len());
        }
    }
}

/// A batch that is cut short anywhere is refused for what is missing, and one
/// with bytes behind its last item for those.
pub proof fn a_batch_is_taken_whole(fs: Seq<(u8, Seq<u8>)>, n: int, extra: Seq<u8>)
    requires
        fs.len() <= MAX_ITEMS,
        bodies_fit(fs),
        batch_bytes(fs).len() <= usize::MAX,
        0 <= n < batch_bytes(fs).len(),
        extra.len() > 0,
    ensures
        parse_batch(batch_bytes(fs).take(n)) matches Err(e) && e matches DecodeError::Truncated {
            needed,
        } && 0 < needed && n + needed <= batch_bytes(fs).len(),
        parse_batch(batch_bytes(fs) + extra) == Err::<Seq<(u8, Seq<u8>)>, DecodeError>(
            DecodeError::Trailing(extra.len() as usize),
        ),
{
    let all = batch_bytes(fs);
    le32_roundtrip(fs.len());
    let more = all + extra;
    assert(more.subrange(0, 4) =~= buf::le32(fs.len()));
    assert(more.skip(4) =~= frames_bytes(fs) + extra);
    frames_read_back(fs, extra);
    if n >= 4 {
        let b = all.take(n);
        assert(b.subrange(0, 4) =~= buf::le32(fs.len()));
        assert(b.skip(4) =~= frames_bytes(fs).take(n - 4));
        cut_frames_are_refused(fs, n - 4);
    }
}

/// A batch that announces more than 65536 items is refused for that, whatever
/// follows.
pub proof fn too_many_items_are_refused(n: nat, rest: Seq<u8>)
    requires
        n <= u32::MAX,
    ensures
        n > 65536 ==> parse_batch(buf::le32(n) + rest) == Err::<Seq<(u8, Seq<u8>)>, DecodeError>(
            DecodeError::TooMany(n as usize),
        ),
        n <= 65536 ==> !(parse_batch(buf::le32(n) + rest) matches Err(DecodeError::TooMany(_))),
{
    le32_roundtrip(n);
    let b = buf::le32(n) + rest;
    assert(b.subrange(0, 4) =~= buf::le32(n));
    if n <= 65536 {
        frames_fail_by_truncation(n, b.skip(4));
    }
}

proof fn frames_fail_by_truncation(n: nat, b: Seq<u8>)
    ensures
        parse_frames(n, b) matches Err(e) ==> e is Truncated,
    decreases n,
{
    if n > 0 {
        match parse_frame(b) {
            Ok((_, rest)) => frames_fail_by_truncation((n - 1) as nat, rest),
            Err(_) => {},
        }
    }
}

} // verus!
