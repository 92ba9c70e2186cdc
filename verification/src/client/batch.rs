//! Any number of gets, sets and dels in one round trip, answered in order.
//!
//! A [`Batch`] hands out a typed [`Slot`] per item; the [`Outcome`] answers
//! each slot as the standalone call would (`Option<Bytes>` for a get, `()` for
//! a set, `bool` for a del) or with that item's own error, so one refused item
//! does not hide the others.

use super::error;
use super::error::{refused, Error};
use crate::buf;
use crate::wire;
use crate::wire::{
    frames, BatchEncoder, DecodeError, Op, Status, HEADER_LEN, MAX_ITEMS, U32,
};
use bytes::{Bytes, BytesMut};
use core::marker::PhantomData;
use vstd::prelude::*;

verus! {

/// Items for one batch call, in the order they are added. Each method hands
/// back the [`Slot`] that reads its answer from the [`Outcome`].
pub struct Batch {
    enc: BatchEncoder,
}

/// One item's place in a [`Batch`], typed by what it answers with.
#[derive(Debug)]
pub struct Slot<T> {
    pub index: usize,
    pub reply: PhantomData<T>,
}

impl<T> Clone for Slot<T> {
    fn clone(&self) -> (r: Self)
        ensures
            r == *self,
    {
        *self
    }
}

impl<T> Copy for Slot<T> {

}

impl View for Batch {
    type V = Seq<(u8, Seq<u8>)>;

    /// The items added so far.
    closed spec fn view(&self) -> Seq<(u8, Seq<u8>)> {
        self.enc@
    }
}

impl Default for Batch {
    fn default() -> (b: Self)
        ensures
            b.wf(),
            b@ == Seq::<(u8, Seq<u8>)>::empty(),
    {
        Self::new()
    }
}

impl Batch {
    pub closed spec fn wf(&self) -> bool {
        self.enc.wf()
    }

    /// Whether there is room for another `n` bytes of body.
    pub open spec fn room(&self, n: nat) -> bool {
        &&& n <= u32::MAX
        &&& wire::batch_bytes(self@).len() + HEADER_LEN + n <= buf::MAX_LEN
    }

    pub fn new() -> (b: Self)
        ensures
            b.wf(),
            b@ == Seq::<(u8, Seq<u8>)>::empty(),
    {
        Batch { enc: BatchEncoder::new() }
    }

    /// With room for `bytes` of encoded items (headers included) before the
    /// buffer grows; worth using when the batch's size is roughly known.
    pub fn with_capacity(bytes: usize) -> (b: Self)
        requires
            4 + bytes <= buf::MAX_LEN,
        ensures
            b.wf(),
            b@ == Seq::<(u8, Seq<u8>)>::empty(),
    {
        Batch { enc: BatchEncoder::with_capacity(bytes) }
    }

    /// Items so far.
    pub fn len(&self) -> (n: usize)
        requires
            self.wf(),
        ensures
            n == self@.len(),
    {
        self.enc.len()
    }

    pub fn is_empty(&self) -> (r: bool)
        requires
            self.wf(),
        ensures
            r == (self@.len() == 0),
    {
        self.enc.is_empty()
    }

    /// Fetch `key`.
    pub fn get(&mut self, key: &[u8]) -> (slot: Slot<Option<Bytes>>)
        requires
            old(self).wf(),
            old(self).room(key@.len()),
        ensures
            final(self).wf(),
            final(self)@ == old(self)@.push((Op::Get.byte(), key@)),
            slot.index == old(self)@.len(),
    {
        let index: usize = self.enc.len();
        self.enc.get(key);
        Slot { index, reply: PhantomData }
    }

    /// Store the bytes that `value` writes under `key`; encoding happens now,
    /// straight into the batch buffer, so a value that cannot be serialised is
    /// refused here rather than at send time.
    pub fn set_with<E>(
        &mut self,
        key: &[u8],
        value: impl FnOnce(&mut BytesMut) -> Result<(), E>,
    ) -> (r: Result<Slot<()>, E>)
        requires
            old(self).wf(),
            old(self).room(4 + key@.len()),
            forall|b: &mut BytesMut| #[trigger] call_requires(value, (b,)),
            forall|b: &mut BytesMut, r: Result<(), E>| #[trigger]
                call_ensures(value, (b,), r) ==> {
                    &&& buf::mut_seq(*b).is_prefix_of(buf::mut_seq(*final(b)))
                    &&& r is Ok ==> 4 + key@.len() + wire::appended(*b, *final(b)).len() <= u32::MAX
                },
        ensures
            final(self).wf(),
            exists|b: &mut BytesMut, written: Result<(), E>| #[trigger]
                call_ensures(value, (b,), written) && match (r, written) {
                    (Ok(slot), Ok(_)) => slot.index == old(self)@.len() && final(self)@ == old(self)@.push(
                        (Op::Put.byte(), wire::set_bytes(key@, wire::appended(*b, *final(b)))),
                    ),
                    (Err(e), Err(f)) => e == f && final(self)@ == old(self)@,
                    _ => false,
                },
    {
        let index: usize = self.enc.len();
        match self.enc.set_with(key, value) {
            Ok(()) => Ok(Slot { index, reply: PhantomData }),
            Err(e) => Err(e),
        }
    }

    /// Remove `key`.
    pub fn del(&mut self, key: &[u8]) -> (slot: Slot<bool>)
        requires
            old(self).wf(),
            old(self).room(key@.len()),
        ensures
            final(self).wf(),
            final(self)@ == old(self)@.push((Op::Del.byte(), key@)),
            slot.index == old(self)@.len(),
    {
        let index: usize = self.enc.len();
        self.enc.del(key);
        Slot { index, reply: PhantomData }
    }

    /// The body of the request, unless there are more items than one request
    /// may hold.
    pub fn finish(self) -> (r: Result<Bytes, Error>)
        requires
            self.wf(),
        ensures
            match r {
                Ok(body) => self@.len() <= MAX_ITEMS && buf::bytes_seq(body) == wire::batch_bytes(
                    self@,
                ) && wire::parse_batch(buf::bytes_seq(body)) == Ok::<
                    Seq<(u8, Seq<u8>)>,
                    DecodeError,
                >(self@),
                Err(e) => self@.len() > MAX_ITEMS && e == Error::TooManyItems(self@.len() as usize),
            },
    {
        let n: usize = self.enc.len();
        if n > MAX_ITEMS {
            Err(Error::TooManyItems(n))
        } else {
            Ok(self.enc.finish())
        }
    }
}

/// The server's answers to a [`Batch`], one per item.
#[derive(Debug)]
pub struct Outcome {
    pub body: Bytes,
    /// Per item: status, and where its body lies in `body`.
    pub index: Vec<(u8, u32, u32)>,
}

/// The part of `all` that an index entry names, under its status.
pub open spec fn entry(all: Seq<u8>, at: (u8, u32, u32)) -> (u8, Seq<u8>) {
    (at.0, all.subrange(at.1 as int, at.1 + at.2))
}

/// Whether an index entry names a part of `all`.
pub open spec fn entry_fits(all: Seq<u8>, at: (u8, u32, u32)) -> bool {
    at.1 + at.2 <= all.len()
}

impl View for Outcome {
    type V = Seq<(u8, Seq<u8>)>;

    /// The answers, in the order of the items.
    open spec fn view(&self) -> Seq<(u8, Seq<u8>)> {
        Seq::new(self.index@.len(), |i: int| entry(buf::bytes_seq(self.body), self.index@[i]))
    }
}

impl Outcome {
    pub open spec fn wf(&self) -> bool {
        forall|i: int|
            0 <= i < self.index@.len() ==> entry_fits(
                buf::bytes_seq(self.body),
                #[trigger] self.index@[i],
            )
    }

    /// The answers in the response to a batch of `n` items.
    pub fn of(body: Bytes, n: usize) -> (r: Result<Self, Error>)
        requires
            buf::bytes_seq(body).len() <= u32::MAX,
        ensures
            match wire::parse_batch(buf::bytes_seq(body)) {
                Err(e) => r == Err::<Outcome, Error>(Error::Decode(e)),
                Ok(fs) => if fs.len() != n {
                    r == Err::<Outcome, Error>(
                        Error::Count { expected: n, got: fs.len() as usize },
                    )
                } else {
                    r matches Ok(o) && o.wf() && o@ == fs
                },
            },
    {
        let mut index: Vec<(u8, u32, u32)> = Vec::new();
        {
            let whole = buf::bytes_slice(&body);
            let mut fs = match frames(whole) {
                Ok(fs) => fs,
                Err(e) => return Err(Error::Decode(e)),
            };
            let got: usize = fs.len();
            if got != n {
                return Err(Error::Count { expected: n, got });
            }
            let ghost all = fs@;
            proof {
                wire::batch_writes_back(whole@);
                assert(whole@.skip(4) =~= wire::frames_bytes(all));
                assert(all.take(0) =~= Seq::empty());
            }
            let mut at: usize = U32;
            let mut i: usize = 0;
            while i < n
                invariant
                    i <= n,
                    n == all.len(),
                    fs.wf(),
                    fs@ == all.skip(i as int),
                    4 <= whole@.len() <= u32::MAX,
                    whole@.skip(4) == wire::frames_bytes(all),
                    at == 4 + wire::frames_bytes(all.take(i as int)).len(),
                    at <= whole@.len(),
                    index@.len() == i,
                    forall|j: int|
                        0 <= j < i ==> entry_fits(whole@, #[trigger] index@[j]) && entry(
                            whole@,
                            index@[j],
                        ) == all[j],
                decreases n - i,
            {
                let ghost f = all[i as int];
                proof {
                    wire::frame_position(all, i as int);
                    assert(all.skip(i as int).drop_first() =~= all.skip(i + 1));
                    assert(all.take(i + 1) =~= all.take(i as int).push(f));
                }
                match fs.next() {
                    Some((tag, b)) => {
                        let start: usize = at + HEADER_LEN;
                        index.push((tag, start as u32, b.len() as u32));
                        at = start + b.len();
                        proof {
                            assert(whole@.subrange(start as int, at as int) =~= whole@.skip(
                                4,
                            ).subrange(start - 4, at - 4));
                        }
                    },
                    None => {},
                }
                i = i + 1;
            }
        }
        let o = Outcome { body, index };
        assert(o@ =~= wire::parse_batch(buf::bytes_seq(body))->Ok_0);
        Ok(o)
    }

    /// Answers, which is the batch's item count.
    pub fn len(&self) -> (n: usize)
        ensures
            n == self@.len(),
    {
        self.index.len()
    }

    pub fn is_empty(&self) -> (r: bool)
        ensures
            r == (self@.len() == 0),
    {
        self.index.len() == 0
    }

    /// The status of item `index`; `None` past the end or for a status byte
    /// this client does not know.
    pub fn status(&self, index: usize) -> (r: Option<Status>)
        ensures
            match r {
                Some(s) => index < self@.len() && s.byte() == self@[index as int].0,
                None => index < self@.len() ==> forall|s: Status| #[trigger]
                    s.byte() != self@[index as int].0,
            },
    {
        if index < self.index.len() {
            Status::from_u8(self.index[index].0)
        } else {
            None
        }
    }

    /// The answer in `slot`: the item's value, or the error the server refused
    /// it with. A slot only comes from the batch this outcome answers, and the
    /// count was checked when it arrived.
    pub fn get<T: Reply>(&self, slot: Slot<T>) -> (r: Result<T, Error>)
        requires
            self.wf(),
            slot.index < self@.len(),
        ensures
            reads_as(r, self@[slot.index as int].0, self@[slot.index as int].1),
    {
        let (tag, start, len) = self.index[slot.index];
        assert(entry_fits(buf::bytes_seq(self.body), self.index@[slot.index as int]));
        match Status::from_u8(tag) {
            Some(status) => {
                let start: usize = start as usize;
                let after: usize = self.body.len() - start;
                assert(len <= after);
                T::reply(status, buf::slice_bytes(&self.body, start, start + len as usize))
            },
            None => Err(Error::InvalidStatus(tag)),
        }
    }
}

/// Whether `r` is what a slot reads from an answer with this status byte and
/// body.
pub open spec fn reads_as<T: Reply>(r: Result<T, Error>, tag: u8, body: Seq<u8>) -> bool {
    if exists|s: Status| #[trigger] s.byte() == tag {
        exists|s: Status| #[trigger] s.byte() == tag && T::answers(r, s, body)
    } else {
        r == Err::<T, Error>(Error::InvalidStatus(tag))
    }
}

/// What a [`Slot`] answers with: `Option<Bytes>` for a get, `()` for a set,
/// `bool` for a del.
pub trait Reply: Sized {
    /// Whether `r` is what the item answers, refused with an error or not.
    spec fn answers(r: Result<Self, Error>, status: Status, body: Seq<u8>) -> bool;

    fn reply(status: Status, body: Bytes) -> (r: Result<Self, Error>)
        ensures
            Self::answers(r, status, buf::bytes_seq(body)),
    ;
}

impl Reply for Option<Bytes> {
    open spec fn answers(r: Result<Option<Bytes>, Error>, status: Status, body: Seq<u8>) -> bool {
        match status {
            Status::Success => r matches Ok(Some(b)) && buf::bytes_seq(b) == body,
            Status::NotFound => r == Ok::<Option<Bytes>, Error>(None),
            _ => r matches Err(e) && error::refusal(e, status, body),
        }
    }

    fn reply(status: Status, body: Bytes) -> (r: Result<Option<Bytes>, Error>) {
        match status {
            Status::Success => Ok(Some(body)),
            Status::NotFound => Ok(None),
            other => Err(refused(other, &body)),
        }
    }
}

impl Reply for () {
    open spec fn answers(r: Result<(), Error>, status: Status, body: Seq<u8>) -> bool {
        match status {
            Status::Success => r == Ok::<(), Error>(()),
            _ => r matches Err(e) && error::refusal(e, status, body),
        }
    }

    fn reply(status: Status, body: Bytes) -> (r: Result<(), Error>) {
        match status {
            Status::Success => Ok(()),
            other => Err(refused(other, &body)),
        }
    }
}

impl Reply for bool {
    open spec fn answers(r: Result<bool, Error>, status: Status, body: Seq<u8>) -> bool {
        match status {
            Status::Success => r == Ok::<bool, Error>(true),
            Status::NotFound => r == Ok::<bool, Error>(false),
            _ => r matches Err(e) && error::refusal(e, status, body),
        }
    }

    fn reply(status: Status, body: Bytes) -> (r: Result<bool, Error>) {
        match status {
            Status::Success => Ok(true),
            Status::NotFound => Ok(false),
            other => Err(refused(other, &body)),
        }
    }
}

// Laws

/// A get in a batch is answered as the get alone is: with the value, with
/// nothing, or with the same refusal.
pub proof fn a_batched_get_answers_as_alone(
    alone: Result<(Status, Bytes), Error>,
    batched: Result<Option<Bytes>, Error>,
    tag: u8,
    body: Seq<u8>,
)
    requires
        error::answers(alone, tag, body),
        reads_as(batched, tag, body),
    ensures
        match alone {
            Ok((status, _)) => <Option<Bytes> as Reply>::answers(batched, status, body),
            Err(Error::Status { status, message }) => batched matches Err(
                Error::Status { status: s, message: m },
            ) && s == status && m@ == message@,
            Err(e) => batched == Err::<Option<Bytes>, Error>(e),
        },
{
}

/// A del in a batch is answered as the del alone is.
pub proof fn a_batched_del_answers_as_alone(
    alone: Result<(Status, Bytes), Error>,
    batched: Result<bool, Error>,
    tag: u8,
    body: Seq<u8>,
)
    requires
        error::answers(alone, tag, body),
        reads_as(batched, tag, body),
    ensures
        match alone {
            Ok((status, _)) => <bool as Reply>::answers(batched, status, body),
            Err(Error::Status { status, message }) => batched matches Err(
                Error::Status { status: s, message: m },
            ) && s == status && m@ == message@,
            Err(e) => batched == Err::<bool, Error>(e),
        },
{
}

} // verus!
