//! What a client and a server make of each other: every caller is handed the
//! answer to its own request, and what was stored is what is read.

use super::batch;
use super::error;
use super::error::Error;
use super::pipe;
use crate::buf;
use crate::cache;
use crate::tcp;
use crate::tcp::{Served, Session};
use crate::wire;
use crate::wire::{DecodeError, Op, Status, MAX_FRAME, MAX_ITEMS};
use bytes::Bytes;
use vstd::prelude::*;

verus! {

/// What requests do, one after another, and their answers.
pub open spec fn exchanged(s: Served, requests: Seq<(u8, Seq<u8>)>) -> (
    Served,
    Seq<(u8, Seq<u8>)>,
)
    decreases requests.len(),
{
    if requests.len() == 0 {
        (s, Seq::empty())
    } else {
        let (t, r) = tcp::answer(s, requests[0].0, requests[0].1);
        let (u, rs) = exchanged(t, requests.drop_first());
        (u, seq![r] + rs)
    }
}

/// Whether the requests can be sent: each within the limit of a frame.
pub open spec fn sendable(requests: Seq<(u8, Seq<u8>)>) -> bool {
    forall|i: int| 0 <= i < requests.len() ==> (#[trigger] requests[i]).1.len() <= MAX_FRAME
}

proof fn requests_are_served(c: Session, token: Seq<u8>, requests: Seq<(u8, Seq<u8>)>)
    requires
        c.authed,
        c.input == wire::frames_bytes(requests),
        sendable(requests),
        c.served.cache.valid(),
        c.served.cache.shard_capacity() <= usize::MAX,
    ensures
        ({
            let (s, answers) = exchanged(c.served, requests);
            &&& tcp::serve(c, token) == (Session {
                input: Seq::empty(),
                out: c.out + wire::frames_bytes(answers),
                served: s,
                ..c
            })
            &&& answers.len() == requests.len()
            &&& forall|i: int|
                0 <= i < answers.len() ==> tcp::acceptable(#[trigger] answers[i])
            &&& s.cache.valid()
        }),
    decreases requests.len(),
{
    if requests.len() == 0 {
        assert(c.input =~= Seq::empty());
        assert(c.out + wire::frames_bytes(Seq::empty()) =~= c.out);
        assert(tcp::serve(c, token) =~= c);
    } else {
        let f = requests[0];
        let tail = requests.drop_first();
        assert(requests =~= seq![f] + tail);
        wire::frames_bytes_front(f, tail);
        let rest = wire::frames_bytes(tail);
        tcp::requests_are_answered_in_order(c, token, f, rest);
        let (t, r) = tcp::answer(c.served, f.0, f.1);
        tcp::an_answer_is_acceptable(c.served, f.0, f.1);
        let next = Session { input: rest, out: c.out + wire::frame_bytes(r), served: t, ..c };
        requests_are_served(next, token, tail);
        let (u, rs) = exchanged(t, tail);
        wire::frames_bytes_front(r, rs);
        assert(next.out + wire::frames_bytes(rs) =~= c.out + wire::frames_bytes(seq![r] + rs));
    }
}

/// Whatever callers ask of a server over one connection, each is handed the
/// answer to its own request, in the order the requests went out.
pub proof fn callers_get_the_answers_to_their_requests(
    c: Session,
    token: Seq<u8>,
    requests: Seq<(u8, Seq<u8>)>,
)
    requires
        c.authed,
        c.out == Seq::<u8>::empty(),
        c.input == wire::frames_bytes(requests),
        sendable(requests),
        c.served.cache.valid(),
        c.served.cache.shard_capacity() <= usize::MAX,
    ensures
        pipe::handed_out(tcp::serve(c, token).out, requests.len()) == exchanged(
            c.served,
            requests,
        ).1,
        exchanged(c.served, requests).1.len() == requests.len(),
        !c.close ==> !tcp::serve(c, token).close,
{
    requests_are_served(c, token, requests);
    let answers = exchanged(c.served, requests).1;
    assert(c.out + wire::frames_bytes(answers) =~= wire::frames_bytes(answers));
    assert forall|i: int| 0 <= i < answers.len() implies (#[trigger] answers[i]).1.len()
        <= MAX_FRAME && !pipe::unknown(answers[i].0) by {
        assert(tcp::acceptable(answers[i]));
        let status = choose|status: Status| #[trigger] status.byte() == answers[i].0;
        assert(status.byte() == answers[i].0);
    }
    pipe::responses_go_to_callers_in_order(answers, requests.len());
}

/// What a client stores is what it reads: a SET that the cache has room for and
/// a GET of the same key behind it come back with success and the value.
pub proof fn what_is_stored_is_read(
    c: Session,
    token: Seq<u8>,
    key: Seq<u8>,
    value: Seq<u8>,
    r: Result<(Status, Bytes), Error>,
)
    requires
        c.authed,
        c.out == Seq::<u8>::empty(),
        c.input == wire::frames_bytes(
            seq![(Op::Put.byte(), wire::set_bytes(key, value)), (Op::Get.byte(), key)],
        ),
        4 + key.len() + value.len() <= MAX_FRAME,
        c.served.cache.valid(),
        c.served.cache.shard_capacity() <= usize::MAX,
        c.served.cache.fits(key, value),
        ({
            let got = pipe::handed_out(tcp::serve(c, token).out, 2);
            got.len() == 2 ==> error::answers(r, got[1].0, got[1].1)
        }),
    ensures
        pipe::handed_out(tcp::serve(c, token).out, 2) == seq![
            tcp::bare(Status::Success),
            (Status::Success.byte(), value),
        ],
        r matches Ok((status, body)) && status is Success && buf::bytes_seq(body) == value,
{
    let set = (Op::Put.byte(), wire::set_bytes(key, value));
    let get = (Op::Get.byte(), key);
    let requests = seq![set, get];
    callers_get_the_answers_to_their_requests(c, token, requests);
    wire::set_reads_back(key, value);
    cache::a_write_is_read_back(c.served.cache, key, value);
    let (t, first) = tcp::answer(c.served, set.0, set.1);
    assert(requests.drop_first() =~= seq![get]);
    assert(seq![get].drop_first() =~= Seq::<(u8, Seq<u8>)>::empty());
    let (u, second) = tcp::answer(t, get.0, get.1);
    assert(exchanged(t, seq![get]).1 =~= seq![second]) by {
        assert(exchanged(u, seq![get].drop_first()).1 =~= Seq::<(u8, Seq<u8>)>::empty());
    }
    assert(exchanged(c.served, requests).1 =~= seq![first, second]);
}

/// A batch that is answered at all is answered item by item: the response holds
/// one answer for each, in the order they were added, and each is what the item
/// is answered after those before it.
pub proof fn a_batch_answers_every_item(s: Served, items: Seq<(u8, Seq<u8>)>)
    requires
        items.len() <= MAX_ITEMS,
        wire::bodies_fit(items),
        s.cache.valid(),
        s.cache.shard_capacity() <= usize::MAX,
    ensures
        ({
            let (status, body) = tcp::answer(s, Op::Batch.byte(), wire::batch_bytes(items)).1;
            let answers = tcp::items_answer(s, items).1;
            &&& answers.len() == items.len()
            &&& status == Status::Success.byte() || status == Status::TooLarge.byte()
            &&& status == Status::Success.byte() ==> wire::parse_batch(body) == Ok::<
                Seq<(u8, Seq<u8>)>,
                DecodeError,
            >(answers)
        }),
{
    wire::batch_reads_back(items);
    tcp::items_answer_len(s, items);
    tcp::items_are_acceptable(s, items);
    let answers = tcp::items_answer(s, items).1;
    wire::batch_reads_back(answers);
}

/// A batched GET reads what the server holds, as it is, where that can be sent;
/// a batched DEL whether there was anything; a batched SET succeeds exactly
/// where the server took it.
pub proof fn a_slot_reads_what_the_server_did(
    s: Served,
    key: Seq<u8>,
    value: Seq<u8>,
    got: Result<Option<Bytes>, Error>,
    gone: Result<bool, Error>,
    put: Result<(), Error>,
)
    requires
        key.len() <= u32::MAX,
        batch::reads_as(
            got,
            tcp::item_answer(s, 1, key).1.0,
            tcp::item_answer(s, 1, key).1.1,
        ),
        batch::reads_as(
            gone,
            tcp::item_answer(s, 3, key).1.0,
            tcp::item_answer(s, 3, key).1.1,
        ),
        batch::reads_as(
            put,
            tcp::item_answer(s, 2, wire::set_bytes(key, value)).1.0,
            tcp::item_answer(s, 2, wire::set_bytes(key, value)).1.1,
        ),
    ensures
        match s.cache.value(key) {
            Some(v) => if v.len() <= 0x400_0000 {
                got matches Ok(Some(b)) && buf::bytes_seq(b) == v
            } else {
                got matches Err(Error::Status { status, .. }) && status is TooLarge
            },
            None => got == Ok::<Option<Bytes>, Error>(None),
        },
        gone == Ok::<bool, Error>(s.cache.value(key) is Some),
        put is Ok <==> key.len() + value.len() + 128 <= s.cache.shard_capacity(),
        put matches Err(e) ==> e matches Error::Status { status, .. } && status is TooLarge,
{
    wire::set_reads_back(key, value);
    wire::tags_are_those_of_the_protocol();
    cache::what_could_never_fit_is_refused(s.cache, key, value);
    assert(Status::Success.byte() == 0 && Status::TooLarge.byte() == 3 && Status::NotFound.byte()
        == 5);
}

} // verus!
