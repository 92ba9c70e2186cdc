//! TCP front end: requests are handled as they are read and answered in order.
//!
//! A connection must authenticate with one AUTH frame before anything else.

use crate::buf;
use crate::cache;
use crate::cache::s3fifo;
use crate::cache::{Cache, CacheState, Entry, TooLarge};
use crate::io;
use crate::io::{FrameReader, FrameWriter, Mark};
use crate::metrics::Metrics;
use crate::text;
use crate::wire;
use crate::wire::{DecodeError, Op, Status, HEADER_LEN, MAX_ITEMS};
use bytes::Bytes;
use vstd::prelude::*;
use vstd::utf8;

verus! {

/// Largest request body accepted from an authenticated peer.
pub const MAX_FRAME: usize = 0x400_0000;

/// Largest frame accepted before authentication: room for a token, nothing
/// more, so an unauthenticated peer cannot make the server buffer much.
pub const MAX_AUTH_FRAME: usize = 4096;

/// Largest response body produced. A batch may name the same large key many
/// times, so the total is bounded here rather than by the request size; it
/// matches what the client accepts.
pub const MAX_RESPONSE: usize = 0x400_0000;

/// Hard cap from accept to a successful AUTH, on both front ends, in seconds.
/// It is not configurable: an unauthenticated peer gets no say in how long it
/// may sit on a connection slot.
pub const AUTH_TIMEOUT: u64 = 30;

/// Idle timeout every `Options` starts with, in seconds: three client
/// heartbeats, so a client on the default interval stays connected even if two
/// pings in a row are lost or late.
pub const DEFAULT_IDLE_TIMEOUT: u64 = 300;

/// Connection cap every `Options` starts with.
pub const DEFAULT_MAX_CONNECTIONS: usize = 10_000;

/// One warning per this many blocked accepts, so a saturated server does
/// not flood the log.
pub const LIMIT_WARN_EVERY: u64 = 1000;

/// What an accept that found no permit makes of the count of those that had to
/// wait, and whether it is worth a warning.
pub open spec fn found_full(in_use: nat, cap: nat, waited: u64) -> (u64, bool) {
    if in_use < cap {
        (waited, false)
    } else {
        (waited.wrapping_add(1), waited % LIMIT_WARN_EVERY == 0)
    }
}

/// A budget of open connections. Every listener takes a permit *before*
/// `accept`, so a full server stops accepting (peers wait in the backlog)
/// rather than accepting and dropping.
#[derive(Debug)]
pub struct ConnLimit {
    max: usize,
    /// Accepted connections still being served.
    open: usize,
    /// Accepts that had to wait, for rate-limiting the warning. Modulo 2^64.
    hits: u64,
}

impl ConnLimit {
    pub closed spec fn cap(&self) -> nat {
        self.max as nat
    }

    pub closed spec fn in_use(&self) -> nat {
        self.open as nat
    }

    pub closed spec fn waited(&self) -> u64 {
        self.hits
    }

    pub fn new(max: usize) -> (l: Self)
        requires
            max > 0,
        ensures
            l.cap() == max,
            l.in_use() == 0,
            l.waited() == 0,
    {
        ConnLimit { max, open: 0, hits: 0 }
    }

    pub fn max(&self) -> (n: usize)
        ensures
            n == self.cap(),
    {
        self.max
    }

    /// Connections currently open under this budget.
    pub fn open(&self) -> (n: usize)
        ensures
            n == self.in_use(),
    {
        self.open
    }

    /// Accepts that had to wait for a free slot.
    pub fn waits(&self) -> (n: u64)
        ensures
            n == self.waited(),
    {
        self.hits
    }

    /// An accept found no free slot. Counts it, if the limit is why, and says
    /// whether to warn: once per [`LIMIT_WARN_EVERY`]. Another listener parked
    /// in `accept` may hold the last permit while a slot is still free; that is
    /// not the limit being hit.
    pub fn blocked(&mut self) -> (warn: bool)
        ensures
            final(self).cap() == old(self).cap(),
            final(self).in_use() == old(self).in_use(),
            final(self).waited() == if old(self).in_use() >= old(self).cap() {
                old(self).waited().wrapping_add(1)
            } else {
                old(self).waited()
            },
            warn == (old(self).in_use() >= old(self).cap() && old(self).waited() % LIMIT_WARN_EVERY
                == 0),
            (final(self).waited(), warn) == found_full(
                old(self).in_use(),
                old(self).cap(),
                old(self).waited(),
            ),
    {
        if self.open < self.max {
            return false;
        }
        let warn = self.hits % LIMIT_WARN_EVERY == 0;
        self.hits = self.hits.wrapping_add(1);
        warn
    }

    /// A connection was accepted.
    pub fn opened(&mut self)
        requires
            old(self).in_use() < usize::MAX,
        ensures
            final(self).cap() == old(self).cap(),
            final(self).in_use() == old(self).in_use() + 1,
            final(self).waited() == old(self).waited(),
    {
        self.open = self.open + 1;
    }

    /// A connection is done, whatever the reason.
    pub fn closed(&mut self)
        requires
            old(self).in_use() > 0,
        ensures
            final(self).cap() == old(self).cap(),
            final(self).in_use() == old(self).in_use() - 1,
            final(self).waited() == old(self).waited(),
    {
        self.open = self.open - 1;
    }
}

/// Settings of a front end. The token is a secret, so there is no way to print
/// them.
#[derive(Clone)]
pub struct Options {
    /// Shared secret every connection must present in an AUTH frame before
    /// its first request. Must not be empty: there is no unauthenticated
    /// mode.
    pub token: Vec<u8>,
    /// Close a connection that sends nothing for this many seconds (on HTTP: a
    /// keep-alive connection that starts no request). `None` never closes.
    pub idle_timeout: Option<u64>,
    /// Cap on open connections across every listener; `None` is unlimited.
    pub max_connections: Option<usize>,
}

/// The token must not be empty.
#[derive(Clone, Copy, Debug, PartialEq, Eq, Structural)]
pub struct EmptyToken;

impl Options {
    /// [`DEFAULT_IDLE_TIMEOUT`] and [`DEFAULT_MAX_CONNECTIONS`]; both are
    /// protective, so an embedder has to opt out of them with `None` rather
    /// than remember to opt in.
    pub fn new(token: Vec<u8>) -> (o: Self)
        ensures
            o.token == token,
            o.idle_timeout == Some(DEFAULT_IDLE_TIMEOUT),
            o.max_connections == Some(DEFAULT_MAX_CONNECTIONS),
    {
        Options {
            token,
            idle_timeout: Some(DEFAULT_IDLE_TIMEOUT),
            max_connections: Some(DEFAULT_MAX_CONNECTIONS),
        }
    }

    pub fn idle_timeout(self, timeout: Option<u64>) -> (o: Self)
        ensures
            o == (Options { idle_timeout: timeout, ..self }),
    {
        Options {
            token: self.token,
            idle_timeout: timeout,
            max_connections: self.max_connections,
        }
    }

    /// Allow at most `max` open connections in total; `None` lifts the cap.
    pub fn max_connections(self, max: Option<usize>) -> (o: Self)
        ensures
            o == (Options { max_connections: max, ..self }),
    {
        Options { token: self.token, idle_timeout: self.idle_timeout, max_connections: max }
    }

    /// The shared secret, which must not be empty.
    pub fn token(&self) -> (r: Result<&[u8], EmptyToken>)
        ensures
            match r {
                Ok(t) => self.token@.len() > 0 && t@ == self.token@,
                Err(_) => self.token@.len() == 0,
            },
    {
        if self.token.len() == 0 {
            return Err(EmptyToken);
        }
        Ok(self.token.as_slice())
    }
}

/// Byte comparison that looks at every byte whatever the first ones are, so a
/// wrong token's reply time does not reveal how many leading bytes matched. The
/// length check short-circuits on purpose: it reveals only the token's length,
/// which is not secret.
pub fn ct_eq(a: &[u8], b: &[u8]) -> (r: bool)
    ensures
        r == (a@ == b@),
{
    if a.len() != b.len() {
        return false;
    }
    let mut acc: u8 = 0;
    let mut i: usize = 0;
    assert(a@.take(0) =~= b@.take(0));
    while i < a.len()
        invariant
            i <= a@.len() == b@.len(),
            acc == 0 <==> a@.take(i as int) == b@.take(i as int),
        decreases a@.len() - i,
    {
        let x: u8 = a[i];
        let y: u8 = b[i];
        let ghost before = acc;
        acc = acc | (x ^ y);
        proof {
            assert((before | (x ^ y)) == 0 <==> before == 0 && x == y) by (bit_vector);
            assert(a@.take(i + 1) =~= a@.take(i as int).push(x));
            assert(b@.take(i + 1) =~= b@.take(i as int).push(y));
            assert(a@.take(i + 1).drop_last() =~= a@.take(i as int));
            assert(b@.take(i + 1).drop_last() =~= b@.take(i as int));
            assert(a@.take(i + 1).last() == x && b@.take(i + 1).last() == y);
        }
        i = i + 1;
    }
    assert(a@.take(a@.len() as int) =~= a@);
    assert(b@.take(b@.len() as int) =~= b@);
    acc == 0
}

// Answers

/// What requests act on: the cache, and the count of refused SETs.
#[verifier::ext_equal]
pub struct Served {
    pub cache: CacheState,
    pub set_too_large: u64,
}

/// The message for a response of `n` bytes.
pub open spec fn response_too_large(n: nat) -> Seq<char> {
    "response of "@ + text::decimal(n) + " bytes exceeds the limit"@
}

/// The message for a byte that is no op.
pub open spec fn unknown_op(op: u8) -> Seq<char> {
    "unknown op "@ + text::decimal(op as nat)
}

/// The message for an item that is not GET, SET or DEL.
pub open spec fn not_in_a_batch(op: u8) -> Seq<char> {
    "op "@ + text::decimal(op as nat) + " is not allowed in a batch"@
}

/// An answer without a body.
pub open spec fn bare(status: Status) -> (u8, Seq<u8>) {
    (status.byte(), Seq::empty())
}

/// A refusal with its message.
pub open spec fn refusal(status: Status, message: Seq<char>) -> (u8, Seq<u8>) {
    (status.byte(), utf8::encode_utf8(message))
}

/// The answer to a GET that finds `value`.
pub open spec fn get_answer(value: Option<Seq<u8>>) -> (u8, Seq<u8>) {
    match value {
        Some(v) => if v.len() > MAX_RESPONSE {
            refusal(Status::TooLarge, response_too_large(v.len()))
        } else {
            (Status::Success.byte(), v)
        },
        None => bare(Status::NotFound),
    }
}

/// The answer to a DEL.
pub open spec fn del_answer(found: bool) -> (u8, Seq<u8>) {
    if found {
        bare(Status::Success)
    } else {
        bare(Status::NotFound)
    }
}

/// Why an entry is refused.
pub open spec fn too_large(c: CacheState, key: Seq<u8>, value: Seq<u8>) -> TooLarge {
    TooLarge {
        cost: s3fifo::entry_cost(key, value) as usize,
        capacity: c.shard_capacity() as usize,
    }
}

/// A SET, and its answer.
pub open spec fn set_answer(s: Served, key: Seq<u8>, value: Seq<u8>) -> (Served, (u8, Seq<u8>)) {
    if s.cache.fits(key, value) {
        (Served { cache: s.cache.set(key, value), ..s }, bare(Status::Success))
    } else {
        (
            Served { set_too_large: s.set_too_large.wrapping_add(1), ..s },
            refusal(Status::TooLarge, too_large(s.cache, key, value).text()),
        )
    }
}

/// What an item of a batch does, and its answer.
pub open spec fn item_answer(s: Served, op: u8, body: Seq<u8>) -> (Served, (u8, Seq<u8>)) {
    if op == Op::Get.byte() {
        (Served { cache: s.cache.read(body), ..s }, get_answer(s.cache.value(body)))
    } else if op == Op::Put.byte() {
        match wire::parse_set(body) {
            Ok((key, value)) => set_answer(s, key, value),
            Err(e) => (s, refusal(Status::BadRequest, e.text())),
        }
    } else if op == Op::Del.byte() {
        (
            Served { cache: s.cache.del(body), ..s },
            del_answer(s.cache.value(body) is Some),
        )
    } else {
        (s, refusal(Status::UnknownOp, not_in_a_batch(op)))
    }
}

/// What the items of a batch do, one after another, and their answers.
pub open spec fn items_answer(s: Served, items: Seq<(u8, Seq<u8>)>) -> (
    Served,
    Seq<(u8, Seq<u8>)>,
)
    decreases items.len(),
{
    if items.len() == 0 {
        (s, Seq::empty())
    } else {
        let (t, rs) = items_answer(s, items.drop_last());
        let (u, r) = item_answer(t, items.last().0, items.last().1);
        (u, rs.push(r))
    }
}

/// What a batch does, and its answer: every item's, unless the envelope does
/// not parse or the answers are too long together.
pub open spec fn batch_answer(s: Served, body: Seq<u8>) -> (Served, (u8, Seq<u8>)) {
    match wire::parse_batch(body) {
        Err(e) => (s, refusal(Status::BadRequest, e.text())),
        Ok(items) => {
            let (t, rs) = items_answer(s, items);
            let b = wire::batch_bytes(rs);
            if b.len() > MAX_RESPONSE {
                (t, refusal(Status::TooLarge, response_too_large(b.len())))
            } else {
                (t, (Status::Success.byte(), b))
            }
        },
    }
}

/// What a request of an authenticated peer does, and its answer.
pub open spec fn answer(s: Served, op: u8, body: Seq<u8>) -> (Served, (u8, Seq<u8>)) {
    if op == Op::Get.byte() || op == Op::Put.byte() || op == Op::Del.byte() {
        item_answer(s, op, body)
    } else if op == Op::Batch.byte() {
        batch_answer(s, body)
    } else if op == Op::Auth.byte() || op == Op::Ping.byte() {
        (s, bare(Status::Success))
    } else {
        (s, refusal(Status::UnknownOp, unknown_op(op)))
    }
}

/// Answering items in two parts is answering them all.
pub proof fn items_answer_concat(s: Served, a: Seq<(u8, Seq<u8>)>, b: Seq<(u8, Seq<u8>)>)
    ensures
        ({
            let (t, first) = items_answer(s, a);
            let (u, second) = items_answer(t, b);
            items_answer(s, a + b) == (u, first + second)
        }),
    decreases b.len(),
{
    let (t, first) = items_answer(s, a);
    if b.len() == 0 {
        assert(a + b =~= a);
        assert(first + Seq::<(u8, Seq<u8>)>::empty() =~= first);
    } else {
        assert((a + b).drop_last() =~= a + b.drop_last());
        items_answer_concat(s, a, b.drop_last());
        let (u, second) = items_answer(t, b.drop_last());
        let (v, r) = item_answer(u, b.last().0, b.last().1);
        assert((first + second).push(r) =~= first + second.push(r));
    }
}

/// There is one answer per item.
pub proof fn items_answer_len(s: Served, items: Seq<(u8, Seq<u8>)>)
    ensures
        items_answer(s, items).1.len() == items.len(),
    decreases items.len(),
{
    if items.len() > 0 {
        items_answer_len(s, items.drop_last());
    }
}

/// A GET, SET or DEL in a batch is answered exactly as it would be on its own
/// after the items before it, and does the same.
pub proof fn a_batched_item_is_answered_as_alone(s: Served, items: Seq<(u8, Seq<u8>)>, i: int)
    requires
        0 <= i < items.len(),
        items[i].0 == Op::Get.byte() || items[i].0 == Op::Put.byte() || items[i].0
            == Op::Del.byte(),
    ensures
        items_answer(s, items).1[i] == answer(
            items_answer(s, items.take(i)).0,
            items[i].0,
            items[i].1,
        ).1,
        items_answer(s, items.take(i + 1)).0 == answer(
            items_answer(s, items.take(i)).0,
            items[i].0,
            items[i].1,
        ).0,
{
    let head = items.take(i + 1);
    assert(head.drop_last() =~= items.take(i));
    assert(items =~= head + items.skip(i + 1));
    items_answer_concat(s, head, items.skip(i + 1));
    items_answer_len(s, items.take(i));
}

/// What requests do, one after another, and their answers.
pub open spec fn in_turn(s: Served, requests: Seq<(u8, Seq<u8>)>) -> (Served, Seq<(u8, Seq<u8>)>)
    decreases requests.len(),
{
    if requests.len() == 0 {
        (s, Seq::empty())
    } else {
        let (t, rs) = in_turn(s, requests.drop_last());
        let (u, r) = answer(t, requests.last().0, requests.last().1);
        (u, rs.push(r))
    }
}

/// Whether every item is a GET, SET or DEL.
pub open spec fn keyed(items: Seq<(u8, Seq<u8>)>) -> bool {
    forall|i: int|
        0 <= i < items.len() ==> (#[trigger] items[i]).0 == Op::Get.byte() || items[i].0
            == Op::Put.byte() || items[i].0 == Op::Del.byte()
}

/// A batch of GETs, SETs and DELs does what its items do as requests of their
/// own, one after another, and holds the answers that those get, as long as
/// they fit one response.
pub proof fn a_batch_is_its_items_in_turn(s: Served, body: Seq<u8>, items: Seq<(u8, Seq<u8>)>)
    requires
        wire::parse_batch(body) == Ok::<Seq<(u8, Seq<u8>)>, wire::DecodeError>(items),
        keyed(items),
    ensures
        ({
            let (t, rs) = in_turn(s, items);
            &&& rs.len() == items.len()
            &&& answer(s, Op::Batch.byte(), body).0 == t
            &&& wire::batch_bytes(rs).len() <= MAX_RESPONSE ==> answer(
                s,
                Op::Batch.byte(),
                body,
            ).1 == (Status::Success.byte(), wire::batch_bytes(rs))
        }),
{
    items_answer_in_turn(s, items);
    items_answer_len(s, items);
}

proof fn items_answer_in_turn(s: Served, items: Seq<(u8, Seq<u8>)>)
    requires
        keyed(items),
    ensures
        items_answer(s, items) == in_turn(s, items),
    decreases items.len(),
{
    if items.len() > 0 {
        let head = items.drop_last();
        assert forall|i: int| 0 <= i < head.len() implies (#[trigger] head[i]).0 == Op::Get.byte()
            || head[i].0 == Op::Put.byte() || head[i].0 == Op::Del.byte() by {
            assert(head[i] == items[i]);
        }
        items_answer_in_turn(s, head);
        assert(items.last() == items[items.len() - 1]);
    }
}

/// A batch whose envelope does not parse does nothing.
pub proof fn a_malformed_batch_does_nothing(s: Served, body: Seq<u8>)
    requires
        wire::parse_batch(body) is Err,
    ensures
        answer(s, Op::Batch.byte(), body).0 == s,
        answer(s, Op::Batch.byte(), body).1.0 == Status::BadRequest.byte(),
{
}

/// A GET behind a SET of the same key sees the write, in one batch as in two
/// requests.
pub proof fn a_get_sees_an_earlier_set(s: Served, key: Seq<u8>, value: Seq<u8>)
    requires
        s.cache.valid(),
        s.cache.fits(key, value),
        key.len() <= u32::MAX,
        value.len() <= MAX_RESPONSE,
    ensures
        ({
            let set = (Op::Put.byte(), wire::set_bytes(key, value));
            let get = (Op::Get.byte(), key);
            &&& items_answer(s, seq![set, get]).1 == seq![
                bare(Status::Success),
                (Status::Success.byte(), value),
            ]
            &&& answer(answer(s, set.0, set.1).0, get.0, get.1).1 == (
                Status::Success.byte(),
                value,
            )
        }),
{
    let set = (Op::Put.byte(), wire::set_bytes(key, value));
    let get = (Op::Get.byte(), key);
    let two = seq![set, get];
    wire::set_reads_back(key, value);
    cache::a_write_is_read_back(s.cache, key, value);
    assert(two.drop_last() =~= seq![set]);
    assert(seq![set].drop_last() =~= Seq::<(u8, Seq<u8>)>::empty());
    assert(items_answer(s, seq![set].drop_last()) == (s, Seq::<(u8, Seq<u8>)>::empty()));
    assert(seq![set].last() == set && two.last() == get);
    assert(items_answer(s, seq![set]).1 =~= seq![bare(Status::Success)]);
    assert(items_answer(s, two).1 =~= seq![
        bare(Status::Success),
        (Status::Success.byte(), value),
    ]);
}

// Lengths of messages

/// A short text takes few bytes.
proof fn short_message(t: Seq<char>)
    requires
        t.len() <= 200,
    ensures
        utf8::encode_utf8(t).len() <= 800,
{
    text::utf8_len(t);
}

proof fn decode_error_is_short(e: DecodeError)
    ensures
        utf8::encode_utf8(e.text()).len() <= 800,
{
    reveal_strlit("unexpected end of frame: needed ");
    reveal_strlit(" more bytes");
    reveal_strlit("trailing ");
    reveal_strlit(" bytes after frame");
    reveal_strlit(" items in one batch exceeds the limit of ");
    text::u64_decimal_len(MAX_ITEMS as u64);
    match e {
        DecodeError::Truncated { needed } => text::u64_decimal_len(needed as u64),
        DecodeError::Trailing(n) => text::u64_decimal_len(n as u64),
        DecodeError::TooMany(n) => text::u64_decimal_len(n as u64),
    }
    short_message(e.text());
}

proof fn too_large_is_short(e: TooLarge)
    ensures
        utf8::encode_utf8(e.text()).len() <= 800,
{
    reveal_strlit("entry of ");
    reveal_strlit(" bytes exceeds the per-shard capacity of ");
    reveal_strlit(" bytes");
    text::u64_decimal_len(e.cost as u64);
    text::u64_decimal_len(e.capacity as u64);
    short_message(e.text());
}

proof fn response_too_large_is_short(n: u64)
    ensures
        utf8::encode_utf8(response_too_large(n as nat)).len() <= 800,
{
    reveal_strlit("response of ");
    reveal_strlit(" bytes exceeds the limit");
    text::u64_decimal_len(n);
    short_message(response_too_large(n as nat));
}

proof fn op_messages_are_short(op: u8)
    ensures
        utf8::encode_utf8(unknown_op(op)).len() <= 800,
        utf8::encode_utf8(not_in_a_batch(op)).len() <= 800,
{
    reveal_strlit("unknown op ");
    reveal_strlit("op ");
    reveal_strlit(" is not allowed in a batch");
    text::u64_decimal_len(op as u64);
    short_message(unknown_op(op));
    short_message(not_in_a_batch(op));
}

/// Whether an answer is one a client takes: a status of the protocol, and a
/// body within the limit.
pub open spec fn acceptable(r: (u8, Seq<u8>)) -> bool {
    &&& exists|status: Status| #[trigger] status.byte() == r.0
    &&& r.1.len() <= MAX_RESPONSE
}

/// A GET, SET or DEL is answered within the response limit, and leaves a valid
/// cache valid.
proof fn item_answer_is_acceptable(s: Served, op: u8, body: Seq<u8>)
    requires
        s.cache.valid(),
        s.cache.shard_capacity() <= usize::MAX,
    ensures
        acceptable(item_answer(s, op, body).1),
        item_answer(s, op, body).0.cache.valid(),
        item_answer(s, op, body).0.cache.shard_capacity() == s.cache.shard_capacity(),
{
    assert(Status::Success.byte() == 0 && Status::NotFound.byte() == 5);
    assert(Status::TooLarge.byte() == 3 && Status::BadRequest.byte() == 1);
    assert(Status::UnknownOp.byte() == 2);
    op_messages_are_short(op);
    if op == Op::Get.byte() {
        cache::a_value_is_within_its_shard(s.cache, body);
        cache::a_read_changes_no_value(s.cache, body, body);
        cache::read_keeps_capacity(s.cache, body);
        if let Some(v) = s.cache.value(body) {
            response_too_large_is_short(v.len() as u64);
        }
    } else if op == Op::Put.byte() {
        match wire::parse_set(body) {
            Ok((key, value)) => {
                cache::a_write_is_read_back(s.cache, key, value);
                cache::set_keeps_capacity(s.cache, key, value);
                too_large_is_short(too_large(s.cache, key, value));
            },
            Err(e) => decode_error_is_short(e),
        }
    } else if op == Op::Del.byte() {
        cache::a_delete_takes_one_key(s.cache, body, body);
        cache::del_keeps_capacity(s.cache, body);
    }
}

/// Each item of a batch is answered within the response limit, and a valid
/// cache stays valid.
pub proof fn items_are_acceptable(s: Served, items: Seq<(u8, Seq<u8>)>)
    requires
        s.cache.valid(),
        s.cache.shard_capacity() <= usize::MAX,
    ensures
        forall|i: int|
            0 <= i < items_answer(s, items).1.len() ==> acceptable(
                #[trigger] items_answer(s, items).1[i],
            ),
        wire::frames_bytes(items_answer(s, items).1).len() <= items.len() * (HEADER_LEN
            + MAX_RESPONSE),
        items_answer(s, items).0.cache.valid(),
        items_answer(s, items).0.cache.shard_capacity() == s.cache.shard_capacity(),
    decreases items.len(),
{
    if items.len() > 0 {
        let head = items.drop_last();
        items_are_acceptable(s, head);
        let (t, rs) = items_answer(s, head);
        let (u, r) = item_answer(t, items.last().0, items.last().1);
        item_answer_is_acceptable(t, items.last().0, items.last().1);
        assert(rs.push(r).drop_last() =~= rs);
    }
}

/// Every answer has a status of the protocol and a body within the limit that
/// clients accept, and a valid cache stays valid.
pub proof fn an_answer_is_acceptable(s: Served, op: u8, body: Seq<u8>)
    requires
        s.cache.valid(),
        s.cache.shard_capacity() <= usize::MAX,
    ensures
        acceptable(answer(s, op, body).1),
        answer(s, op, body).0.cache.valid(),
        answer(s, op, body).0.cache.shard_capacity() == s.cache.shard_capacity(),
{
    assert(Status::Success.byte() == 0 && Status::BadRequest.byte() == 1);
    assert(Status::TooLarge.byte() == 3 && Status::UnknownOp.byte() == 2);
    item_answer_is_acceptable(s, op, body);
    op_messages_are_short(op);
    if op == Op::Batch.byte() {
        match wire::parse_batch(body) {
            Err(e) => decode_error_is_short(e),
            Ok(items) => {
                wire::batch_writes_back(body);
                items_are_acceptable(s, items);
                let b = wire::batch_bytes(items_answer(s, items).1);
                response_too_large_is_short(b.len() as u64);
            },
        }
    }
}

/// The message for a response of `n` bytes.
fn response_too_large_text(n: u64) -> (s: String)
    ensures
        s@ == response_too_large(n as nat),
{
    let mut s = String::new();
    s.append("response of ");
    text::push_decimal(&mut s, n);
    s.append(" bytes exceeds the limit");
    assert(s@ =~= response_too_large(n as nat));
    s
}

/// The message for a byte that is no op.
fn unknown_op_text(op: u8) -> (s: String)
    ensures
        s@ == unknown_op(op),
{
    let mut s = String::new();
    s.append("unknown op ");
    text::push_decimal(&mut s, op as u64);
    assert(s@ =~= unknown_op(op));
    s
}

/// The message for an item that is not GET, SET or DEL.
fn not_in_a_batch_text(op: u8) -> (s: String)
    ensures
        s@ == not_in_a_batch(op),
{
    let mut s = String::new();
    s.append("op ");
    text::push_decimal(&mut s, op as u64);
    s.append(" is not allowed in a batch");
    assert(s@ =~= not_in_a_batch(op));
    s
}

// Serving

/// What a cache and its front end's counters amount to.
pub open spec fn served(cache: Cache, metrics: Metrics) -> Served {
    Served { cache: cache@, set_too_large: metrics.set_too_large }
}

/// Whether there is room for one more answer.
pub open spec fn roomy(out: Seq<u8>) -> bool {
    out.len() + MAX_RESPONSE + 4096 <= buf::MAX_LEN
}

/// The value of an entry, if there is one.
pub open spec fn entry_value(found: Option<Entry>) -> Option<Seq<u8>> {
    match found {
        Some(e) => Some(e@.value),
        None => None,
    }
}

/// An answer to be sent.
enum Reply {
    Value(Bytes),
    Bare(Status),
    Refused(Status, Bytes),
}

impl Reply {
    /// The answer as a tag and a body.
    spec fn frame(self) -> (u8, Seq<u8>) {
        match self {
            Reply::Value(v) => (Status::Success.byte(), buf::bytes_seq(v)),
            Reply::Bare(status) => bare(status),
            Reply::Refused(status, message) => (status.byte(), buf::bytes_seq(message)),
        }
    }

    /// The answer to a GET that found `found`.
    fn get(found: &Option<Entry>) -> (r: Self)
        ensures
            r.frame() == get_answer(entry_value(*found)),
            r.frame().1.len() <= MAX_RESPONSE,
    {
        match found {
            Some(e) => {
                let n: usize = e.value().len();
                if n > MAX_RESPONSE {
                    proof {
                        response_too_large_is_short(n as u64);
                    }
                    Reply::refused(Status::TooLarge, &response_too_large_text(n as u64))
                } else {
                    Reply::Value(e.share())
                }
            },
            None => Reply::Bare(Status::NotFound),
        }
    }

    /// The answer to a DEL.
    fn del(found: bool) -> (r: Self)
        ensures
            r.frame() == del_answer(found),
            r.frame().1.len() == 0,
    {
        if found {
            Reply::Bare(Status::Success)
        } else {
            Reply::Bare(Status::NotFound)
        }
    }

    /// A refusal with its message.
    fn refused(status: Status, message: &String) -> (r: Self)
        ensures
            r.frame() == refusal(status, message@),
    {
        Reply::Refused(status, text::to_bytes(message))
    }

    /// The answer to a body that does not parse.
    fn bad_request(e: DecodeError) -> (r: Self)
        ensures
            r.frame() == refusal(Status::BadRequest, e.text()),
            r.frame().1.len() <= MAX_RESPONSE,
    {
        proof {
            decode_error_is_short(e);
        }
        Reply::refused(Status::BadRequest, &e.to_string())
    }

    /// The answer to a SET that came out as `stored`.
    fn set(stored: Result<(), TooLarge>, metrics: &mut Metrics) -> (r: Self)
        ensures
            *final(metrics) == (Metrics {
                set_too_large: if stored is Err {
                    old(metrics).set_too_large.wrapping_add(1)
                } else {
                    old(metrics).set_too_large
                },
                ..*old(metrics)
            }),
            r.frame() == match stored {
                Ok(_) => bare(Status::Success),
                Err(e) => refusal(Status::TooLarge, e.text()),
            },
            r.frame().1.len() <= MAX_RESPONSE,
    {
        match stored {
            Ok(()) => Reply::Bare(Status::Success),
            Err(e) => {
                metrics.set_too_large = metrics.set_too_large.wrapping_add(1);
                proof {
                    too_large_is_short(e);
                }
                Reply::refused(Status::TooLarge, &e.to_string())
            },
        }
    }

    /// The length of the body.
    fn len(&self) -> (n: usize)
        ensures
            n == self.frame().1.len(),
    {
        match self {
            Reply::Value(v) => v.len(),
            Reply::Bare(_) => 0,
            Reply::Refused(_, message) => message.len(),
        }
    }

    /// Appends the answer to `out`: a value is copied while small, referenced
    /// from the cache entry (and read in place by the write) once it is not.
    fn write(self, out: &mut FrameWriter)
        requires
            old(out).wf(),
            self.frame().1.len() <= MAX_RESPONSE,
            old(out)@.len() + HEADER_LEN + self.frame().1.len() <= buf::MAX_LEN,
        ensures
            final(out).wf(),
            final(out)@ == old(out)@ + wire::frame_bytes(self.frame()),
            forall|m: Mark| #[trigger] old(out).holds(m) ==> final(out).holds(m),
    {
        match self {
            Reply::Value(v) => {
                out.header(Status::Success.as_u8(), v.len());
                if v.len() < io::INLINE_BODY {
                    out.put_slice(buf::bytes_slice(&v));
                } else {
                    out.put_bytes(v);
                }
            },
            Reply::Bare(status) => out.header(status.as_u8(), 0),
            Reply::Refused(status, message) => out.frame(status.as_u8(), message),
        }
        assert(out@ =~= old(out)@ + wire::frame_bytes(self.frame()));
    }
}

/// Route a request to the cache and append the response frame to `out`.
pub fn dispatch(
    op: u8,
    body: &[u8],
    cache: &mut Cache,
    metrics: &mut Metrics,
    out: &mut FrameWriter,
)
    requires
        old(cache).wf(),
        s3fifo::addressable(body@.len() + 128),
        old(out).wf(),
        roomy(old(out)@),
    ensures
        final(cache).wf(),
        final(cache).budget() == old(cache).budget(),
        final(out).wf(),
        *final(metrics) == (Metrics {
            set_too_large: final(metrics).set_too_large,
            ..*old(metrics)
        }),
        ({
            let (s, r) = answer(served(*old(cache), *old(metrics)), op, body@);
            &&& served(*final(cache), *final(metrics)) == s
            &&& final(out)@ == old(out)@ + wire::frame_bytes(r)
            &&& r.1.len() <= MAX_RESPONSE
        }),
{
    proof {
        op_messages_are_short(op);
        cache.is_valid();
    }
    let r = match Op::from_u8(op) {
        Some(Op::Get) => Reply::get(&cache.get(body)),
        Some(Op::Put) => match wire::set_body(body) {
            Ok((k, v)) => {
                proof {
                    wire::set_writes_back(body@);
                }
                Reply::set(cache.set(k, v), metrics)
            },
            Err(e) => Reply::bad_request(e),
        },
        Some(Op::Del) => Reply::del(cache.del(body)),
        Some(Op::Batch) => {
            batch(body, cache, metrics, out);
            return;
        },
        // AUTH here means already authenticated: a no-op. PING is the
        // client's heartbeat; its body is ignored rather than validated, so
        // a future client can attach something without being refused.
        Some(Op::Auth) | Some(Op::Ping) => Reply::Bare(Status::Success),
        None => Reply::refused(Status::UnknownOp, &unknown_op_text(op)),
    };
    r.write(out);
}

/// The frames of a batch in a list.
fn collect<'a>(frames: wire::Frames<'a>) -> (list: Vec<(u8, &'a [u8])>)
    requires
        frames.wf(),
    ensures
        frame_seq(list@) == frames@,
{
    let mut rest = frames;
    let mut list: Vec<(u8, &'a [u8])> = Vec::with_capacity(rest.len());
    let ghost all = frames@;
    assert(all.take(0) =~= frame_seq(list@));
    assert(all.skip(0) =~= all);
    loop
        invariant
            rest.wf(),
            list@.len() <= all.len(),
            rest@ == all.skip(list@.len() as int),
            frame_seq(list@) == all.take(list@.len() as int),
        ensures
            frame_seq(list@) == all,
        decreases rest@.len(),
    {
        let ghost n = list@.len() as int;
        match rest.next() {
            Some(item) => {
                let ghost before = list@;
                list.push(item);
                assert(all.skip(n).drop_first() =~= all.skip(n + 1));
                assert(frame_seq(list@) =~= frame_seq(before).push(all[n]));
                assert(all.take(n + 1) =~= all.take(n).push(all[n]));
            },
            None => {
                assert(all.take(n) =~= all);
                break;
            },
        }
    }
    list
}

/// Borrowed frames as pairs of a tag and a body.
pub open spec fn frame_seq(list: Seq<(u8, &[u8])>) -> Seq<(u8, Seq<u8>)> {
    list.map_values(|f: (u8, &[u8])| (f.0, f.1@))
}

/// Answers `rs` have been collected behind `base`: written out, as far as the
/// limit allows, behind a placeholder header and the number of answers to come.
spec fn collected(
    out: Seq<u8>,
    base: Seq<u8>,
    n: nat,
    rs: Seq<(u8, Seq<u8>)>,
    total: u64,
) -> bool {
    &&& total == 4 + wire::frames_bytes(rs).len()
    &&& base.is_prefix_of(out)
    &&& out.len() <= base.len() + HEADER_LEN + MAX_RESPONSE
    &&& total <= MAX_RESPONSE ==> out == base + wire::header_bytes(Status::Success.byte(), 0)
        + buf::le32(n) + wire::frames_bytes(rs)
}

/// Every answer can be sent.
spec fn answers_are_short(rs: Seq<(u8, Seq<u8>)>) -> bool {
    forall|i: int| 0 <= i < rs.len() ==> (#[trigger] rs[i]).1.len() <= MAX_RESPONSE
}

proof fn answers_len(rs: Seq<(u8, Seq<u8>)>)
    requires
        answers_are_short(rs),
    ensures
        wire::frames_bytes(rs).len() <= rs.len() * (HEADER_LEN + MAX_RESPONSE),
    decreases rs.len(),
{
    if rs.len() > 0 {
        let head = rs.drop_last();
        assert(answers_are_short(head)) by {
            assert forall|i: int| 0 <= i < head.len() implies (#[trigger] head[i]).1.len()
                <= MAX_RESPONSE by {
                assert(head[i] == rs[i]);
            }
        }
        answers_len(head);
        assert(rs.last() == rs[rs.len() - 1]);
    }
}

/// Adds one more answer, as long as there is room, and counts its bytes.
fn add_answer(
    out: &mut FrameWriter,
    total: u64,
    r: Reply,
    base: Ghost<Seq<u8>>,
    n: Ghost<nat>,
    rs: Ghost<Seq<(u8, Seq<u8>)>>,
    mark: Ghost<Mark>,
) -> (next: u64)
    requires
        old(out).wf(),
        old(out).holds(mark@),
        roomy(base@),
        collected(old(out)@, base@, n@, rs@, total),
        rs@.len() < MAX_ITEMS,
        answers_are_short(rs@),
        r.frame().1.len() <= MAX_RESPONSE,
    ensures
        final(out).wf(),
        final(out).holds(mark@),
        collected(final(out)@, base@, n@, rs@.push(r.frame()), next),
        answers_are_short(rs@.push(r.frame())),
{
    proof {
        assert(rs@.push(r.frame()).drop_last() =~= rs@);
        answers_len(rs@);
    }
    let next: u64 = total + HEADER_LEN as u64 + r.len() as u64;
    if next <= MAX_RESPONSE as u64 {
        r.write(out);
        proof {
            let before = base@ + wire::header_bytes(Status::Success.byte(), 0) + buf::le32(n@);
            assert(out@ =~= before + wire::frames_bytes(rs@.push(r.frame())));
        }
    }
    next
}

/// One more item.
proof fn items_step(s: Served, all: Seq<(u8, Seq<u8>)>, i: int)
    requires
        0 <= i < all.len(),
    ensures
        ({
            let (t, rs) = items_answer(s, all.take(i));
            let (u, r) = item_answer(t, all[i].0, all[i].1);
            items_answer(s, all.take(i + 1)) == (u, rs.push(r))
        }),
{
    assert(all.take(i + 1).drop_last() =~= all.take(i));
    assert(all.take(i + 1).last() == all[i]);
}

/// The bodies of frames.
spec fn bodies(run: Seq<(u8, Seq<u8>)>) -> Seq<Seq<u8>> {
    run.map_values(|f: (u8, Seq<u8>)| f.1)
}

/// A run of GETs: reads change no value, so each finds what it would have
/// found at the start.
proof fn gets_answer(s: Served, run: Seq<(u8, Seq<u8>)>)
    requires
        s.cache.valid(),
        forall|k: int| 0 <= k < run.len() ==> (#[trigger] run[k]).0 == Op::Get.byte(),
    ensures
        items_answer(s, run).0 == (Served { cache: s.cache.read_all(bodies(run)), ..s }),
        items_answer(s, run).1 == run.map_values(
            |f: (u8, Seq<u8>)| get_answer(s.cache.value(f.1)),
        ),
        s.cache.read_all(bodies(run)).valid(),
        forall|k: Seq<u8>| #[trigger]
            s.cache.read_all(bodies(run)).value(k) == s.cache.value(k),
    decreases run.len(),
{
    let w = |f: (u8, Seq<u8>)| get_answer(s.cache.value(f.1));
    if run.len() == 0 {
        assert(bodies(run) =~= Seq::<Seq<u8>>::empty());
        assert(items_answer(s, run).1 =~= run.map_values(w));
    } else {
        let head = run.drop_last();
        let last = run.last();
        assert forall|k: int| 0 <= k < head.len() implies (#[trigger] head[k]).0
            == Op::Get.byte() by {
            assert(head[k] == run[k]);
        }
        gets_answer(s, head);
        assert(last == run[run.len() - 1]);
        assert(bodies(run).drop_last() =~= bodies(head));
        assert(bodies(run).last() == last.1);
        let mid = s.cache.read_all(bodies(head));
        cache::a_read_changes_no_value(mid, last.1, last.1);
        assert forall|k: Seq<u8>| #[trigger]
            s.cache.read_all(bodies(run)).value(k) == s.cache.value(k) by {
            cache::a_read_changes_no_value(mid, last.1, k);
            assert(mid.value(k) == s.cache.value(k));
        }
        assert(items_answer(s, run).1 =~= run.map_values(w));
    }
}

/// A run of SETs that all fit: each is stored.
proof fn sets_answer(s: Served, run: Seq<(u8, Seq<u8>)>, entries: Seq<(Seq<u8>, Seq<u8>)>)
    requires
        s.cache.valid(),
        run.len() == entries.len(),
        forall|k: int|
            0 <= k < run.len() ==> (#[trigger] run[k]).0 == Op::Put.byte() && wire::parse_set(
                run[k].1,
            ) == Ok::<(Seq<u8>, Seq<u8>), DecodeError>(entries[k]) && s.cache.fits(
                entries[k].0,
                entries[k].1,
            ),
    ensures
        items_answer(s, run).0 == (Served { cache: s.cache.set_all(entries), ..s }),
        items_answer(s, run).1 == run.map_values(|f: (u8, Seq<u8>)| bare(Status::Success)),
        s.cache.set_all(entries).valid(),
        s.cache.set_all(entries).shard_capacity() == s.cache.shard_capacity(),
    decreases run.len(),
{
    let w = |f: (u8, Seq<u8>)| bare(Status::Success);
    if run.len() == 0 {
        assert(items_answer(s, run).1 =~= run.map_values(w));
    } else {
        let head = run.drop_last();
        let first = entries.drop_last();
        let n = run.len() - 1;
        assert forall|k: int| 0 <= k < head.len() implies (#[trigger] head[k]).0 == Op::Put.byte()
            && wire::parse_set(head[k].1) == Ok::<(Seq<u8>, Seq<u8>), DecodeError>(first[k])
            && s.cache.fits(first[k].0, first[k].1) by {
            assert(head[k] == run[k]);
        }
        sets_answer(s, head, first);
        assert(run.last() == run[n]);
        let mid = s.cache.set_all(first);
        cache::set_keeps_capacity(mid, entries[n].0, entries[n].1);
        cache::a_write_is_read_back(mid, entries[n].0, entries[n].1);
        assert(items_answer(s, run).1 =~= run.map_values(w));
    }
}

/// A run of DELs: each finds what those before it left.
proof fn dels_answer(s: Served, run: Seq<(u8, Seq<u8>)>)
    requires
        forall|k: int| 0 <= k < run.len() ==> (#[trigger] run[k]).0 == Op::Del.byte(),
    ensures
        items_answer(s, run).0 == (Served { cache: s.cache.del_all(bodies(run)), ..s }),
        items_answer(s, run).1.len() == run.len(),
        forall|k: int|
            0 <= k < run.len() ==> #[trigger] items_answer(s, run).1[k] == del_answer(
                s.cache.del_all(bodies(run).take(k)).value(run[k].1) is Some,
            ),
    decreases run.len(),
{
    if run.len() == 0 {
        assert(bodies(run) =~= Seq::<Seq<u8>>::empty());
    } else {
        let head = run.drop_last();
        let n = run.len() - 1;
        assert forall|k: int| 0 <= k < head.len() implies (#[trigger] head[k]).0
            == Op::Del.byte() by {
            assert(head[k] == run[k]);
        }
        dels_answer(s, head);
        assert(run.last() == run[n]);
        assert(bodies(run).drop_last() =~= bodies(head));
        assert(bodies(run).last() == run[n].1);
        assert forall|k: int| 0 <= k < run.len() implies #[trigger] items_answer(s, run).1[k]
            == del_answer(
            s.cache.del_all(bodies(run).take(k)).value(run[k].1) is Some,
        ) by {
            if k < n {
                assert(items_answer(s, run).1[k] == items_answer(s, head).1[k]);
                assert(bodies(run).take(k) =~= bodies(head).take(k));
                assert(head[k] == run[k]);
            } else {
                assert(bodies(run).take(k) =~= bodies(head));
            }
        }
    }
}

/// The first `i` items have been served, and their answers collected.
spec fn progress(
    s: Served,
    all: Seq<(u8, Seq<u8>)>,
    i: int,
    cache: Cache,
    metrics: Metrics,
    out: FrameWriter,
    base: Seq<u8>,
    mark: Mark,
    total: u64,
) -> bool {
    &&& cache.wf()
    &&& out.wf()
    &&& out.holds(mark)
    &&& roomy(base)
    &&& all.len() <= MAX_ITEMS
    &&& served(cache, metrics) == items_answer(s, all.take(i)).0
    &&& collected(out@, base, all.len(), items_answer(s, all.take(i)).1, total)
    &&& answers_are_short(items_answer(s, all.take(i)).1)
}

/// How far the run of items with the same op goes that starts at `from`.
fn run_end(items: &Vec<(u8, &[u8])>, from: usize) -> (end: usize)
    requires
        from < items@.len(),
    ensures
        from < end <= items@.len(),
        forall|k: int| from <= k < end ==> (#[trigger] items@[k]).0 == items@[from as int].0,
{
    let op: u8 = items[from].0;
    let n: usize = items.len();
    let mut end: usize = from + 1;
    while end < n && items[end].0 == op
        invariant
            from < end <= n == items@.len(),
            op == items@[from as int].0,
            forall|k: int| from <= k < end ==> (#[trigger] items@[k]).0 == op,
        decreases items@.len() - end,
    {
        end = end + 1;
    }
    end
}

/// The bodies of the items from `from` to `end`.
fn run_bodies<'a>(items: &Vec<(u8, &'a [u8])>, from: usize, end: usize) -> (keys: Vec<&'a [u8]>)
    requires
        from <= end <= items@.len(),
    ensures
        keys@.len() == end - from,
        forall|k: int| 0 <= k < keys@.len() ==> #[trigger] keys@[k] == items@[from + k].1,
        cache::seqs(keys@) == bodies(frame_seq(items@).subrange(from as int, end as int)),
{
    let mut keys: Vec<&'a [u8]> = Vec::with_capacity(end - from);
    let mut i: usize = from;
    while i < end
        invariant
            from <= i <= end <= items@.len(),
            keys@.len() == i - from,
            forall|k: int| 0 <= k < keys@.len() ==> #[trigger] keys@[k] == items@[from + k].1,
        decreases end - i,
    {
        keys.push(items[i].1);
        i = i + 1;
    }
    assert(cache::seqs(keys@) =~= bodies(frame_seq(items@).subrange(from as int, end as int)));
    keys
}

/// Serves a run of GETs together.
fn get_run(
    items: &Vec<(u8, &[u8])>,
    from: usize,
    cache: &mut Cache,
    metrics: &Metrics,
    out: &mut FrameWriter,
    total: u64,
    s: Ghost<Served>,
    base: Ghost<Seq<u8>>,
    mark: Ghost<Mark>,
) -> (r: (usize, u64))
    requires
        from < items@.len(),
        items@[from as int].0 == Op::Get.byte(),
        progress(
            s@,
            frame_seq(items@),
            from as int,
            *old(cache),
            *metrics,
            *old(out),
            base@,
            mark@,
            total,
        ),
    ensures
        from < r.0 <= items@.len(),
        final(cache).budget() == old(cache).budget(),
        progress(
            s@,
            frame_seq(items@),
            r.0 as int,
            *final(cache),
            *metrics,
            *final(out),
            base@,
            mark@,
            r.1,
        ),
{
    let ghost all = frame_seq(items@);
    let end: usize = run_end(items, from);
    let keys = run_bodies(items, from, end);
    let ghost run = all.subrange(from as int, end as int);
    let ghost (t, first) = items_answer(s@, all.take(from as int));
    let ghost second = items_answer(t, run).1;
    proof {
        cache.is_valid();
        assert forall|k: int| 0 <= k < run.len() implies (#[trigger] run[k]).0
            == Op::Get.byte() by {
            assert(run[k].0 == items@[from + k].0);
        }
        gets_answer(t, run);
        items_answer_concat(s@, all.take(from as int), run);
        items_answer_len(s@, all.take(from as int));
        assert(all.take(from as int) + run =~= all.take(end as int));
        assert(first + second.take(0) =~= first);
    }
    let found = cache.get_many(keys.as_slice());
    let mut total: u64 = total;
    let mut k: usize = 0;
    while k < found.len()
        invariant
            k <= found@.len() == keys@.len() == run.len() == second.len(),
            first.len() + second.len() <= MAX_ITEMS,
            out.wf(),
            out.holds(mark@),
            roomy(base@),
            collected(out@, base@, all.len(), first + second.take(k as int), total),
            answers_are_short(first + second.take(k as int)),
            second == run.map_values(|f: (u8, Seq<u8>)| get_answer(t.cache.value(f.1))),
            forall|i: int| 0 <= i < run.len() ==> (#[trigger] run[i]).1 == keys@[i]@,
            forall|i: int|
                0 <= i < keys@.len() ==> entry_value(#[trigger] found@[i]) == t.cache.value(
                    keys@[i]@,
                ),
        decreases found@.len() - k,
    {
        let ghost sofar = first + second.take(k as int);
        let r = Reply::get(&found[k]);
        proof {
            assert(run[k as int].1 == keys@[k as int]@);
            assert(entry_value(found@[k as int]) == t.cache.value(keys@[k as int]@));
            assert(r.frame() == second[k as int]);
            assert(sofar.push(second[k as int]) =~= first + second.take(k + 1));
        }
        total = add_answer(out, total, r, base, Ghost(all.len()), Ghost(sofar), mark);
        k = k + 1;
    }
    assert(second.take(second.len() as int) =~= second);
    (end, total)
}

/// Serves a run of DELs together.
fn del_run(
    items: &Vec<(u8, &[u8])>,
    from: usize,
    cache: &mut Cache,
    metrics: &Metrics,
    out: &mut FrameWriter,
    total: u64,
    s: Ghost<Served>,
    base: Ghost<Seq<u8>>,
    mark: Ghost<Mark>,
) -> (r: (usize, u64))
    requires
        from < items@.len(),
        items@[from as int].0 == Op::Del.byte(),
        progress(
            s@,
            frame_seq(items@),
            from as int,
            *old(cache),
            *metrics,
            *old(out),
            base@,
            mark@,
            total,
        ),
    ensures
        from < r.0 <= items@.len(),
        final(cache).budget() == old(cache).budget(),
        progress(
            s@,
            frame_seq(items@),
            r.0 as int,
            *final(cache),
            *metrics,
            *final(out),
            base@,
            mark@,
            r.1,
        ),
{
    let ghost all = frame_seq(items@);
    let end: usize = run_end(items, from);
    let keys = run_bodies(items, from, end);
    let ghost run = all.subrange(from as int, end as int);
    let ghost (t, first) = items_answer(s@, all.take(from as int));
    let ghost second = items_answer(t, run).1;
    proof {
        assert forall|k: int| 0 <= k < run.len() implies (#[trigger] run[k]).0
            == Op::Del.byte() by {
            assert(run[k].0 == items@[from + k].0);
        }
        dels_answer(t, run);
        items_answer_concat(s@, all.take(from as int), run);
        items_answer_len(s@, all.take(from as int));
        assert(all.take(from as int) + run =~= all.take(end as int));
        assert(first + second.take(0) =~= first);
    }
    let found = cache.del_many(keys.as_slice());
    let mut total: u64 = total;
    let mut k: usize = 0;
    while k < found.len()
        invariant
            k <= found@.len() == keys@.len() == run.len() == second.len(),
            first.len() + second.len() <= MAX_ITEMS,
            out.wf(),
            out.holds(mark@),
            roomy(base@),
            collected(out@, base@, all.len(), first + second.take(k as int), total),
            answers_are_short(first + second.take(k as int)),
            forall|i: int|
                0 <= i < run.len() ==> del_answer(#[trigger] found@[i]) == second[i],
        decreases found@.len() - k,
    {
        let ghost sofar = first + second.take(k as int);
        let r = Reply::del(found[k]);
        proof {
            assert(del_answer(found@[k as int]) == second[k as int]);
            assert(sofar.push(second[k as int]) =~= first + second.take(k + 1));
        }
        total = add_answer(out, total, r, base, Ghost(all.len()), Ghost(sofar), mark);
        k = k + 1;
    }
    assert(second.take(second.len() as int) =~= second);
    (end, total)
}

/// Adds the answer to the item at `i`, which left the cache and counters as
/// they are now.
fn add_item(
    out: &mut FrameWriter,
    total: u64,
    r: Reply,
    s: Ghost<Served>,
    all: Ghost<Seq<(u8, Seq<u8>)>>,
    i: Ghost<int>,
    base: Ghost<Seq<u8>>,
    mark: Ghost<Mark>,
) -> (next: u64)
    requires
        0 <= i@ < all@.len() <= MAX_ITEMS,
        old(out).wf(),
        old(out).holds(mark@),
        roomy(base@),
        collected(old(out)@, base@, all@.len(), items_answer(s@, all@.take(i@)).1, total),
        answers_are_short(items_answer(s@, all@.take(i@)).1),
        r.frame() == item_answer(items_answer(s@, all@.take(i@)).0, all@[i@].0, all@[i@].1).1,
        r.frame().1.len() <= MAX_RESPONSE,
    ensures
        final(out).wf(),
        final(out).holds(mark@),
        collected(final(out)@, base@, all@.len(), items_answer(s@, all@.take(i@ + 1)).1, next),
        answers_are_short(items_answer(s@, all@.take(i@ + 1)).1),
        items_answer(s@, all@.take(i@ + 1)).0 == item_answer(
            items_answer(s@, all@.take(i@)).0,
            all@[i@].0,
            all@[i@].1,
        ).0,
{
    proof {
        items_step(s@, all@, i@);
        items_answer_len(s@, all@.take(i@));
    }
    let ghost rs = items_answer(s@, all@.take(i@)).1;
    add_answer(out, total, r, base, Ghost(all@.len()), Ghost(rs), mark)
}

/// The entries of the SETs from `from` to `end`, up to the first that does not
/// parse, and why that does not.
fn run_entries<'a>(items: &Vec<(u8, &'a [u8])>, from: usize, end: usize) -> (r: (
    Vec<(&'a [u8], &'a [u8])>,
    Option<DecodeError>,
))
    requires
        from < end <= items@.len(),
    ensures
        r.0@.len() <= end - from,
        forall|k: int|
            0 <= k < r.0@.len() ==> wire::parse_set(items@[from + k].1@) == Ok::<
                (Seq<u8>, Seq<u8>),
                DecodeError,
            >((#[trigger] cache::pairs(r.0@)[k])),
        match r.1 {
            Some(e) => r.0@.len() < end - from && wire::parse_set(
                items@[from + r.0@.len() as int].1@,
            ) == Err::<(Seq<u8>, Seq<u8>), DecodeError>(e),
            None => r.0@.len() == end - from,
        },
{
    let mut entries: Vec<(&'a [u8], &'a [u8])> = Vec::with_capacity(end - from);
    let mut i: usize = from;
    while i < end
        invariant
            from <= i <= end <= items@.len(),
            entries@.len() == i - from,
            forall|k: int|
                0 <= k < entries@.len() ==> wire::parse_set(items@[from + k].1@) == Ok::<
                    (Seq<u8>, Seq<u8>),
                    DecodeError,
                >((#[trigger] cache::pairs(entries@)[k])),
        decreases end - i,
    {
        match wire::set_body(items[i].1) {
            Ok(kv) => {
                let ghost before = cache::pairs(entries@);
                entries.push(kv);
                assert(cache::pairs(entries@) =~= before.push((kv.0@, kv.1@)));
            },
            Err(e) => return (entries, Some(e)),
        }
        i = i + 1;
    }
    (entries, None)
}

/// Serves a run of SETs together. The run ends at the first item that does not
/// parse; that one is refused on its own and the next run starts after it.
fn set_run(
    items: &Vec<(u8, &[u8])>,
    from: usize,
    cache: &mut Cache,
    metrics: &mut Metrics,
    out: &mut FrameWriter,
    total: u64,
    s: Ghost<Served>,
    base: Ghost<Seq<u8>>,
    mark: Ghost<Mark>,
) -> (r: (usize, u64))
    requires
        from < items@.len(),
        items@[from as int].0 == Op::Put.byte(),
        forall|k: int|
            0 <= k < items@.len() ==> s3fifo::addressable((#[trigger] items@[k]).1@.len() + 128),
        progress(
            s@,
            frame_seq(items@),
            from as int,
            *old(cache),
            *old(metrics),
            *old(out),
            base@,
            mark@,
            total,
        ),
    ensures
        from < r.0 <= items@.len(),
        final(cache).budget() == old(cache).budget(),
        *final(metrics) == (Metrics {
            set_too_large: final(metrics).set_too_large,
            ..*old(metrics)
        }),
        progress(
            s@,
            frame_seq(items@),
            r.0 as int,
            *final(cache),
            *final(metrics),
            *final(out),
            base@,
            mark@,
            r.1,
        ),
{
    let ghost all = frame_seq(items@);
    let end: usize = run_end(items, from);
    let (entries, bad) = run_entries(items, from, end);
    let n: usize = entries.len();
    let stop: usize = from + n;
    let ghost run = all.subrange(from as int, stop as int);
    let ghost kvs = cache::pairs(entries@);
    let ghost (t, first) = items_answer(s@, all.take(from as int));
    proof {
        cache.is_valid();
        assert forall|k: int| 0 <= k < entries@.len() implies s3fifo::addressable(
            s3fifo::entry_cost((#[trigger] entries@[k]).0@, entries@[k].1@),
        ) by {
            assert(kvs[k] == (entries@[k].0@, entries@[k].1@));
            wire::set_writes_back(items@[from + k].1@);
            assert(s3fifo::addressable(items@[from + k].1@.len() + 128));
        }
        assert forall|k: int| 0 <= k < run.len() implies (#[trigger] run[k]).0 == Op::Put.byte()
            && wire::parse_set(run[k].1) == Ok::<(Seq<u8>, Seq<u8>), DecodeError>(kvs[k]) by {
            assert(run[k] == (items@[from + k].0, items@[from + k].1@));
        }
        items_answer_len(s@, all.take(from as int));
        assert(all.take(from as int) + run =~= all.take(stop as int));
    }
    let mut total: u64 = total;
    match cache.set_many(entries.as_slice()) {
        Ok(()) => {
            let ghost second = items_answer(t, run).1;
            proof {
                assert forall|k: int| 0 <= k < run.len() implies t.cache.fits(
                    (#[trigger] kvs[k]).0,
                    kvs[k].1,
                ) by {
                    assert(kvs[k] == (entries@[k].0@, entries@[k].1@));
                }
                assert forall|k: int| 0 <= k < run.len() implies (#[trigger] run[k]).0
                    == Op::Put.byte() && wire::parse_set(run[k].1) == Ok::<
                    (Seq<u8>, Seq<u8>),
                    DecodeError,
                >(kvs[k]) && t.cache.fits(kvs[k].0, kvs[k].1) by {
                }
                sets_answer(t, run, kvs);
                items_answer_concat(s@, all.take(from as int), run);
                assert(first + second.take(0) =~= first);
            }
            let mut k: usize = 0;
            while k < n
                invariant
                    k <= n == run.len() == second.len(),
                    first.len() + second.len() <= MAX_ITEMS,
                    out.wf(),
                    out.holds(mark@),
                    roomy(base@),
                    collected(out@, base@, all.len(), first + second.take(k as int), total),
                    answers_are_short(first + second.take(k as int)),
                    second == run.map_values(|f: (u8, Seq<u8>)| bare(Status::Success)),
                decreases n - k,
            {
                let ghost sofar = first + second.take(k as int);
                let r = Reply::Bare(Status::Success);
                assert(r.frame() == second[k as int]);
                assert(sofar.push(second[k as int]) =~= first + second.take(k + 1));
                total = add_answer(out, total, r, base, Ghost(all.len()), Ghost(sofar), mark);
                k = k + 1;
            }
            assert(second.take(second.len() as int) =~= second);
        },
        // Something does not fit: store what does, one by one, so each item
        // answers for itself.
        Err(_) => {
            let mut k: usize = 0;
            while k < n
                invariant
                    k <= n == entries@.len() == run.len(),
                    from + n == stop <= items@.len(),
                    all == frame_seq(items@),
                    all.len() <= MAX_ITEMS,
                    kvs == cache::pairs(entries@),
                    run == all.subrange(from as int, stop as int),
                    forall|k: int|
                        0 <= k < entries@.len() ==> s3fifo::addressable(
                            s3fifo::entry_cost((#[trigger] entries@[k]).0@, entries@[k].1@),
                        ),
                    forall|k: int|
                        0 <= k < run.len() ==> (#[trigger] run[k]).0 == Op::Put.byte()
                            && wire::parse_set(run[k].1) == Ok::<(Seq<u8>, Seq<u8>), DecodeError>(
                            kvs[k],
                        ),
                    cache.budget() == old(cache).budget(),
                    *metrics == (Metrics { set_too_large: metrics.set_too_large, ..*old(metrics) }),
                    progress(
                        s@,
                        all,
                        from + k,
                        *cache,
                        *metrics,
                        *out,
                        base@,
                        mark@,
                        total,
                    ),
                decreases n - k,
            {
                let (key, value) = entries[k];
                proof {
                    cache.is_valid();
                    assert(entries@[k as int].0@ == key@);
                    assert(kvs[k as int] == (key@, value@));
                    assert(run[k as int] == all[from + k]);
                }
                let r = Reply::set(cache.set(key, value), metrics);
                total = add_item(out, total, r, s, Ghost(all), Ghost(from + k), base, mark);
                k = k + 1;
            }
        },
    }
    match bad {
        Some(e) => {
            proof {
                assert(all[stop as int] == (items@[stop as int].0, items@[stop as int].1@));
            }
            let r = Reply::bad_request(e);
            total = add_item(out, total, r, s, Ghost(all), Ghost(stop as int), base, mark);
            (stop + 1, total)
        },
        None => (stop, total),
    }
}

/// Serve a BATCH body: every item answered as its op would be on its own,
/// in order, written as it is produced under a header patched at the end.
/// Runs of the same op go to the cache together.
fn batch(body: &[u8], cache: &mut Cache, metrics: &mut Metrics, out: &mut FrameWriter)
    requires
        old(cache).wf(),
        s3fifo::addressable(body@.len() + 128),
        old(out).wf(),
        roomy(old(out)@),
    ensures
        final(cache).wf(),
        final(cache).budget() == old(cache).budget(),
        final(out).wf(),
        *final(metrics) == (Metrics {
            set_too_large: final(metrics).set_too_large,
            ..*old(metrics)
        }),
        ({
            let (s, r) = batch_answer(served(*old(cache), *old(metrics)), body@);
            &&& served(*final(cache), *final(metrics)) == s
            &&& final(out)@ == old(out)@ + wire::frame_bytes(r)
            &&& r.1.len() <= MAX_RESPONSE
        }),
{
    let frames = match wire::frames(body) {
        Ok(frames) => frames,
        Err(e) => {
            Reply::bad_request(e).write(out);
            return;
        },
    };
    let items = collect(frames);
    proof {
        wire::batch_writes_back(body@);
        let all = frame_seq(items@);
        assert forall|k: int| 0 <= k < items@.len() implies s3fifo::addressable(
            (#[trigger] items@[k]).1@.len() + 128,
        ) by {
            wire::frame_is_within(all, k);
            assert(all[k].1 == items@[k].1@);
        }
    }
    let ghost s0 = served(*cache, *metrics);
    let ghost all = frame_seq(items@);
    let ghost base = out@;
    let n: usize = items.len();
    let mark = out.begin(Status::Success.as_u8());
    let count = wire::to_le_bytes(n as u32);
    out.put_slice(count.as_slice());
    let mut total: u64 = 4;
    let mut i: usize = 0;
    assert(all.take(0) =~= Seq::<(u8, Seq<u8>)>::empty());
    while i < n
        invariant
            i <= n == items@.len(),
            n <= MAX_ITEMS,
            all == frame_seq(items@),
            wire::parse_batch(body@) == Ok::<Seq<(u8, Seq<u8>)>, DecodeError>(all),
            s3fifo::addressable(body@.len() + 128),
            forall|k: int|
                0 <= k < items@.len() ==> s3fifo::addressable(
                    (#[trigger] items@[k]).1@.len() + 128,
                ),
            cache.budget() == old(cache).budget(),
            *metrics == (Metrics { set_too_large: metrics.set_too_large, ..*old(metrics) }),
            mark.at() == base.len(),
            progress(s0, all, i as int, *cache, *metrics, *out, base, mark, total),
        decreases n - i,
    {
        let op: u8 = items[i].0;
        match Op::from_u8(op) {
            Some(Op::Get) => {
                let (end, next) = get_run(
                    &items,
                    i,
                    cache,
                    metrics,
                    out,
                    total,
                    Ghost(s0),
                    Ghost(base),
                    Ghost(mark),
                );
                i = end;
                total = next;
            },
            Some(Op::Put) => {
                let (end, next) = set_run(
                    &items,
                    i,
                    cache,
                    metrics,
                    out,
                    total,
                    Ghost(s0),
                    Ghost(base),
                    Ghost(mark),
                );
                i = end;
                total = next;
            },
            Some(Op::Del) => {
                let (end, next) = del_run(
                    &items,
                    i,
                    cache,
                    metrics,
                    out,
                    total,
                    Ghost(s0),
                    Ghost(base),
                    Ghost(mark),
                );
                i = end;
                total = next;
            },
            _ => {
                proof {
                    op_messages_are_short(op);
                    assert(all[i as int] == (op, items@[i as int].1@));
                }
                let r = Reply::refused(Status::UnknownOp, &not_in_a_batch_text(op));
                total = add_item(
                    out,
                    total,
                    r,
                    Ghost(s0),
                    Ghost(all),
                    Ghost(i as int),
                    Ghost(base),
                    Ghost(mark),
                );
                i = i + 1;
            },
        }
    }
    proof {
        assert(all.take(n as int) =~= all);
        items_answer_len(s0, all);
    }
    let ghost rs = items_answer(s0, all).1;
    if total > MAX_RESPONSE as u64 {
        out.abort(mark);
        proof {
            response_too_large_is_short(total);
            assert(out@ =~= base);
        }
        Reply::refused(Status::TooLarge, &response_too_large_text(total)).write(out);
        return;
    }
    out.end(mark);
    proof {
        io::ended_frame_is_a_frame(base, Status::Success.byte(), wire::batch_bytes(rs));
    }
}

// Connections

/// What a connection amounts to: whether the peer has authenticated, the input
/// not yet served, what is queued for the peer, and what requests act on.
#[verifier::ext_equal]
pub struct Session {
    pub authed: bool,
    pub input: Seq<u8>,
    pub out: Seq<u8>,
    pub served: Served,
    pub auth_failures: u64,
    /// The connection closes once what is queued has been sent.
    pub close: bool,
}

/// The longest body accepted from a peer.
pub open spec fn frame_limit(authed: bool) -> nat {
    if authed {
        MAX_FRAME as nat
    } else {
        MAX_AUTH_FRAME as nat
    }
}

/// Every complete frame of the input served in order: requests once the peer
/// has authenticated, before that one AUTH with the right token. Anything else
/// closes the connection after its refusal, as does a frame that is too large.
pub open spec fn serve(c: Session, token: Seq<u8>) -> Session
    decreases c.input.len(),
{
    match io::next_frame(frame_limit(c.authed), c.input) {
        Ok(None) => c,
        Err(n) => Session {
            out: c.out + wire::frame_bytes(
                refusal(Status::TooLarge, io::FrameTooLarge(n as usize).text()),
            ),
            close: true,
            ..c
        },
        Ok(Some((f, rest))) => if c.authed {
            let (s, r) = answer(c.served, f.0, f.1);
            serve(
                Session { input: rest, out: c.out + wire::frame_bytes(r), served: s, ..c },
                token,
            )
        } else if f.0 == Op::Auth.byte() && f.1 == token {
            serve(
                Session {
                    authed: true,
                    input: rest,
                    out: c.out + wire::frame_bytes(bare(Status::Success)),
                    ..c
                },
                token,
            )
        } else {
            Session {
                input: rest,
                out: c.out + wire::frame_bytes(refusal(Status::Unauthorized, "auth required"@)),
                auth_failures: c.auth_failures.wrapping_add(1),
                close: true,
                ..c
            }
        },
    }
}

/// A peer whose first frame is not AUTH with the right token reaches nothing:
/// it is refused once, counted, and cut off, whatever else it sent.
pub proof fn nothing_is_served_before_auth(c: Session, token: Seq<u8>, f: (u8, Seq<u8>), rest: Seq<
    u8,
>)
    requires
        !c.authed,
        c.input == wire::frame_bytes(f) + rest,
        f.1.len() <= MAX_AUTH_FRAME,
        f.0 != Op::Auth.byte() || f.1 != token,
    ensures
        serve(c, token).served == c.served,
        serve(c, token).close,
        !serve(c, token).authed,
        serve(c, token).auth_failures == c.auth_failures.wrapping_add(1),
        serve(c, token).out == c.out + wire::frame_bytes(
            refusal(Status::Unauthorized, "auth required"@),
        ),
{
    io::written_frame_is_read(MAX_AUTH_FRAME as nat, f, rest);
}

/// Before AUTH a frame over [`MAX_AUTH_FRAME`] is refused by its header alone,
/// and the connection closes.
pub proof fn large_frames_are_refused_before_auth(
    c: Session,
    token: Seq<u8>,
    tag: u8,
    len: nat,
    rest: Seq<u8>,
)
    requires
        !c.authed,
        MAX_AUTH_FRAME < len <= u32::MAX,
        c.input == wire::header_bytes(tag, len) + rest,
    ensures
        serve(c, token).close,
        serve(c, token).served == c.served,
        serve(c, token).out == c.out + wire::frame_bytes(
            refusal(Status::TooLarge, io::FrameTooLarge(len as usize).text()),
        ),
{
    wire::header_reads_back(tag, len);
    assert(c.input.subrange(1, 5) =~= wire::header_bytes(tag, len).subrange(1, 5));
}

/// The right token opens the connection, and what follows it is served.
pub proof fn the_right_token_is_accepted(c: Session, token: Seq<u8>, rest: Seq<u8>)
    requires
        !c.authed,
        token.len() <= MAX_AUTH_FRAME,
        c.input == wire::frame_bytes((Op::Auth.byte(), token)) + rest,
    ensures
        serve(c, token) == serve(
            Session {
                authed: true,
                input: rest,
                out: c.out + wire::frame_bytes(bare(Status::Success)),
                ..c
            },
            token,
        ),
{
    io::written_frame_is_read(MAX_AUTH_FRAME as nat, (Op::Auth.byte(), token), rest);
}

/// One more frame in front: it is answered before what follows.
pub proof fn requests_are_answered_in_order(
    c: Session,
    token: Seq<u8>,
    f: (u8, Seq<u8>),
    rest: Seq<u8>,
)
    requires
        c.authed,
        f.1.len() <= MAX_FRAME,
        c.input == wire::frame_bytes(f) + rest,
    ensures
        ({
            let (s, r) = answer(c.served, f.0, f.1);
            serve(c, token) == serve(
                Session { input: rest, out: c.out + wire::frame_bytes(r), served: s, ..c },
                token,
            )
        }),
{
    io::written_frame_is_read(MAX_FRAME as nat, f, rest);
}

proof fn frame_too_large_is_short(e: io::FrameTooLarge)
    ensures
        utf8::encode_utf8(e.text()).len() <= 800,
{
    reveal_strlit("frame body of ");
    reveal_strlit(" bytes exceeds the limit");
    text::u64_decimal_len(e.0 as u64);
    short_message(e.text());
}

/// Taking a frame leaves one fewer.
proof fn one_frame_fewer(max: nat, input: Seq<u8>)
    requires
        max <= MAX_FRAME,
    ensures
        io::next_frame(max, input) matches Ok(Some((f, rest))) ==> io::all_frames(
            MAX_FRAME as nat,
            input,
        ).0.len() == 1 + io::all_frames(MAX_FRAME as nat, rest).0.len(),
{
}

/// Bytes an answer may take, header and message included.
pub const MAX_ANSWER: usize = 0x400_2000;

/// One peer's connection: what it sent, what it is to be sent.
pub struct Connection {
    reader: FrameReader,
    out: FrameWriter,
    authed: bool,
}

impl Connection {
    pub closed spec fn wf(&self) -> bool {
        &&& self.reader.wf()
        &&& self.out.wf()
        &&& self.reader.limit() == frame_limit(self.authed)
    }

    /// The input not yet served.
    pub closed spec fn input(&self) -> Seq<u8> {
        self.reader@
    }

    /// What is queued for the peer.
    pub closed spec fn queued(&self) -> Seq<u8> {
        self.out@
    }

    /// Whether the peer has authenticated.
    pub closed spec fn is_authed(&self) -> bool {
        self.authed
    }

    /// The connection, with what its requests act on.
    pub open spec fn session(&self, cache: Cache, metrics: Metrics, close: bool) -> Session {
        Session {
            authed: self.is_authed(),
            input: self.input(),
            out: self.queued(),
            served: served(cache, metrics),
            auth_failures: metrics.auth_failures,
            close,
        }
    }

    /// A connection just accepted.
    pub fn new() -> (c: Self)
        ensures
            c.wf(),
            !c.is_authed(),
            c.input() == Seq::<u8>::empty(),
            c.queued() == Seq::<u8>::empty(),
    {
        Connection {
            reader: FrameReader::new(MAX_AUTH_FRAME),
            out: FrameWriter::new(),
            authed: false,
        }
    }

    /// Whether the peer has authenticated.
    pub fn authed(&self) -> (r: bool)
        ensures
            r == self.is_authed(),
    {
        self.authed
    }

    /// Makes room for more input and lends the buffer to append it to.
    pub fn prepare(&mut self) -> (b: &mut bytes::BytesMut)
        requires
            old(self).wf(),
            old(self).input().len() + io::BUF <= buf::MAX_LEN,
        ensures
            buf::mut_seq(*b) == old(self).input(),
            final(self).wf(),
            final(self).is_authed() == old(self).is_authed(),
            final(self).queued() == old(self).queued(),
            final(self).input() == buf::mut_seq(*final(b)),
    {
        self.reader.prepare()
    }

    /// What is queued for the peer, to be flushed.
    pub fn output(&mut self) -> (w: &mut FrameWriter)
        requires
            old(self).wf(),
        ensures
            w.wf(),
            w@ == old(self).queued(),
            final(w).wf() ==> final(self).wf(),
            final(self).is_authed() == old(self).is_authed(),
            final(self).input() == old(self).input(),
            final(self).queued() == final(w)@,
    {
        &mut self.out
    }

    /// Serve every complete frame already buffered. Returns whether the
    /// connection is to be closed once the answers are flushed.
    pub fn serve_buffered(&mut self, token: &[u8], cache: &mut Cache, metrics: &mut Metrics) -> (
        close: bool)
        requires
            old(self).wf(),
            old(cache).wf(),
            old(self).queued().len() + MAX_ANSWER * (io::all_frames(
                MAX_FRAME as nat,
                old(self).input(),
            ).0.len() + 1) <= buf::MAX_LEN,
        ensures
            final(self).wf(),
            final(cache).wf(),
            final(cache).budget() == old(cache).budget(),
            final(metrics).start == old(metrics).start,
            final(self).session(*final(cache), *final(metrics), close) == serve(
                old(self).session(*old(cache), *old(metrics), false),
                token@,
            ),
    {
        let ghost goal = serve(self.session(*cache, *metrics, false), token@);
        loop
            invariant
                self.wf(),
                cache.wf(),
                cache.budget() == old(cache).budget(),
                metrics.start == old(metrics).start,
                self.queued().len() + MAX_ANSWER * (io::all_frames(
                    MAX_FRAME as nat,
                    self.input(),
                ).0.len() + 1) <= buf::MAX_LEN,
                serve(self.session(*cache, *metrics, false), token@) == goal,
                goal == serve(old(self).session(*old(cache), *old(metrics), false), token@),
            decreases self.input().len(),
        {
            let ghost before = self.session(*cache, *metrics, false);
            let authed: bool = self.authed;
            proof {
                one_frame_fewer(frame_limit(authed) as nat, before.input);
            }
            match self.reader.next_buffered() {
                Ok(Some((op, body))) => {
                    if authed {
                        dispatch(op, body, cache, metrics, &mut self.out);
                    } else if op == Op::Auth.as_u8() && ct_eq(token, body) {
                        self.authed = true;
                        self.reader.set_max_frame(MAX_FRAME);
                        Reply::Bare(Status::Success).write(&mut self.out);
                    } else {
                        metrics.auth_failures = metrics.auth_failures.wrapping_add(1);
                        let mut message = String::new();
                        message.append("auth required");
                        proof {
                            reveal_strlit("auth required");
                            assert(message@ =~= "auth required"@);
                            short_message(message@);
                        }
                        Reply::refused(Status::Unauthorized, &message).write(&mut self.out);
                        return true;
                    }
                },
                Ok(None) => return false,
                Err(e) => {
                    proof {
                        frame_too_large_is_short(e);
                    }
                    Reply::refused(Status::TooLarge, &e.to_string()).write(&mut self.out);
                    return true;
                },
            }
        }
    }
}

/// When to give up on a peer, in milliseconds: until AUTH the deadline is
/// fixed; after it the idle clock restarts at every wait, so a peer only has to
/// move something within each `idle` window, not finish a request.
pub fn deadline(authed: bool, idle: Option<u64>, now: u64, auth_deadline: u64) -> (at: Option<u64>)
    requires
        idle matches Some(d) ==> now + d <= u64::MAX,
    ensures
        at == if !authed {
            Some(auth_deadline)
        } else {
            match idle {
                Some(d) => Some((now + d) as u64),
                None => None,
            }
        },
        match (at, patience(authed, idle, now as int, auth_deadline as int)) {
            (Some(t), Some(u)) => t == u,
            (None, None) => true,
            _ => false,
        },
{
    if !authed {
        return Some(auth_deadline);
    }
    match idle {
        Some(d) => Some(now + d),
        None => None,
    }
}

// Laws of the ops

/// A GET answers with the very value that is stored, if it can be sent, and
/// changes no value.
pub proof fn a_get_answers_what_is_stored(s: Served, key: Seq<u8>, other: Seq<u8>)
    requires
        s.cache.valid(),
    ensures
        ({
            let (t, r) = answer(s, 1, key);
            &&& match s.cache.value(key) {
                Some(v) => if v.len() <= 0x400_0000 {
                    r == (0u8, v)
                } else {
                    r.0 == 3
                },
                None => r == (5u8, Seq::<u8>::empty()),
            }
            &&& t.cache.value(other) == s.cache.value(other)
            &&& t.set_too_large == s.set_too_large
        }),
{
    cache::a_read_changes_no_value(s.cache, key, other);
}

/// A DEL says whether there was anything to remove. After it a GET of the key
/// finds nothing, nor does another DEL, and every other key is as it was.
pub proof fn a_del_removes_one_key(s: Served, key: Seq<u8>, other: Seq<u8>)
    requires
        s.cache.valid(),
        other != key,
    ensures
        ({
            let (t, r) = answer(s, 3, key);
            &&& r == (if s.cache.value(key) is Some {
                0u8
            } else {
                5u8
            }, Seq::<u8>::empty())
            &&& answer(t, 1, key).1 == (5u8, Seq::<u8>::empty())
            &&& answer(t, 3, key).1 == (5u8, Seq::<u8>::empty())
            &&& answer(t, 1, other).1 == answer(s, 1, other).1
            &&& t.set_too_large == s.set_too_large
        }),
{
    cache::a_delete_takes_one_key(s.cache, key, other);
}

/// A SET is taken exactly where its key, its value and 128 bytes more fit the
/// budget of a shard. One that is not is answered as too large and counted, and
/// changes nothing. A body without a whole key is a bad request.
pub proof fn a_set_is_taken_or_changes_nothing(s: Served, body: Seq<u8>)
    ensures
        ({
            let (t, r) = answer(s, 2, body);
            match wire::parse_set(body) {
                Ok((key, value)) => if key.len() + value.len() + 128
                    <= s.cache.shard_capacity() {
                    &&& r == (0u8, Seq::<u8>::empty())
                    &&& t.cache == s.cache.set(key, value)
                    &&& t.set_too_large == s.set_too_large
                } else {
                    &&& r.0 == 3
                    &&& t.cache == s.cache
                    &&& t.set_too_large == cache::one_more(s.set_too_large)
                },
                Err(_) => r.0 == 1 && t == s,
            }
        }),
{
    match wire::parse_set(body) {
        Ok((key, value)) => cache::what_could_never_fit_is_refused(s.cache, key, value),
        Err(_) => {},
    }
}

/// AUTH and PING are answered with success and nothing else, and change
/// nothing, whatever they carry. A byte that is no op is refused, and so is, in
/// a batch, anything but GET, SET and DEL; the refusal names the byte.
pub proof fn other_ops_change_nothing(s: Served, op: u8, body: Seq<u8>)
    ensures
        op == 4 || op == 5 ==> answer(s, op, body) == (s, (0u8, Seq::<u8>::empty())),
        op == 0 || op > 6 ==> answer(s, op, body) == (
            s,
            (2u8, utf8::encode_utf8("unknown op "@ + text::decimal(op as nat))),
        ),
        op == 0 || op > 3 ==> item_answer(s, op, body) == (
            s,
            (
                2u8,
                utf8::encode_utf8(
                    "op "@ + text::decimal(op as nat) + " is not allowed in a batch"@,
                ),
            ),
        ),
{
}

/// Whoever is refused is told why: what of the body is missing or too much, how
/// long the answer would have been, or how much the entry takes of how much a
/// shard holds.
pub proof fn a_refusal_says_why(s: Served, body: Seq<u8>)
    requires
        s.cache.valid(),
    ensures
        wire::parse_set(body) matches Err(e) ==> answer(s, 2, body).1 == (
            1u8,
            utf8::encode_utf8(e.text()),
        ),
        wire::parse_batch(body) matches Err(e) ==> answer(s, 6, body).1 == (
            1u8,
            utf8::encode_utf8(e.text()),
        ),
        s.cache.value(body) matches Some(v) && v.len() > 0x400_0000 ==> answer(s, 1, body).1 == (
            3u8,
            utf8::encode_utf8(
                "response of "@ + text::decimal(s.cache.value(body)->Some_0.len())
                    + " bytes exceeds the limit"@,
            ),
        ),
        wire::parse_set(body) matches Ok((key, value)) ==> (key.len() + value.len() + 128
            <= usize::MAX && key.len() + value.len() + 128 > s.cache.shard_capacity() ==> answer(
            s,
            2,
            body,
        ).1 == (
            3u8,
            utf8::encode_utf8(
                "entry of "@ + text::decimal(key.len() + value.len() + 128)
                    + " bytes exceeds the per-shard capacity of "@ + text::decimal(
                    s.cache.shard_capacity(),
                ) + " bytes"@,
            ),
        )),
{
}

/// As long as a slot is free no accept is counted as one that had to wait. Where
/// none is, each is, and of a thousand in a row one is warned of, the very first
/// among them.
pub proof fn one_wait_in_a_thousand_is_warned_of(in_use: nat, cap: nat, waited: u64, k: u64)
    requires
        waited + 1000 <= u64::MAX,
        k == (1000 - waited % 1000) % 1000,
    ensures
        in_use < cap ==> found_full(in_use, cap, waited) == (waited, false),
        in_use >= cap ==> found_full(in_use, cap, waited).0 == waited + 1,
        in_use >= cap ==> found_full(in_use, cap, 0).1,
        in_use >= cap ==> forall|i: u64|
            i < 1000 ==> (#[trigger] found_full(in_use, cap, (waited + i) as u64)).1 == (i == k),
{
}

/// The answers to a batch are sent together or not at all: more than 64 MiB of
/// them are refused, though every item was done.
pub proof fn a_batch_of_long_answers_is_refused(s: Served, body: Seq<u8>)
    requires
        wire::parse_batch(body) is Ok,
    ensures
        ({
            let (t, rs) = items_answer(s, wire::parse_batch(body)->Ok_0);
            &&& answer(s, 6, body).0 == t
            &&& wire::batch_bytes(rs).len() > 0x400_0000 ==> answer(s, 6, body).1.0 == 3
            &&& wire::batch_bytes(rs).len() <= 0x400_0000 ==> answer(s, 6, body).1 == (
                0u8,
                wire::batch_bytes(rs),
            )
        }),
{
}

/// Before it has authenticated a peer is held to 4 KiB a frame, after it to
/// 64 MiB: what is longer ends the connection, once everything before it is
/// answered, and what is not is served.
pub proof fn a_peer_is_held_to_a_limit(c: Session, token: Seq<u8>, tag: u8, len: nat, rest: Seq<u8>)
    requires
        len <= u32::MAX,
        c.input == wire::header_bytes(tag, len) + rest,
    ensures
        len > (if c.authed {
            0x400_0000nat
        } else {
            4096nat
        }) ==> serve(c, token).close && serve(c, token).served == c.served,
        c.authed && len <= 0x400_0000 && rest.len() < len ==> serve(c, token) == c,
        !c.authed && len <= 4096 && rest.len() < len ==> serve(c, token) == c,
{
    wire::header_reads_back(tag, len);
    assert(c.input.subrange(1, 5) =~= wire::header_bytes(tag, len).subrange(1, 5));
    assert(c.input.skip(5) =~= rest);
}

/// When to give up on a peer.
pub open spec fn patience(authed: bool, idle: Option<u64>, now: int, auth_deadline: int) -> Option<
    int,
> {
    if authed {
        match idle {
            Some(d) => Some(now + d),
            None => None,
        }
    } else {
        Some(auth_deadline)
    }
}

/// A peer that has not authenticated is given up on at a fixed time, whatever it
/// sends; one that has only after it was idle for so long since the last wait
/// began, or never.
pub proof fn only_the_idle_clock_restarts(idle: Option<u64>, now: int, later: int, auth_deadline: int)
    ensures
        patience(false, idle, now, auth_deadline) == Some(auth_deadline),
        patience(false, idle, now, auth_deadline) == patience(false, idle, later, auth_deadline),
        patience(true, None, now, auth_deadline) is None,
        idle matches Some(d) ==> (patience(true, idle, now, auth_deadline) matches Some(at) && at
            - now == d && patience(true, idle, later, auth_deadline) == Some(at + (later - now))),
{
}

} // verus!
