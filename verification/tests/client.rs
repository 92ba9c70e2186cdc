use bytes::{BufMut, Bytes, BytesMut};
use oxicache::client::batch::{Batch, Outcome, Reply};
use oxicache::client::error::{answer, refused, Error};
use oxicache::client::link::{
    authenticated, Backoff, Call, Failed, Fatal, Link, Lost, Setback, Settled, Supervisor,
    BACKOFF_MAX, BACKOFF_MIN,
};
use oxicache::client::pipe::{Next, Replies, Requests, INLINE_REQUEST, YIELD_BELOW};
use oxicache::wire::{encode_header, encode_set, DecodeError, Op, Status, MAX_FRAME, MAX_ITEMS};
use std::io::ErrorKind;

fn io() -> Error {
    Error::Io {
        kind: ErrorKind::ConnectionRefused,
        message: "refused".to_string(),
    }
}

fn status(status: Status, message: &str) -> Error {
    Error::Status {
        status,
        message: message.to_string(),
    }
}

#[test]
fn errors_say_what_went_wrong() {
    for (e, text) in [
        (io(), "io: refused"),
        (Error::Closed, "connection closed"),
        (
            status(Status::Unauthorized, "auth required"),
            "server returned Unauthorized: auth required",
        ),
        (status(Status::Success, "?"), "server returned Ok: ?"),
        (Error::InvalidStatus(9), "invalid status byte 9"),
        (
            Error::Decode(DecodeError::Trailing(2)),
            "decode: trailing 2 bytes after frame",
        ),
        (
            Error::ResponseTooLarge(70_000_000),
            "response of 70000000 bytes exceeds the client limit of 67108864",
        ),
        (Error::Serialize("no".to_string()), "serialize: no"),
        (Error::Deserialize("no".to_string()), "deserialize: no"),
        (
            Error::Count {
                expected: 3,
                got: 2,
            },
            "server answered 2 items for a batch of 3",
        ),
        (
            Error::TooManyItems(65537),
            "65537 items in one batch exceeds the limit of 65536",
        ),
        (
            Error::Pem {
                path: "ca.pem".to_string(),
                message: "missing".to_string(),
            },
            "reading ca.pem: missing",
        ),
        (Error::Tls("bad".to_string()), "tls: bad"),
    ] {
        assert_eq!(e.to_string(), text);
    }
}

#[test]
fn a_status_is_an_answer_or_the_error_it_means() {
    let body = Bytes::from_static(b"body");
    assert!(matches!(answer(0, body.clone()), Ok((Status::Success, b)) if b == body));
    assert!(matches!(answer(5, body.clone()), Ok((Status::NotFound, b)) if b == body));
    assert!(matches!(
        answer(3, body.clone()),
        Err(Error::Status { status: Status::TooLarge, message }) if message == "body"
    ));
    assert!(matches!(answer(6, body), Err(Error::InvalidStatus(6))));
    let bad = Bytes::from_static(&[b'a', 0xff, b'b']);
    assert!(matches!(
        refused(Status::BadRequest, &bad),
        Error::Status { message, .. } if message == "a\u{fffd}b"
    ));
}

#[test]
fn a_refused_token_and_a_strange_status_are_fatal() {
    assert!(matches!(
        Failed::of(status(Status::Unauthorized, "no")),
        Failed::Fatal(Fatal::Unauthorized(m)) if m == "no"
    ));
    assert!(matches!(
        Failed::of(Error::InvalidStatus(9)),
        Failed::Fatal(Fatal::InvalidStatus(9))
    ));
    assert!(matches!(
        Failed::of(io()),
        Failed::Setback(Setback::Io(ErrorKind::ConnectionRefused, m)) if m == "refused"
    ));
    assert!(matches!(
        Failed::of(status(Status::BadRequest, "x")),
        Failed::Setback(Setback::Status(Status::BadRequest, _))
    ));
    assert!(matches!(
        Failed::of(Error::ResponseTooLarge(9)),
        Failed::Setback(Setback::ResponseTooLarge(9))
    ));
    assert!(matches!(
        Failed::of(Error::TooManyItems(1)),
        Failed::Setback(Setback::Closed)
    ));
    for e in [io(), Error::Closed, Error::ResponseTooLarge(1)] {
        let text = e.to_string();
        assert_eq!(Failed::of(e).error().to_string(), text);
    }
}

#[test]
fn the_answer_to_auth_opens_the_connection_or_not() {
    let ok = || Ok((Status::Success, Bytes::new()));
    assert!(authenticated(ok(), None).is_ok());
    assert!(matches!(
        authenticated(Err(Error::Closed), None),
        Err(Failed::Setback(Setback::Closed))
    ));
    assert!(matches!(
        authenticated(Err(Error::Closed), Some(Lost::Transient)),
        Err(Failed::Setback(Setback::Closed))
    ));
    // Hung up because the stream was desynchronised: as final as a refused
    // token.
    assert!(matches!(
        authenticated(Err(Error::Closed), Some(Lost::Fatal(Fatal::Desync))),
        Err(Failed::Fatal(Fatal::Desync))
    ));
    assert!(matches!(
        authenticated(Err(status(Status::Unauthorized, "no")), None),
        Err(Failed::Fatal(Fatal::Unauthorized(_)))
    ));
}

#[test]
fn waits_grow_from_the_least_to_the_longest() {
    let mut b = Backoff::fresh(1000);
    assert_eq!((b.delay, b.not_before), (BACKOFF_MIN, 1000));
    let mut waits = Vec::new();
    for _ in 0..8 {
        b.failed(Setback::Closed, 1000);
        waits.push(b.not_before - 1000);
    }
    assert_eq!(waits, [100, 200, 400, 800, 1600, 3200, 5000, 5000]);
    assert_eq!(b.delay, BACKOFF_MAX);
}

#[test]
fn a_lost_connection_is_opened_by_the_next_call() {
    let mut s = Supervisor::connected(1, 0);
    assert!(matches!(s.current(false), Ok(Some(1))));
    // Its end is known: not worth a call.
    assert!(matches!(s.current(true), Ok(None)));
    assert!(matches!(
        s.settle(Some(Lost::Transient), None, 0),
        Settled::Connect(0)
    ));
    assert!(matches!(s.link, Link::Down));
    assert_eq!(s.opened(Ok(2), 50).unwrap(), 2);
    assert!(matches!(s.current(false), Ok(Some(2))));
    assert_eq!(s.reconnects, 1);
    // A caller that was on the first one uses the second.
    assert!(matches!(s.settle(None, Some(1), 0), Settled::Use(2)));
    // One that was on the second, which nobody has given up yet, replaces it.
    assert!(matches!(s.settle(None, Some(2), 1), Settled::Connect(50)));
}

#[test]
fn callers_that_waited_share_one_failed_attempt() {
    let mut s = Supervisor::lazy(0);
    let seen = s.attempts;
    assert!(matches!(s.settle(None, None, seen), Settled::Connect(0)));
    let e = s.opened(Err(Failed::of(io())), 10).unwrap_err();
    assert_eq!(e.to_string(), "io: refused");
    // Queued while that attempt ran.
    assert!(matches!(
        s.settle(None, None, seen),
        Settled::Fail(Error::Io { kind: ErrorKind::ConnectionRefused, message })
            if message == "refused"
    ));
    // A call that comes later makes the next attempt, after the wait.
    assert!(matches!(
        s.settle(None, None, s.attempts),
        Settled::Connect(110)
    ));
}

#[test]
fn a_dead_client_fails_every_call() {
    let mut s = Supervisor::lazy(0);
    let refused = Failed::of(status(Status::Unauthorized, "auth required"));
    assert!(s.opened(Err(refused), 0).is_err());
    for _ in 0..3 {
        assert_eq!(
            s.current(false).unwrap_err().to_string(),
            "server returned Unauthorized: auth required"
        );
        assert!(matches!(
            s.settle(None, None, s.attempts),
            Settled::Fail(Error::Status {
                status: Status::Unauthorized,
                ..
            })
        ));
    }
    let mut s = Supervisor::connected(1, 0);
    assert!(matches!(
        s.settle(Some(Lost::Fatal(Fatal::InvalidStatus(9))), Some(1), 0),
        Settled::Fail(Error::InvalidStatus(9))
    ));
    assert!(matches!(s.current(false), Err(Error::InvalidStatus(9))));
}

#[test]
fn a_request_is_issued_at_most_twice() {
    let mut call = Call::new();
    assert!(!call.again(&Ok((Status::Success, Bytes::new()))));
    assert!(!call.again(&Err(io())));
    assert!(call.again(&Err(Error::Closed)));
    assert!(!call.again(&Err(Error::Closed)));
}

fn reply(tag: u8, body: &[u8]) -> Vec<u8> {
    let mut b = encode_header(tag, body.len()).to_vec();
    b.extend_from_slice(body);
    b
}

#[test]
fn responses_are_handed_out_in_order() {
    let mut r = Replies::new();
    let mut input = reply(0, b"one");
    input.extend(reply(5, b""));
    input.extend(reply(3, b"too large"));
    input.extend(&reply(0, b"cut")[..6]);
    r.prepare().put_slice(&input);
    assert!(matches!(r.next(true), Next::Reply(Ok((Status::Success, b))) if &b[..] == b"one"));
    assert!(matches!(
        r.next(true),
        Next::Reply(Ok((Status::NotFound, _)))
    ));
    assert!(matches!(
        r.next(true),
        Next::Reply(Err(Error::Status { status: Status::TooLarge, message }))
            if message == "too large"
    ));
    assert!(matches!(r.next(true), Next::More));
    r.prepare().put_slice(b"ut");
    assert!(matches!(r.next(true), Next::Reply(Ok((_, b))) if &b[..] == b"cut"));
    assert!(matches!(r.next(false), Next::More));
}

#[test]
fn what_the_protocol_does_not_have_ends_the_connection() {
    let mut r = Replies::new();
    r.prepare().put_slice(&reply(0, b"nobody asked"));
    assert!(matches!(
        r.next(false),
        Next::Stop(Lost::Fatal(Fatal::Desync))
    ));
    let mut r = Replies::new();
    r.prepare().put_slice(&reply(77, b""));
    assert!(matches!(
        r.next(true),
        Next::Last(
            Err(Error::InvalidStatus(77)),
            Lost::Fatal(Fatal::InvalidStatus(77))
        )
    ));
    let mut r = Replies::new();
    r.prepare().put_slice(&encode_header(0, MAX_FRAME + 1));
    assert!(matches!(
        r.next(true),
        Next::Last(Err(Error::ResponseTooLarge(n)), Lost::Transient) if n == MAX_FRAME + 1
    ));
    assert!(matches!(r.next(false), Next::Stop(Lost::Transient)));
}

#[test]
fn requests_go_out_in_the_order_they_are_queued() {
    let mut q = Requests::new();
    q.queue(Op::Get, Bytes::from_static(b"k"));
    assert!(q.wait_for_more(), "small: worth a turn");
    assert!(!q.wait_for_more(), "but only one");
    q.queue(Op::Put, encode_set(b"k", b"v"));
    q.ping();
    let out = q.output().take();
    let mut expect = reply(1, b"k");
    expect.extend(reply(2, &encode_set(b"k", b"v")));
    expect.extend(reply(5, b""));
    assert_eq!(out, expect);
    // The next flush starts afresh, and a large one does not wait.
    q.queue(Op::Get, Bytes::from(vec![0; YIELD_BELOW - 1]));
    assert!(q.wait_for_more());
    assert_eq!(q.output().take().len(), 5 + YIELD_BELOW - 1);
    q.queue(Op::Get, Bytes::from(vec![0; YIELD_BELOW]));
    assert!(!q.wait_for_more());
}

fn replies(items: &[(Status, &[u8])]) -> Bytes {
    let mut b = BytesMut::new();
    b.put_u32_le(items.len() as u32);
    for (status, body) in items {
        b.put_slice(&encode_header(status.as_u8(), body.len()));
        b.put_slice(body);
    }
    b.freeze()
}

#[test]
fn slots_read_their_own_answers() {
    let mut b = Batch::new();
    assert!(b.is_empty());
    let hit = b.get(b"a");
    let miss = b.get(b"b");
    let put = b
        .set_with(b"c", |out: &mut BytesMut| {
            out.put_slice(b"value");
            Ok::<(), ()>(())
        })
        .unwrap();
    assert!(b
        .set_with(b"bad", |_: &mut BytesMut| Err::<(), _>("no"))
        .is_err());
    let gone = b.del(b"d");
    let kept = b.del(b"e");
    assert_eq!(b.len(), 5);
    let n = b.len();
    let body = b.finish().unwrap();
    assert_eq!(&body[..4], &[5, 0, 0, 0]);
    let out = Outcome::of(
        replies(&[
            (Status::Success, b"A"),
            (Status::NotFound, b""),
            (Status::TooLarge, b"no room"),
            (Status::Success, b""),
            (Status::NotFound, b""),
        ]),
        n,
    )
    .unwrap();
    assert_eq!(out.len(), 5);
    assert!(!out.is_empty());
    assert_eq!(out.get(hit).unwrap(), Some(Bytes::from_static(b"A")));
    assert_eq!(out.get(miss).unwrap(), None);
    // One refused item does not hide the others.
    assert_eq!(
        out.get(put).unwrap_err().to_string(),
        "server returned TooLarge: no room"
    );
    assert!(out.get(gone).unwrap());
    assert!(!out.get(kept).unwrap());
    assert_eq!(out.status(1), Some(Status::NotFound));
    assert_eq!(out.status(5), None);
}

#[test]
fn an_outcome_that_does_not_fit_the_batch_is_an_error() {
    let two = replies(&[(Status::Success, b""), (Status::Success, b"")]);
    assert!(matches!(
        Outcome::of(two, 3),
        Err(Error::Count {
            expected: 3,
            got: 2
        })
    ));
    assert!(matches!(
        Outcome::of(Bytes::from_static(&[1, 0]), 1),
        Err(Error::Decode(DecodeError::Truncated { needed: 2 }))
    ));
    assert_eq!(Outcome::of(replies(&[]), 0).unwrap().len(), 0);
    let mut b = BytesMut::new();
    b.put_u32_le(1);
    b.put_slice(&encode_header(200, 0));
    let out = Outcome::of(b.freeze(), 1).unwrap();
    let slot = Batch::new().get(b"k");
    assert!(matches!(out.get(slot), Err(Error::InvalidStatus(200))));
    assert_eq!(out.status(0), None);
}

#[test]
fn too_many_items_are_refused_before_they_are_sent() {
    let mut b = Batch::with_capacity(1 << 10);
    for _ in 0..=MAX_ITEMS {
        b.get(b"");
    }
    assert!(matches!(b.finish(), Err(Error::TooManyItems(n)) if n == MAX_ITEMS + 1));
}

#[test]
fn an_op_answers_with_its_own_type() {
    let body = || Bytes::from_static(b"x");
    assert_eq!(
        Option::<Bytes>::reply(Status::Success, body()).unwrap(),
        Some(body())
    );
    assert_eq!(
        Option::<Bytes>::reply(Status::NotFound, body()).unwrap(),
        None
    );
    assert!(Option::<Bytes>::reply(Status::BadRequest, body()).is_err());
    assert!(<()>::reply(Status::Success, body()).is_ok());
    assert!(<()>::reply(Status::NotFound, body()).is_err());
    assert!(bool::reply(Status::Success, body()).unwrap());
    assert!(!bool::reply(Status::NotFound, body()).unwrap());
    assert!(bool::reply(Status::Unauthorized, body()).is_err());
}

#[test]
fn long_request_bodies_are_not_copied() {
    let mut q = Requests::new();
    q.queue(Op::Get, Bytes::from(vec![1; INLINE_REQUEST - 1]));
    assert_eq!(q.output().spilled(), 0, "a short body is copied");
    q.queue(Op::Get, Bytes::from(vec![2; INLINE_REQUEST]));
    assert_eq!(q.output().spilled(), 2, "what was copied, and the body behind it");
}
