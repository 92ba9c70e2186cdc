use bytes::{BufMut, Bytes, BytesMut};
use oxicache::cache::Cache;
use oxicache::io::{FrameWriter, INLINE_BODY};
use oxicache::metrics::Metrics;
use oxicache::tcp::{
    ct_eq, deadline, dispatch, ConnLimit, Connection, EmptyToken, Options, DEFAULT_IDLE_TIMEOUT,
    DEFAULT_MAX_CONNECTIONS, LIMIT_WARN_EVERY, MAX_AUTH_FRAME, MAX_FRAME, MAX_RESPONSE,
};
use oxicache::wire::{
    decode_header, decode_replies, encode_header, encode_set, BatchEncoder, Op, Status, HEADER_LEN,
    KEEPALIVE, MAX_ITEMS,
};

fn call(cache: &mut Cache, op: u8, body: Bytes) -> (Status, Bytes) {
    let mut out = FrameWriter::new();
    dispatch(op, &body, cache, &mut Metrics::new(), &mut out);
    let raw = out.take();
    let (status, len) = decode_header(raw[..HEADER_LEN].try_into().unwrap());
    assert_eq!(raw.len(), HEADER_LEN + len);
    (
        Status::from_u8(status).unwrap(),
        Bytes::copy_from_slice(&raw[HEADER_LEN..]),
    )
}

#[test]
fn tcp_dispatch_roundtrip() {
    let mut cache = Cache::new(1 << 20, 2);
    let big = vec![9u8; INLINE_BODY * 2];
    fn set(c: &mut Cache, k: &[u8], v: &[u8]) -> (Status, Bytes) {
        call(c, Op::Put.as_u8(), encode_set(k, v))
    }
    fn get(c: &mut Cache, k: &'static [u8]) -> (Status, Bytes) {
        call(c, Op::Get.as_u8(), Bytes::from_static(k))
    }
    fn del(c: &mut Cache, k: &'static [u8]) -> (Status, Bytes) {
        call(c, Op::Del.as_u8(), Bytes::from_static(k))
    }
    let c = &mut cache;
    assert_eq!(set(c, b"k", b"v"), (Status::Success, Bytes::new()));
    assert_eq!(set(c, b"big", &big), (Status::Success, Bytes::new()));
    assert_eq!(get(c, b"k"), (Status::Success, Bytes::from_static(b"v")));
    assert_eq!(get(c, b"x"), (Status::NotFound, Bytes::new()));
    assert_eq!(get(c, b"big"), (Status::Success, Bytes::from(big.clone())));
    assert_eq!(del(c, b"k"), (Status::Success, Bytes::new()));
    assert_eq!(del(c, b"k"), (Status::NotFound, Bytes::new()));
    assert_eq!(get(c, b"k").0, Status::NotFound);
    // An empty key is a key.
    assert_eq!(set(c, b"", b""), (Status::Success, Bytes::new()));
    assert_eq!(get(c, b""), (Status::Success, Bytes::new()));
}

/// One nested frame per item, in order, each answered as the op would be on its
/// own; a later item sees an earlier one's write.
#[test]
fn batch_answers_every_item_in_order() {
    let mut cache = Cache::new(1 << 20, 1);
    let big = vec![9u8; INLINE_BODY * 2];
    let mut b = BatchEncoder::new();
    b.get(b"k");
    b.set(b"k", b"v");
    b.set(b"big", &big);
    b.get(b"k");
    b.get(b"big");
    b.del(b"k");
    b.del(b"k");
    b.get(b"k");
    let (st, body) = call(&mut cache, Op::Batch.as_u8(), b.finish());
    assert_eq!(st, Status::Success);
    let replies = decode_replies(body).unwrap();
    let expect: [(Status, &[u8]); 8] = [
        (Status::NotFound, b""),
        (Status::Success, b""),
        (Status::Success, b""),
        (Status::Success, b"v"),
        (Status::Success, &big),
        (Status::Success, b""),
        (Status::NotFound, b""),
        (Status::NotFound, b""),
    ];
    assert_eq!(replies.len(), expect.len());
    for (i, ((st, body), (est, eb))) in replies.iter().zip(expect).enumerate() {
        assert_eq!(
            (Status::from_u8(*st).unwrap(), &body[..]),
            (est, eb),
            "item {i}"
        );
    }
    let (st, body) = call(&mut cache, Op::Batch.as_u8(), BatchEncoder::new().finish());
    assert_eq!(st, Status::Success);
    assert!(decode_replies(body).unwrap().is_empty());
}

/// A refused item does not take its neighbours down with it: the SET that fits
/// is stored, the one that does not answers TooLarge, a malformed item is
/// BadRequest, an op that is not GET/SET/DEL is UnknownOp.
#[test]
fn batch_items_fail_individually() {
    let mut cache = Cache::new(1 << 20, 1);
    let big = vec![0u8; 1 << 20];
    let mut raw = BytesMut::new();
    raw.put_u32_le(5);
    for (op, body) in [
        (Op::Put.as_u8(), encode_set(b"small", b"v")),
        (Op::Put.as_u8(), encode_set(b"big", &big)),
        (Op::Put.as_u8(), encode_set(b"after", b"w")),
        (Op::Put.as_u8(), Bytes::from_static(&[9, 0, 0, 0, 1])),
        (Op::Ping.as_u8(), Bytes::new()),
    ] {
        raw.put_slice(&encode_header(op, body.len()));
        raw.put_slice(&body);
    }
    let (st, body) = call(&mut cache, Op::Batch.as_u8(), raw.freeze());
    assert_eq!(st, Status::Success);
    let replies = decode_replies(body).unwrap();
    let statuses: Vec<_> = replies
        .iter()
        .map(|(s, _)| Status::from_u8(*s).unwrap())
        .collect();
    assert_eq!(
        statuses,
        [
            Status::Success,
            Status::TooLarge,
            Status::Success,
            Status::BadRequest,
            Status::UnknownOp
        ]
    );
    assert!(std::str::from_utf8(&replies[4].1)
        .unwrap()
        .contains("not allowed in a batch"));
    assert!(cache.get(b"small").is_some());
    assert!(cache.get(b"big").is_none());
    assert!(cache.get(b"after").is_some());
}

#[test]
fn dispatch_ping_is_ok_and_ignores_its_body() {
    let mut cache = Cache::new(1 << 20, 1);
    assert_eq!(
        call(&mut cache, Op::Ping.as_u8(), Bytes::new()),
        (Status::Success, Bytes::new())
    );
    assert_eq!(
        call(
            &mut cache,
            Op::Ping.as_u8(),
            Bytes::from_static(b"anything")
        ),
        (Status::Success, Bytes::new())
    );
}

#[test]
fn tcp_dispatch_errors() {
    let mut cache = Cache::new(1 << 20, 1);
    assert_eq!(call(&mut cache, 42, Bytes::new()).0, Status::UnknownOp);
    // A SET whose key length runs past the body.
    assert_eq!(
        call(
            &mut cache,
            Op::Put.as_u8(),
            Bytes::from_static(&[9, 0, 0, 0, 1])
        )
        .0,
        Status::BadRequest
    );
    // A batch envelope that ends mid-item is refused whole.
    assert_eq!(
        call(
            &mut cache,
            Op::Batch.as_u8(),
            Bytes::from_static(&[1, 0, 0, 0, 1, 0])
        )
        .0,
        Status::BadRequest
    );
    // A count beyond the item limit is rejected before any work is done.
    let mut huge = Vec::new();
    huge.extend_from_slice(&((MAX_ITEMS + 1) as u32).to_le_bytes());
    huge.resize(4 + HEADER_LEN * (MAX_ITEMS + 1), 0);
    let (st, msg) = call(&mut cache, Op::Batch.as_u8(), Bytes::from(huge));
    assert_eq!(st, Status::BadRequest);
    assert!(std::str::from_utf8(&msg)
        .unwrap()
        .contains("exceeds the limit"));
}

#[test]
fn oversized_set_is_refused() {
    let mut cache = Cache::new(1 << 20, 1);
    let big = vec![0u8; 1 << 20];
    let (st, _) = call(&mut cache, Op::Put.as_u8(), encode_set(b"big", &big));
    assert_eq!(st, Status::TooLarge);
    assert!(cache.get(b"big").is_none());
}

#[test]
fn oversized_response_is_refused() {
    let mut cache = Cache::new(256 << 20, 1);
    let v = vec![0u8; MAX_RESPONSE / 2];
    cache.set(b"a", &v).unwrap();
    cache.set(b"b", &v).unwrap();
    let mut b = BatchEncoder::new();
    b.get(b"a");
    b.get(b"b");
    let (st, _) = call(&mut cache, Op::Batch.as_u8(), b.finish());
    assert_eq!(st, Status::TooLarge);
}

/// A value over the response limit is refused in a batch as it is alone, and
/// its neighbours are still answered.
#[test]
fn an_oversized_value_is_refused_by_itself() {
    let mut cache = Cache::new(256 << 20, 1);
    cache.set(b"a", &vec![0u8; MAX_RESPONSE + 1]).unwrap();
    cache.set(b"b", b"small").unwrap();
    let alone = call(&mut cache, Op::Get.as_u8(), Bytes::from_static(b"a"));
    assert_eq!(alone.0, Status::TooLarge);
    let mut b = BatchEncoder::new();
    b.get(b"a");
    b.get(b"b");
    let (st, body) = call(&mut cache, Op::Batch.as_u8(), b.finish());
    assert_eq!(st, Status::Success);
    let replies = decode_replies(body).unwrap();
    assert_eq!(replies[0], (Status::TooLarge.as_u8(), alone.1));
    assert_eq!(
        replies[1],
        (Status::Success.as_u8(), Bytes::from_static(b"small"))
    );
}

fn frame(op: Op, body: &[u8]) -> Vec<u8> {
    let mut b = encode_header(op.as_u8(), body.len()).to_vec();
    b.extend_from_slice(body);
    b
}

/// What a connection answers to `input`, and whether it closes.
fn converse(input: &[u8], cache: &mut Cache, m: &mut Metrics) -> (Vec<(Status, Vec<u8>)>, bool) {
    let mut conn = Connection::new();
    conn.prepare().put_slice(input);
    let close = conn.serve_buffered(b"t", cache, m);
    let raw = conn.output().take();
    let mut rest = &raw[..];
    let mut out = Vec::new();
    while !rest.is_empty() {
        let (status, len) = decode_header(rest[..HEADER_LEN].try_into().unwrap());
        out.push((
            Status::from_u8(status).unwrap(),
            rest[HEADER_LEN..HEADER_LEN + len].to_vec(),
        ));
        rest = &rest[HEADER_LEN + len..];
    }
    (out, close)
}

/// A refused token is counted, and the connection closes.
#[test]
fn a_wrong_token_is_counted_and_closes() {
    let (mut cache, mut m) = (Cache::new(1 << 20, 1), Metrics::new());
    let (out, close) = converse(&frame(Op::Auth, b"wrong"), &mut cache, &mut m);
    assert_eq!(
        out,
        vec![(Status::Unauthorized, b"auth required".to_vec())]
    );
    assert!(close);
    assert_eq!(m.auth_failures, 1);
}

/// PING is an op like any other: before AUTH it is refused.
#[test]
fn nothing_is_answered_before_the_token() {
    let (mut cache, mut m) = (Cache::new(1 << 20, 1), Metrics::new());
    let mut input = frame(Op::Ping, b"");
    input.extend(frame(Op::Auth, b"t"));
    let (out, close) = converse(&input, &mut cache, &mut m);
    assert_eq!(
        out,
        vec![(Status::Unauthorized, b"auth required".to_vec())]
    );
    assert!(close);
}

#[test]
fn requests_after_the_token_are_answered_in_order() {
    let (mut cache, mut m) = (Cache::new(1 << 20, 1), Metrics::new());
    let mut input = frame(Op::Auth, b"t");
    input.extend(frame(Op::Get, b"k"));
    input.extend(frame(Op::Put, &encode_set(b"k", b"v")));
    input.extend(frame(Op::Get, b"k"));
    input.extend(&encode_header(Op::Get.as_u8(), 5));
    let (out, close) = converse(&input, &mut cache, &mut m);
    assert!(!close);
    assert_eq!(
        out,
        vec![
            (Status::Success, vec![]),
            (Status::NotFound, vec![]),
            (Status::Success, vec![]),
            (Status::Success, b"v".to_vec()),
        ]
    );
    assert_eq!(m.auth_failures, 0);
}

#[test]
fn frames_over_the_limit_are_refused_and_close() {
    let (mut cache, mut m) = (Cache::new(1 << 20, 1), Metrics::new());
    let mut input = frame(Op::Auth, b"t");
    input.extend(&encode_header(Op::Get.as_u8(), MAX_FRAME + 1));
    let (out, close) = converse(&input, &mut cache, &mut m);
    assert!(close);
    assert_eq!(out[1].0, Status::TooLarge);
    // Before the token the limit is small.
    let input = encode_header(Op::Auth.as_u8(), MAX_AUTH_FRAME + 1);
    let (out, close) = converse(&input, &mut cache, &mut m);
    assert!(close);
    assert_eq!(
        out,
        vec![(
            Status::TooLarge,
            b"frame body of 4097 bytes exceeds the limit".to_vec()
        )]
    );
}

#[test]
fn a_refused_write_is_counted() {
    let (mut cache, mut m) = (Cache::new(1 << 10, 1), Metrics::new());
    let mut out = FrameWriter::new();
    let body = encode_set(b"k", &[0; 1 << 10]);
    dispatch(Op::Put.as_u8(), &body, &mut cache, &mut m, &mut out);
    assert_eq!(m.set_too_large, 1);
}

#[test]
fn the_connection_limit_is_kept_and_waits_are_counted() {
    let mut l = ConnLimit::new(2);
    assert_eq!((l.max(), l.open(), l.waits()), (2, 0, 0));
    l.opened();
    l.opened();
    assert_eq!(l.open(), 2);
    assert!(l.blocked(), "the first wait is worth a warning");
    for _ in 1..LIMIT_WARN_EVERY {
        assert!(!l.blocked());
    }
    assert!(l.blocked());
    assert_eq!(l.waits(), LIMIT_WARN_EVERY + 1);
    l.closed();
    assert_eq!(l.open(), 1);
}

#[test]
fn options_have_defaults_and_need_a_token() {
    let o = Options::new(b"t".to_vec());
    assert_eq!(o.idle_timeout, Some(DEFAULT_IDLE_TIMEOUT));
    assert_eq!(o.max_connections, Some(DEFAULT_MAX_CONNECTIONS));
    assert_eq!(o.token(), Ok(&b"t"[..]));
    let o = o.idle_timeout(None).max_connections(Some(3));
    assert_eq!((o.idle_timeout, o.max_connections), (None, Some(3)));
    assert_eq!(Options::new(Vec::new()).token(), Err(EmptyToken));
    assert!(ct_eq(b"same", b"same"));
    assert!(!ct_eq(b"same", b"sane"));
    assert!(!ct_eq(b"same", b"sam"));
}

#[test]
fn three_heartbeats_fit_in_the_idle_timeout() {
    assert_eq!(DEFAULT_IDLE_TIMEOUT, 3 * KEEPALIVE);
    assert_eq!(MAX_FRAME, 64 << 20);
}

#[test]
fn the_deadline_is_fixed_until_the_token() {
    assert_eq!(deadline(false, Some(5000), 100, 30_000), Some(30_000));
    assert_eq!(deadline(true, Some(5000), 100, 30_000), Some(5100));
    assert_eq!(deadline(true, None, 100, 30_000), None);
}
