use bytes::{BufMut, Bytes, BytesMut};
use oxicache::cache::Cache;
use oxicache::client::batch::{Batch, Outcome, Reply};
use oxicache::client::error::Error;
use oxicache::client::pipe::{Next, Replies, Requests};
use oxicache::metrics::Metrics;
use oxicache::tcp::Connection;
use oxicache::wire::{encode_set, Op, Status};

/// What each request is answered, over one connection with the right token.
fn exchange(
    cache: &mut Cache,
    requests: Vec<(Op, Bytes)>,
) -> Vec<Result<(Status, Bytes), Error>> {
    let mut out = Requests::new();
    out.queue(Op::Auth, Bytes::from_static(b"t"));
    let n = requests.len() + 1;
    for (op, body) in requests {
        out.queue(op, body);
    }
    let mut conn = Connection::new();
    conn.prepare().put_slice(&out.output().take());
    assert!(!conn.serve_buffered(b"t", cache, &mut Metrics::new()));
    let mut replies = Replies::new();
    replies.prepare().put_slice(&conn.output().take());
    let mut answers = Vec::new();
    for _ in 0..n {
        match replies.next(true) {
            Next::Reply(a) => answers.push(a),
            other => panic!("{other:?}"),
        }
    }
    assert!(matches!(replies.next(false), Next::More));
    assert!(answers.remove(0).is_ok(), "the token is accepted");
    answers
}

#[test]
fn what_is_stored_is_read() {
    let mut cache = Cache::new(1 << 20, 2);
    let a = exchange(
        &mut cache,
        vec![
            (Op::Put, encode_set(b"k", b"value")),
            (Op::Get, Bytes::from_static(b"k")),
            (Op::Del, Bytes::from_static(b"k")),
            (Op::Get, Bytes::from_static(b"k")),
            (Op::Put, encode_set(b"k", &vec![0; 1 << 20])),
        ],
    );
    assert!(matches!(&a[0], Ok((Status::Success, b)) if b.is_empty()));
    assert!(matches!(&a[1], Ok((Status::Success, b)) if &b[..] == b"value"));
    assert!(matches!(&a[2], Ok((Status::Success, _))));
    assert!(matches!(&a[3], Ok((Status::NotFound, _))));
    assert!(matches!(
        &a[4],
        Err(Error::Status {
            status: Status::TooLarge,
            ..
        })
    ));
}

#[test]
fn a_batch_answers_every_item() {
    let mut cache = Cache::new(1 << 20, 2);
    let mut b = Batch::new();
    let put = b
        .set_with(b"k", |out: &mut BytesMut| {
            out.put_slice(b"value");
            Ok::<(), ()>(())
        })
        .unwrap();
    let hit = b.get(b"k");
    let miss = b.get(b"x");
    let gone = b.del(b"k");
    let n = b.len();
    let mut a = exchange(&mut cache, vec![(Op::Batch, b.finish().unwrap())]);
    let (status, body) = a.remove(0).unwrap();
    assert_eq!(status, Status::Success);
    let out = Outcome::of(body, n).unwrap();
    out.get(put).unwrap();
    assert_eq!(out.get(hit).unwrap(), Some(Bytes::from_static(b"value")));
    assert_eq!(out.get(miss).unwrap(), None);
    assert!(out.get(gone).unwrap());
    // Alone, the same get is answered the same.
    let mut a = exchange(&mut cache, vec![(Op::Get, Bytes::from_static(b"k"))]);
    let (status, body) = a.remove(0).unwrap();
    assert_eq!(Option::<Bytes>::reply(status, body).unwrap(), None);
}
