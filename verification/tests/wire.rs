use bytes::{BufMut, Bytes, BytesMut};
use oxicache::wire::{
    body_len, decode_header, decode_replies, encode_header, encode_set, frames, put_set,
    put_set_key, set_body, set_size, BatchEncoder, DecodeError, Op, Status, HEADER_LEN, KEEPALIVE,
    MAX_FRAME, MAX_ITEMS, U32,
};

fn items(body: &[u8]) -> Vec<(u8, Vec<u8>)> {
    let mut frames = frames(body).unwrap();
    let mut out = Vec::new();
    while let Some((tag, body)) = frames.next() {
        out.push((tag, body.to_vec()));
    }
    out
}

#[test]
fn header_roundtrip() {
    let h = encode_header(Op::Batch.as_u8(), 0x01020304);
    assert_eq!(decode_header(&h), (6, 0x01020304));
}

#[test]
fn set_body_roundtrip() {
    let b = encode_set(b"key", b"value bytes");
    assert_eq!(b.len(), set_size(b"key", b"value bytes"));
    assert_eq!(set_body(&b).unwrap(), (&b"key"[..], &b"value bytes"[..]));
    assert_eq!(
        set_body(&encode_set(b"", b"")).unwrap(),
        (&b""[..], &b""[..])
    );
    assert!(matches!(
        set_body(&[1, 0]),
        Err(DecodeError::Truncated { needed: 2 })
    ));
    assert!(matches!(
        set_body(&[9, 0, 0, 0, 1]),
        Err(DecodeError::Truncated { needed: 8 })
    ));
}

#[test]
fn batch_roundtrip() {
    let mut b = BatchEncoder::new();
    assert!(b.is_empty());
    b.get(b"a");
    b.set(b"k", b"v");
    b.del(b"");
    assert_eq!(b.len(), 3);
    let body = b.finish();
    assert_eq!(
        items(&body),
        vec![
            (Op::Get.as_u8(), b"a".to_vec()),
            (Op::Put.as_u8(), encode_set(b"k", b"v").to_vec()),
            (Op::Del.as_u8(), b"".to_vec()),
        ]
    );
    assert_eq!(frames(&BatchEncoder::new().finish()).unwrap().len(), 0);
}

#[test]
fn push_re_emits_a_parsed_item() {
    let mut src = BatchEncoder::new();
    src.get(b"a");
    src.set(b"k", b"v");
    src.del(b"z");
    let body = src.finish();
    // Split the items over two encoders and read them back.
    let (mut even, mut odd) = (BatchEncoder::new(), BatchEncoder::new());
    let mut parsed = frames(&body).unwrap();
    let mut i = 0;
    while let Some((op, item)) = parsed.next() {
        if i % 2 == 0 {
            even.push(op, item)
        } else {
            odd.push(op, item)
        }
        i += 1;
    }
    assert_eq!((even.len(), odd.len()), (2, 1));
    assert_eq!(
        items(&even.finish()),
        vec![
            (Op::Get.as_u8(), b"a".to_vec()),
            (Op::Del.as_u8(), b"z".to_vec())
        ]
    );
    assert_eq!(
        items(&odd.finish()),
        vec![(Op::Put.as_u8(), encode_set(b"k", b"v").to_vec())]
    );
}

#[test]
fn set_with_writes_in_place() {
    let mut b = BatchEncoder::new();
    b.get(b"a");
    b.set_with(b"k", |out: &mut BytesMut| {
        out.put_slice(b"value");
        Ok::<_, ()>(())
    })
    .unwrap();
    assert_eq!(b.len(), 2);
    // A failed item leaves no trace.
    assert_eq!(b.set_with(b"bad", |_: &mut BytesMut| Err("no")), Err("no"));
    assert_eq!(b.len(), 2);
    b.del(b"z");
    let body = b.finish();
    assert_eq!(
        items(&body),
        vec![
            (Op::Get.as_u8(), b"a".to_vec()),
            (Op::Put.as_u8(), encode_set(b"k", b"value").to_vec()),
            (Op::Del.as_u8(), b"z".to_vec()),
        ]
    );
}

#[test]
fn replies_share_the_buffer() {
    let mut out = BytesMut::new();
    out.put_u32_le(2);
    out.put_slice(&encode_header(Status::Success.as_u8(), 3));
    out.put_slice(b"abc");
    out.put_slice(&encode_header(Status::NotFound.as_u8(), 0));
    let body = out.freeze();
    let r = decode_replies(body.clone()).unwrap();
    assert_eq!(r.len(), 2);
    assert_eq!(r[0].0, 0);
    assert_eq!(&r[0].1[..], b"abc");
    assert_eq!(r[0].1.as_ptr(), body[9..].as_ptr(), "no copy");
    assert_eq!(r[1], (5, Bytes::new()));
}

#[test]
fn rejects_malformed() {
    assert!(matches!(
        frames(&[1, 0]),
        Err(DecodeError::Truncated { .. })
    ));
    // One item announced, only part of its header present.
    assert!(matches!(
        frames(&[1, 0, 0, 0, 1, 0]),
        Err(DecodeError::Truncated { needed: 3 })
    ));
    // Item claims 100 bytes, has none.
    assert!(matches!(
        frames(&[1, 0, 0, 0, 1, 100, 0, 0, 0]),
        Err(DecodeError::Truncated { needed: 100 })
    ));
    assert!(matches!(
        frames(&[0, 0, 0, 0, 9]),
        Err(DecodeError::Trailing(1))
    ));
    let mut too_many = ((MAX_ITEMS + 1) as u32).to_le_bytes().to_vec();
    too_many.resize(U32 + HEADER_LEN * (MAX_ITEMS + 1), 0);
    assert_eq!(
        frames(&too_many).unwrap_err(),
        DecodeError::TooMany(MAX_ITEMS + 1)
    );
    assert_eq!(
        DecodeError::TooMany(70000).to_string(),
        "70000 items in one batch exceeds the limit of 65536"
    );
}

#[test]
fn unknown_status_byte() {
    assert_eq!(Status::from_u8(5), Some(Status::NotFound));
    assert_eq!(Status::from_u8(6), None);
    assert_eq!(Op::from_u8(6), Some(Op::Batch));
    assert_eq!(Op::from_u8(7), None);
}

#[test]
fn every_tag_reads_back() {
    let ops = [Op::Get, Op::Put, Op::Del, Op::Auth, Op::Ping, Op::Batch];
    for (i, op) in ops.into_iter().enumerate() {
        assert_eq!(op.as_u8(), i as u8 + 1);
        assert_eq!(Op::from_u8(op.as_u8()), Some(op));
    }
    assert_eq!(Op::from_u8(0), None);
    let statuses = [
        Status::Success,
        Status::BadRequest,
        Status::UnknownOp,
        Status::TooLarge,
        Status::Unauthorized,
        Status::NotFound,
    ];
    for (i, status) in statuses.into_iter().enumerate() {
        assert_eq!(status.as_u8(), i as u8);
        assert_eq!(Status::from_u8(status.as_u8()), Some(status));
    }
}

#[test]
fn numbers_are_little_endian() {
    assert_eq!(encode_header(1, 0x01020304), [1, 4, 3, 2, 1]);
    assert_eq!(body_len(&[9, 4, 3, 2, 1]), 0x01020304);
    assert_eq!(&encode_set(b"k", b"vv")[..], &[1, 0, 0, 0, b'k', b'v', b'v']);
    assert_eq!(MAX_FRAME, 64 << 20);
    assert_eq!(KEEPALIVE, 100);
}

#[test]
fn a_set_body_is_appended() {
    let mut out = BytesMut::new();
    out.put_slice(b"..");
    put_set(&mut out, b"key", b"value");
    put_set_key(&mut out, b"key");
    assert_eq!(&out[..], b"..\x03\0\0\0keyvalue\x03\0\0\0key");
}

#[test]
fn decode_errors_say_what_is_wrong() {
    assert_eq!(
        DecodeError::Truncated { needed: 3 }.to_string(),
        "unexpected end of frame: needed 3 more bytes"
    );
    assert_eq!(
        DecodeError::Trailing(1).to_string(),
        "trailing 1 bytes after frame"
    );
}

#[test]
fn replies_that_do_not_decode_are_refused() {
    assert_eq!(
        decode_replies(Bytes::from_static(&[1, 0])),
        Err(DecodeError::Truncated { needed: 2 })
    );
    assert_eq!(
        decode_replies(Bytes::from_static(&[0, 0, 0, 0, 1, 2])),
        Err(DecodeError::Trailing(2))
    );
}
