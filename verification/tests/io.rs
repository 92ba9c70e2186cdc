use bytes::Bytes;
use oxicache::io::{grow_by, FrameReader, FrameTooLarge, FrameWriter, BUF, INLINE_BODY};
use oxicache::wire::{decode_header, encode_header, HEADER_LEN};

fn frames(mut b: &[u8]) -> Vec<(u8, Vec<u8>)> {
    let mut v = Vec::new();
    while !b.is_empty() {
        let (tag, len) = decode_header(b[..HEADER_LEN].try_into().unwrap());
        v.push((tag, b[HEADER_LEN..HEADER_LEN + len].to_vec()));
        b = &b[HEADER_LEN + len..];
    }
    v
}

#[test]
fn rejects_oversized() {
    let mut r = FrameReader::new(10);
    r.feed(&encode_header(1, 11));
    assert_eq!(r.next_buffered(), Err(FrameTooLarge(11)));
}

#[test]
fn writer_spills_a_full_chunk() {
    let mut w = FrameWriter::default();
    assert!(w.is_empty());
    w.header(1, BUF + 8);
    w.put_slice(&vec![1u8; BUF]);
    assert!(!w.is_empty());
    assert_eq!(w.spilled(), 1, "a chunk that would overflow is spilled");
    w.put_slice(&[2u8; 8]);
    let out = w.take();
    assert_eq!(out.len(), HEADER_LEN + BUF + 8);
    assert_eq!(&out[HEADER_LEN + BUF..], &[2u8; 8]);
    assert!(w.is_empty());
}

/// A frame begun without a known length is patched when it ends, even when
/// its header was spilled to the piece list or a referenced body split the
/// chunk in between; aborting leaves no trace of it.
#[test]
fn marks_patch_and_abort_across_spills() {
    let mut w = FrameWriter::with_inline_limit(16);
    w.frame(9, Bytes::from_static(b"before"));
    let m = w.begin(1);
    w.put_slice(b"ab");
    w.put_bytes(Bytes::from(vec![7u8; 32])); // referenced: splits the chunk
    w.put_slice(&vec![3u8; BUF]); // spills
    w.put_slice(b"cd");
    assert_eq!(w.since(m), 2 + 32 + BUF + 2);
    w.end(m);
    let m2 = w.begin(2);
    w.put_slice(b"dropped");
    w.abort(m2);
    w.frame(9, Bytes::from_static(b"after"));
    let out = w.take();
    let f = frames(&out);
    assert_eq!(f.len(), 3);
    assert_eq!((f[0].0, &f[0].1[..]), (9, &b"before"[..]));
    assert_eq!(f[1].0, 1);
    assert_eq!(f[1].1.len(), 2 + 32 + BUF + 2);
    assert_eq!(&f[1].1[..2], b"ab");
    assert_eq!(&f[1].1[f[1].1.len() - 2..], b"cd");
    assert_eq!((f[2].0, &f[2].1[..]), (9, &b"after"[..]));
    // Aborting a frame whose header is still in the chunk.
    let mut w = FrameWriter::new();
    let m = w.begin(1);
    w.put_slice(b"x");
    w.abort(m);
    assert!(w.is_empty());
    assert!(w.take().is_empty());
}

#[test]
fn frames_written_are_read_whatever_the_cuts() {
    let big = Bytes::from(vec![5u8; INLINE_BODY * 3]);
    let mut w = FrameWriter::new();
    w.frame(1, Bytes::from_static(b"small"));
    w.frame(2, big.clone());
    w.frame(3, Bytes::new());
    let out = w.take();
    for step in [1, 7, 4096, out.len()] {
        let mut r = FrameReader::new(1 << 20);
        let mut got = Vec::new();
        for part in out.chunks(step) {
            r.feed(part);
            while let Some((tag, body)) = r.next_buffered().unwrap() {
                got.push((tag, Bytes::copy_from_slice(body)));
            }
        }
        assert_eq!(got.len(), 3);
        assert_eq!(got[0], (1, Bytes::from_static(b"small")));
        assert_eq!(got[1], (2, big.clone()));
        assert_eq!(got[2], (3, Bytes::new()));
    }
}

#[test]
fn owned_frames_are_the_borrowed_ones() {
    let mut r = FrameReader::new(100);
    r.feed(&encode_header(4, 3));
    r.feed(b"abc");
    r.feed(&encode_header(5, 2));
    r.feed(b"d");
    assert_eq!(
        r.next_buffered_owned(),
        Ok(Some((4, Bytes::from_static(b"abc"))))
    );
    assert_eq!(r.next_buffered_owned(), Ok(None));
    r.feed(b"e");
    assert_eq!(
        r.next_buffered_owned(),
        Ok(Some((5, Bytes::from_static(b"de"))))
    );
}

#[test]
fn the_limit_can_be_lifted() {
    let mut r = FrameReader::new(2);
    r.feed(&encode_header(1, 3));
    r.feed(b"abc");
    assert_eq!(r.next_buffered(), Err(FrameTooLarge(3)));
    r.set_max_frame(3);
    assert_eq!(r.next_buffered(), Ok(Some((1, &b"abc"[..]))));
    assert_eq!(
        FrameTooLarge(11).to_string(),
        "frame body of 11 bytes exceeds the limit"
    );
}

/// An unsent frame must not reserve its claimed size.
#[test]
fn a_claimed_large_frame_reserves_incrementally() {
    let mut r = FrameReader::new(64 << 20);
    r.feed(&encode_header(1, 64 << 20));
    assert_eq!(r.next_buffered().unwrap(), None);
    let room = r.prepare().capacity();
    assert!(room <= 4 * BUF, "{room}");
    assert_eq!(grow_by(0, 0, BUF), 0);
    assert_eq!(grow_by(0, BUF, BUF), BUF);
    assert_eq!(grow_by(64 << 20, 5, BUF), BUF);
    assert_eq!(grow_by(64 << 20, 4 * BUF, 4 * BUF), 4 * BUF);
}

#[test]
fn pieces_come_out_in_order_across_short_writes() {
    let mut w = FrameWriter::with_inline_limit(4);
    w.frame(1, Bytes::from_static(b"ab"));
    w.frame(2, Bytes::from_static(b"referenced"));
    w.frame(3, Bytes::from_static(b"cd"));
    let len = w.len();
    assert_eq!(len, 3 * HEADER_LEN + 2 + 10 + 2);
    let mut sent = Vec::new();
    w.seal();
    let mut at = w.start();
    while !w.done(at) {
        let room = w.gather(at);
        let all: Vec<u8> = room.concat();
        let n = all.len().min(3);
        sent.extend_from_slice(&all[..n]);
        at = w.wrote(at, n);
    }
    w.flushed();
    assert!(w.is_empty());
    assert_eq!(
        frames(&sent),
        vec![
            (1, b"ab".to_vec()),
            (2, b"referenced".to_vec()),
            (3, b"cd".to_vec())
        ]
    );
}

#[test]
fn bodies_at_the_limit_are_parts_of_their_own() {
    let mut w = FrameWriter::with_inline_limit(4);
    w.put_bytes(Bytes::from_static(b"abc"));
    assert_eq!(w.spilled(), 0, "a short body is copied");
    w.put_bytes(Bytes::from_static(b"defg"));
    assert_eq!(w.spilled(), 2, "what was copied, and the body behind it");
    w.put_slice(b"h");
    assert_eq!(w.spilled(), 2);
    w.seal();
    assert_eq!(w.spilled(), 3);
    w.seal();
    assert_eq!(w.spilled(), 3, "nothing is left to seal");
    let at = w.start();
    assert_eq!(w.gather(at), [&b"abc"[..], b"defg", b"h"]);
    let at = w.wrote(at, 5);
    assert_eq!(w.gather(at), [&b"fg"[..], b"h"]);
    assert!(!w.done(at));
    assert!(w.took(at, 0).is_none(), "a sink that takes nothing has failed");
    let at = w.took(at, 3).unwrap();
    assert!(w.done(at));
    w.flushed();
    assert!(w.is_empty());
    assert_eq!(w.spilled(), 0);
}

#[test]
fn an_aborted_frame_leaves_the_parts_before_it() {
    let mut w = FrameWriter::with_inline_limit(4);
    w.put_slice(b"ab");
    let mark = w.begin(7);
    w.put_bytes(Bytes::from_static(b"longer than that"));
    assert_eq!(w.spilled(), 2);
    w.abort(mark);
    assert_eq!(w.spilled(), 0);
    assert_eq!(w.take(), b"ab");
}

#[test]
fn frames_come_out_whole_however_they_are_cut() {
    let mut w = FrameWriter::new();
    let sent: Vec<(u8, Vec<u8>)> = (0..5u8).map(|i| (i, vec![i; 7 * i as usize])).collect();
    for (tag, body) in &sent {
        w.frame(*tag, Bytes::from(body.clone()));
    }
    let all = w.take();
    for size in 1..=all.len() {
        let mut r = FrameReader::new(64);
        let mut got = Vec::new();
        for part in all.chunks(size) {
            r.feed(part);
            while let Some((tag, body)) = r.next_buffered_owned().unwrap() {
                got.push((tag, body.to_vec()));
            }
        }
        assert_eq!(got, sent, "{size}");
    }
}
