use bytes::{BufMut, Bytes, BytesMut};
use oxicache::client::batch::Batch;
use oxicache::client::cluster::{
    distinct, drop_out, failed, is_up, Cluster, Failover, Merge, Opening, Pings, Plan,
    HEALTHY,
};
use oxicache::client::error::Error;
use oxicache::wire::{encode_header, frames, DecodeError, Op, Status};
use std::io::ErrorKind;

fn names(n: usize) -> Vec<String> {
    (0..n).map(|i| format!("10.0.0.{i}:4433")).collect()
}

fn cluster(n: usize) -> Cluster {
    Cluster::new(names(n), Some(Failover::default()))
}

fn io() -> Error {
    Error::Io {
        kind: ErrorKind::ConnectionRefused,
        message: "refused".to_string(),
    }
}

fn refused(status: Status) -> Error {
    Error::Status {
        status,
        message: String::new(),
    }
}

#[test]
fn two_failures_in_a_row_drop_a_server_for_thirty_seconds() {
    let policy = Some(Failover::default());
    let one = failed(HEALTHY, policy, 1000);
    assert!(is_up(one, 1000));
    let two = failed(one, policy, 2000);
    assert!(!is_up(two, 2000));
    assert!(!is_up(two, 31_999));
    assert!(is_up(two, 32_000));
    // Let back in, one more failure drops it again.
    let three = failed(two, policy, 40_000);
    assert!(!is_up(three, 69_999));
    assert!(is_up(three, 70_000));
}

#[test]
fn without_a_policy_nothing_is_dropped() {
    let mut h = HEALTHY;
    for i in 0..200_000 {
        h = failed(h, None, i);
    }
    assert!(is_up(h, 0));
}

#[test]
fn a_server_that_is_down_at_the_start_is_out_for_a_whole_window() {
    let policy = Failover {
        failures: 3,
        retry: 500,
    };
    let h = drop_out(policy, 1000);
    assert!(!is_up(h, 1499));
    assert!(is_up(h, 1500));
    let again = failed(h, Some(policy), 2000);
    assert!(!is_up(again, 2499), "one failure drops it again");
}

#[test]
fn counts_and_deadlines_saturate() {
    let policy = Some(Failover {
        failures: 1,
        retry: u64::MAX,
    });
    let h = failed(HEALTHY, policy, 1);
    assert!(!is_up(h, (1 << 48) - 2));
    assert!(is_up(h, (1 << 48) - 1));
    let never = Some(Failover {
        failures: 70_000,
        retry: 1,
    });
    let mut h = HEALTHY;
    for _ in 0..80_000 {
        h = failed(h, never, 5);
    }
    assert!(is_up(h, 0), "a limit beyond what is counted is never reached");
}

#[test]
fn an_answer_of_any_kind_is_not_a_failed_server() {
    assert!(oxicache::client::cluster::unreachable(&io()));
    assert!(oxicache::client::cluster::unreachable(&Error::Closed));
    assert!(oxicache::client::cluster::unreachable(&Error::InvalidStatus(9)));
    assert!(oxicache::client::cluster::unreachable(&refused(Status::Unauthorized)));
    assert!(!oxicache::client::cluster::unreachable(&refused(Status::TooLarge)));
    assert!(!oxicache::client::cluster::unreachable(&Error::ResponseTooLarge(1)));
    assert!(!oxicache::client::cluster::unreachable(&Error::Decode(DecodeError::Trailing(1))));
    let mut c = cluster(2);
    c.note::<()>(0, &Err(io()), 0);
    c.note::<()>(0, &Err(refused(Status::TooLarge)), 0);
    c.note::<()>(0, &Err(io()), 0);
    assert_eq!(c.live(0), vec![0, 1], "the refusal cleared the count");
    c.note::<()>(0, &Err(io()), 0);
    assert_eq!(c.live(0), vec![1]);
    c.note(0, &Ok(()), 0);
    assert_eq!(c.live(0), vec![0, 1]);
}

#[test]
fn a_call_that_asked_nothing_clears_nothing() {
    let own = [
        Error::Serialize("no".to_string()),
        Error::TooManyItems(1),
        Error::Pem {
            path: "ca.pem".to_string(),
            message: "no items found".to_string(),
        },
        Error::Tls("no".to_string()),
    ];
    for e in own {
        let mut c = cluster(2);
        c.note::<()>(0, &Err(io()), 0);
        let result: Result<(), Error> = Err(e);
        c.note(0, &result, 0);
        assert_eq!(c.live(0), vec![0, 1], "it is no failure either");
        c.note::<()>(0, &Err(io()), 0);
        assert_eq!(c.live(0), vec![1], "{result:?}");
        c.note(0, &result, 0);
        assert_eq!(c.live(0), vec![1], "{result:?}");
    }
}

#[test]
fn keys_move_off_a_dropped_server_and_back() {
    let mut c = cluster(3);
    assert_eq!(c.len(), 3);
    let keys: Vec<String> = (0..300).map(|i| format!("key:{i}")).collect();
    let home: Vec<usize> = keys.iter().map(|k| c.node_for(k.as_bytes(), 0)).collect();
    assert!((0..3).all(|n| home.contains(&n)));
    for _ in 0..2 {
        c.note::<()>(1, &Err(io()), 0);
    }
    for (k, &was) in keys.iter().zip(&home) {
        let now = c.node_for(k.as_bytes(), 0);
        if was == 1 {
            assert_ne!(now, 1);
        } else {
            assert_eq!(now, was);
        }
        assert_eq!(c.node_for(k.as_bytes(), 30_000), was);
    }
    // All down: a key's own server is still tried.
    for n in [0, 2] {
        for _ in 0..2 {
            c.note::<()>(n, &Err(io()), 0);
        }
    }
    assert!(c.live(0).is_empty());
    for (k, &was) in keys.iter().zip(&home) {
        assert_eq!(c.node_for(k.as_bytes(), 0), was);
    }
    assert_eq!(c.name(2), "10.0.0.2:4433");
}

#[test]
fn one_server_is_a_cluster() {
    let mut c = cluster(1);
    for _ in 0..5 {
        c.note::<()>(0, &Err(io()), 0);
    }
    assert_eq!(c.node_for(b"k", 0), 0);
}

#[test]
fn names_are_told_apart() {
    assert!(distinct(&names(5)));
    let mut twice = names(3);
    twice.push(twice[1].clone());
    assert!(!distinct(&twice));
    assert!(distinct(&[]));
}

#[test]
fn a_cluster_opens_with_one_server_up() {
    let mut c = cluster(3);
    let mut o = Opening::new();
    assert!(o.joined(&mut c, 0, Err(io()), 0).is_ok());
    assert!(o.joined(&mut c, 1, Ok(()), 0).is_ok());
    assert!(o.joined(&mut c, 2, Err(Error::Closed), 0).is_ok());
    assert_eq!(c.live(0), vec![1], "the others start out of the ring");
    assert!(o.finish().is_ok());
    // Nothing up is no cluster, and the first failure says why.
    let mut c = cluster(2);
    let mut o = Opening::new();
    assert!(o.joined(&mut c, 1, Err(Error::Closed), 0).is_ok());
    assert!(o.joined(&mut c, 0, Err(io()), 0).is_ok());
    assert!(matches!(o.finish(), Err(Error::Closed)));
    // A refused token fails the cluster at once.
    let mut o = Opening::new();
    assert!(matches!(
        o.joined(&mut c, 0, Err(refused(Status::Unauthorized)), 0),
        Err(Error::Status { .. })
    ));
    assert!(matches!(
        o.joined(&mut c, 0, Err(Error::InvalidStatus(7)), 0),
        Err(Error::InvalidStatus(7))
    ));
}

#[test]
fn a_ping_finds_out_that_a_server_is_back() {
    let mut c = cluster(2);
    for _ in 0..2 {
        c.note::<()>(0, &Err(io()), 0);
    }
    assert_eq!(c.live(0), vec![1]);
    let mut p = Pings::new();
    p.joined(&mut c, 0, Ok(()), 0);
    p.joined(&mut c, 1, Err(Error::Closed), 0);
    assert_eq!(c.live(0), vec![0, 1]);
    assert!(matches!(p.finish(), Err(Error::Closed)));
    assert!(Pings::new().finish().is_ok());
}

/// The answers a server gives to a share: each item's key back.
fn echo(body: &[u8]) -> Bytes {
    let mut fs = frames(body).unwrap();
    let mut out = BytesMut::new();
    out.put_u32_le(fs.len() as u32);
    while let Some((_, item)) = fs.next() {
        out.put_slice(&encode_header(Status::Success.as_u8(), item.len()));
        out.put_slice(item);
    }
    out.freeze()
}

#[test]
fn a_batch_is_split_and_answered_in_order() {
    let c = cluster(4);
    let mut b = Batch::new();
    let mut slots = Vec::new();
    for i in 0..200 {
        slots.push(b.get(format!("key:{i}").as_bytes()));
    }
    let n = b.len();
    let body = b.finish().unwrap();
    let Plan::Split(shares) = c.plan(&body, 0).unwrap() else {
        panic!("200 keys land on more than one server");
    };
    assert_eq!(shares.len(), 4);
    assert_eq!(shares.iter().map(|s| s.items.len()).sum::<usize>(), n);
    let mut m = Merge::new(n);
    for share in shares.iter().rev() {
        let mut fs = frames(&share.body).unwrap();
        while let Some((op, key)) = fs.next() {
            assert_eq!(op, Op::Get.as_u8());
            assert_eq!(c.node_for(key, 0), share.node);
        }
        m.joined(&share.items, Ok((Status::Success, echo(&share.body))));
    }
    let out = m.finish().unwrap();
    assert_eq!(out.len(), n);
    for (i, slot) in slots.into_iter().enumerate() {
        assert_eq!(
            out.get(slot).unwrap(),
            Some(Bytes::from(format!("key:{i}")))
        );
    }
}

#[test]
fn a_batch_for_one_server_is_sent_as_it_was_built() {
    let c = cluster(4);
    let at = c.node_for(b"key:1", 0);
    let mut b = Batch::new();
    b.get(b"key:1");
    b.del(b"key:1");
    b.set_with(b"key:1", |out: &mut BytesMut| {
        out.put_slice(b"v");
        Ok::<(), ()>(())
    })
    .unwrap();
    let body = b.finish().unwrap();
    assert!(matches!(c.plan(&body, 0), Ok(Plan::One(n)) if n == at));
    let empty = Batch::new().finish().unwrap();
    assert!(matches!(c.plan(&empty, 0), Ok(Plan::Nothing)));
}

#[test]
fn a_batch_that_cannot_be_routed_is_an_error() {
    let c = cluster(3);
    let cut = Bytes::from_static(&[1, 0]);
    assert!(matches!(
        c.plan(&cut, 0),
        Err(Error::Decode(DecodeError::Truncated { needed: 2 }))
    ));
    let mut b = BytesMut::new();
    b.put_u32_le(1);
    b.put_slice(&encode_header(Op::Put.as_u8(), 2));
    b.put_slice(&[9, 0]);
    assert!(matches!(
        c.plan(&b.freeze(), 0),
        Err(Error::Decode(DecodeError::Truncated { needed: 2 }))
    ));
}

#[test]
fn one_failed_share_fails_the_batch_with_the_first_failure() {
    let mut m = Merge::new(2);
    m.joined(
        &vec![0],
        Ok((Status::Success, Bytes::from_static(&[0, 0, 0, 0]))),
    );
    m.joined(&vec![1], Err(io()));
    assert!(matches!(
        m.finish(),
        Err(Error::Count {
            expected: 1,
            got: 0
        })
    ));
    let mut m = Merge::new(1);
    m.joined(
        &vec![0],
        Ok((Status::Success, Bytes::from_static(&[1, 0, 0]))),
    );
    assert!(matches!(m.finish(), Err(Error::Decode(_))));
    let mut m = Merge::new(1);
    m.joined(&vec![0], Err(Error::Closed));
    assert!(matches!(m.finish(), Err(Error::Closed)));
}
