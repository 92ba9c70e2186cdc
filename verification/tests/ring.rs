use oxicache::client::ring::{fmix32, hash, Ring, POINTS};

fn names(n: usize) -> Vec<String> {
    (0..n).map(|i| format!("10.0.0.{i}:4433")).collect()
}

/// MurmurHash3's published vectors, so the ring is anchored to the real
/// function and not just to itself; the four inputs of 1 to 4 bytes cover
/// every tail length.
#[test]
fn the_hash_matches_murmur3s_test_vectors() {
    assert_eq!(hash(b""), 0);
    assert_eq!(hash(b"a"), 0x3c25_69b2);
    assert_eq!(hash(b"ab"), 0x9bbf_d75f);
    assert_eq!(hash(b"abc"), 0xb3dd_93fa);
    assert_eq!(hash(b"abcd"), 0x43ed_676a);
    assert_eq!(hash(b"Hello, world!"), 0xc036_3e43);
    // fmix32 keeps zero and is a bijection, so no two of these collide.
    assert_eq!(fmix32(0), 0);
    let mut seen: Vec<u32> = (0..1000).map(fmix32).collect();
    seen.sort_unstable();
    seen.dedup();
    assert_eq!(seen.len(), 1000);
}

#[test]
fn every_server_gets_its_points() {
    let ring = Ring::new(&names(4));
    assert_eq!(ring.points.len(), 4 * POINTS as usize, "no collisions here");
    let mut sorted = ring.points.clone();
    sorted.sort_unstable_by_key(|p| p.0);
    assert_eq!(sorted, ring.points, "sorted by hash");
    for i in 0..4 {
        assert_eq!(
            ring.points.iter().filter(|p| p.1 == i).count(),
            POINTS as usize
        );
    }
}

#[test]
fn the_order_servers_are_listed_in_does_not_matter() {
    let forward = names(5);
    let backward: Vec<String> = forward.iter().rev().cloned().collect();
    let (a, b) = (Ring::new(&forward), Ring::new(&backward));
    for i in 0..2000u32 {
        let key = format!("key:{i}");
        let (x, y) = (
            a.locate(key.as_bytes(), |_| true),
            b.locate(key.as_bytes(), |_| true),
        );
        assert_eq!(forward[x], backward[y], "{key}");
    }
    let named = |r: &Ring, names: &[String]| -> Vec<(u32, String)> {
        r.points
            .iter()
            .map(|&(h, s)| (h, names[s as usize].clone()))
            .collect()
    };
    assert_eq!(named(&a, &forward), named(&b, &backward));
}

#[test]
fn keys_are_spread_evenly() {
    const NODES: usize = 8;
    const KEYS: u32 = 100_000;
    let ring = Ring::new(&names(NODES));
    let mut counts = [0u32; NODES];
    for i in 0..KEYS {
        counts[ring.locate(format!("user:{i}").as_bytes(), |_| true)] += 1;
    }
    let fair = KEYS as f64 / NODES as f64;
    for (i, &c) in counts.iter().enumerate() {
        let off = (c as f64 - fair).abs() / fair;
        assert!(
            off < 0.12,
            "server {i} holds {c} of {KEYS} keys, {off:.3} off fair"
        );
    }
}

#[test]
fn losing_a_server_moves_only_its_own_keys() {
    let all = names(5);
    let ring = Ring::new(&all);
    let short: Vec<String> = all.iter().filter(|n| *n != &all[2]).cloned().collect();
    let smaller = Ring::new(&short);
    let (mut moved, mut kept) = (0, 0);
    for i in 0..5000u32 {
        let key = format!("key:{i}");
        let (key, dead) = (key.as_bytes(), 2);
        let before = ring.locate(key, |_| true);
        let after = &short[smaller.locate(key, |_| true)];
        if before == dead {
            moved += 1;
        } else {
            assert_eq!(&all[before], after, "{key:?} moved off a live server");
            kept += 1;
        }
        // Skipping the dead server on the full ring is the same as never
        // having had it.
        assert_eq!(&all[ring.locate(key, |i| i != dead)], after);
    }
    assert!(moved > 0 && kept > 0, "{moved} moved, {kept} kept");
}

#[test]
fn a_cluster_that_is_all_down_still_points_at_the_key_owner() {
    let all = names(3);
    let ring = Ring::new(&all);
    for i in 0..100u32 {
        let key = format!("key:{i}");
        let key = key.as_bytes();
        assert_eq!(ring.locate(key, |_| false), ring.locate(key, |_| true));
    }
}

/// Two names whose point sets collide: `10.0.0.14:4433#494` and
/// `10.0.0.3:4433#186` both hash to 21 872 133. The lower name keeps the
/// point, so the ring is the same either way round.
#[test]
fn colliding_points_keep_the_lower_name() {
    let (low, high) = ("10.0.0.14:4433", "10.0.0.3:4433");
    assert_eq!(hash(format!("{low}#494").as_bytes()), 21_872_133);
    assert_eq!(hash(format!("{high}#186").as_bytes()), 21_872_133);
    let names = [low.to_string(), high.to_string()];
    let reversed = [high.to_string(), low.to_string()];
    let (a, b) = (Ring::new(&names), Ring::new(&reversed));
    assert_eq!(a.points.len(), 2 * POINTS as usize - 1, "one point dropped");
    assert_eq!(b.points.len(), a.points.len());
    let at = a.points.partition_point(|p| p.0 < 21_872_133);
    assert_eq!(names[a.points[at].1 as usize], low);
    assert_eq!(reversed[b.points[at].1 as usize], low);
    for i in 0..2000u32 {
        let key = format!("key:{i}");
        let (x, y) = (
            a.locate(key.as_bytes(), |_| true),
            b.locate(key.as_bytes(), |_| true),
        );
        assert_eq!(names[x], reversed[y], "{key}");
    }
}

#[test]
fn one_server_owns_everything() {
    let ring = Ring::new(&names(1));
    assert_eq!(ring.locate(b"anything", |_| true), 0);
    assert_eq!(ring.locate(b"anything", |_| false), 0);
}

#[test]
fn a_key_belongs_to_the_first_point_at_or_after_its_hash() {
    let ring = Ring::new(&names(3));
    for i in 0..500u32 {
        let key = format!("key:{i}");
        let h = hash(key.as_bytes());
        let at = ring.points.iter().position(|p| p.0 >= h).unwrap_or(0);
        assert_eq!(
            ring.locate(key.as_bytes(), |_| true),
            ring.points[at].1 as usize
        );
    }
}
