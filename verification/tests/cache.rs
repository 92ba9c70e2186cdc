use oxicache::cache::heap::{Entry, Heap, ENTRY_OVERHEAD};
use oxicache::cache::key::Key;
use oxicache::cache::s3fifo::{Shard, TooLarge};
use oxicache::cache::table::{Index, MAX_LOAD_EIGHTHS, MIN_BUCKETS, SLOTS};
use oxicache::cache::Cache;
use std::hash::{BuildHasher, Hasher};

fn h(k: &[u8]) -> u64 {
    let mut s = rapidhash::fast::SeedableState::fixed().build_hasher();
    s.write(k);
    s.finish()
}

fn shard(cap: usize) -> Shard {
    Shard::new(cap)
}

fn key(i: usize) -> Vec<u8> {
    format!("key-{i:06}").into_bytes()
}

fn set(s: &mut Shard, i: usize, vlen: usize) {
    s.set(&key(i), &vec![0u8; vlen], h(&key(i)));
}

fn get(s: &Shard, k: &[u8]) -> Option<Vec<u8>> {
    s.get(h(k), k).map(|e| e.value().to_vec())
}

fn del(s: &mut Shard, k: &[u8]) -> bool {
    s.del(h(k), k)
}

#[test]
fn entry_layout_and_copies() {
    const NT_MIN: usize = 1024;
    for len in [0, 1, 31, 64, 1000, NT_MIN, NT_MIN + 33, 3 * NT_MIN + 7] {
        let v: Vec<u8> = (0..len).map(|i| (i * 31 % 251) as u8).collect();
        let e = Entry::new(Key::new(b"k"), &v, 7, 1);
        assert_eq!(e.value(), &v[..]);
        assert_eq!(e.key(), b"k");
        let c = e.clone();
        assert!(Entry::ptr_eq(&e, &c));
        drop(e);
        assert_eq!(c.value(), &v[..]);
    }
}

#[test]
fn s3fifo_get_set_del() {
    let mut s = shard(1 << 20);
    assert!(get(&s, b"a").is_none());
    s.set(b"a", b"1", h(b"a"));
    assert_eq!(get(&s, b"a").as_deref(), Some(&b"1"[..]));
    s.set(b"a", b"2", h(b"a"));
    assert_eq!(get(&s, b"a").as_deref(), Some(&b"2"[..]));
    assert!(del(&mut s, b"a"));
    assert!(!del(&mut s, b"a"));
    assert!(get(&s, b"a").is_none());
    assert_eq!(s.used_bytes(), 0);
}

#[test]
fn respects_capacity() {
    let cap = 100 * (ENTRY_OVERHEAD + 10 + 100);
    let mut s = shard(cap);
    for i in 0..1000 {
        set(&mut s, i, 100);
    }
    assert!(s.used_bytes() <= cap);
    assert!(s.len() <= 100 && s.len() >= 90);
    assert!(get(&s, &key(999)).is_some());
    assert!(get(&s, &key(0)).is_none());
}

#[test]
fn hot_keys_survive_scan() {
    let cap = 100 * (ENTRY_OVERHEAD + 10 + 100);
    let mut s = shard(cap);
    for i in 0..10 {
        set(&mut s, i, 100);
    }
    for _ in 0..3 {
        for i in 0..10 {
            s.lookup(h(&key(i)), &key(i)).unwrap();
        }
    }
    for i in 10..2000 {
        set(&mut s, i, 100);
    }
    let survivors = (0..10).filter(|&i| get(&s, &key(i)).is_some()).count();
    assert_eq!(
        survivors, 10,
        "hot keys should be promoted to main and survive a scan"
    );
}

#[test]
fn ghost_hit_goes_to_main() {
    let cap = 100 * (ENTRY_OVERHEAD + 10 + 100);
    let mut s = shard(cap);
    set(&mut s, 0, 100);
    for i in 1..150 {
        set(&mut s, i, 100);
    }
    assert!(get(&s, &key(0)).is_none());
    set(&mut s, 0, 100);
    assert!(s.in_main(&key(0)), "ghost hit should insert into main");
}

/// A hash that a hit has taken leaves its place to others: it does not count
/// against the 64 that are remembered, and remembering it again forgets none
/// but the oldest.
#[test]
fn a_hash_that_was_taken_leaves_its_place() {
    // Room for one entry, so every write evicts the one before it.
    let mut s = shard(200);
    for i in 0..65 {
        set(&mut s, i, 0);
    }
    set(&mut s, 5, 0);
    assert!(s.in_main(&key(5)));
    // 5 leaves the main queue unremembered, comes back, and is evicted again.
    for i in [65, 5, 66] {
        set(&mut s, i, 0);
        assert!(!s.in_main(&key(i)));
    }
    // 1 and 2 are the oldest of the 66 remembered since, 3 is still there.
    set(&mut s, 3, 0);
    assert!(s.in_main(&key(3)));
}

#[test]
fn delete_frees_budget_and_compacts() {
    let cap = 100 * (ENTRY_OVERHEAD + 10 + 100);
    let mut s = shard(cap);
    for i in 0..100 {
        set(&mut s, i, 100);
    }
    for i in 0..100 {
        assert!(del(&mut s, &key(i)));
    }
    assert_eq!(s.used_bytes(), 0);
    assert!(
        s.dead_bytes() <= cap / 4,
        "compaction should bound dead bytes"
    );
    let (small, main) = s.queue_lens();
    assert!(small + main <= 25);
}

#[test]
fn replacing_at_full_capacity_evicts_only_the_old_entry() {
    // Ten equal entries fill the shard exactly; overwriting one with a
    // same-sized value must keep the other nine.
    let mut s = shard(10 * (key(0).len() + 100 + ENTRY_OVERHEAD));
    for i in 0..10 {
        set(&mut s, i, 100);
    }
    assert_eq!(s.len(), 10);
    set(&mut s, 3, 100);
    assert_eq!(s.len(), 10, "replacement must not evict neighbours");
    for i in 0..10 {
        assert!(get(&s, &key(i)).is_some(), "lost key {i}");
    }
}

#[test]
fn check_fits_rejects_oversized() {
    let s = shard(1000);
    assert!(s.check_fits(b"k", &[0; 100]).is_ok());
    assert!(s.check_fits(b"k", &[0; 5000]).is_err());
}

#[test]
fn oversized_entry_is_only_resident() {
    let mut s = shard(1000);
    set(&mut s, 0, 100);
    set(&mut s, 1, 5000);
    assert!(get(&s, &key(0)).is_none());
    assert!(get(&s, &key(1)).is_some());
    assert_eq!(s.len(), 1);
}

#[test]
fn reads_deletes_and_evictions_are_counted() {
    let mut s = shard(3 * (key(0).len() + 10 + ENTRY_OVERHEAD));
    for i in 0..4 {
        set(&mut s, i, 10);
    }
    assert!(s.lookup(h(&key(3)), &key(3)).is_some());
    assert!(s.lookup(h(&key(9)), &key(9)).is_none());
    assert!(del(&mut s, &key(3)));
    assert!(!del(&mut s, &key(3)));
    let c = s.counts();
    assert_eq!(
        (c.get_hits, c.get_misses, c.del_hits, c.del_misses),
        (1, 1, 1, 1)
    );
    assert_eq!(c.evictions, 1);
}

#[test]
fn too_large_says_by_how_much() {
    let s = shard(1000);
    assert_eq!(
        s.check_fits(b"k", &[0; 1000]),
        Err(TooLarge {
            cost: 1 + 1000 + ENTRY_OVERHEAD,
            capacity: 1000
        })
    );
    assert_eq!(
        s.check_fits(b"k", &[0; 1000]).unwrap_err().to_string(),
        "entry of 1129 bytes exceeds the per-shard capacity of 1000 bytes"
    );
    assert!(s
        .check_fits(b"k", &vec![0; 1000 - 1 - ENTRY_OVERHEAD])
        .is_ok());
}

fn add(heap: &mut Heap, k: &str, v: &str) -> u64 {
    heap.insert(k.as_bytes(), v.as_bytes(), h(k.as_bytes()))
}

#[test]
fn insert_get_remove_and_grow() {
    let mut idx = Index::new();
    let mut heap = Heap::new();
    for i in 0..5000 {
        let k = format!("key{i}");
        let id = add(&mut heap, &k, &i.to_string());
        assert!(idx.insert(&heap, id).is_none());
    }
    assert_eq!(idx.len(&heap), 5000);
    for i in 0..5000 {
        let k = format!("key{i}");
        let got = idx
            .get(&heap, h(k.as_bytes()), k.as_bytes())
            .expect("present");
        assert_eq!(heap.get(got).value(), i.to_string().as_bytes());
    }
    assert!(idx.get(&heap, h(b"nope"), b"nope").is_none());
    let id = add(&mut heap, "key7", "new");
    let old = idx.insert(&heap, id).expect("replaced");
    assert_eq!(heap.get(old).value(), b"7");
    let got = idx.get(&heap, h(b"key7"), b"key7").unwrap();
    assert_eq!(heap.get(got).value(), b"new");
    assert_eq!(idx.len(&heap), 5000);
    for i in 0..5000 {
        let k = format!("key{i}");
        assert!(idx.remove(&heap, h(k.as_bytes()), k.as_bytes()).is_some());
    }
    assert_eq!(idx.len(&heap), 0);
    assert!(idx.remove(&heap, h(b"key1"), b"key1").is_none());
}

/// A small table at maximum load makes the displacement walk long enough to
/// revisit slots; every key inserted must stay reachable.
#[test]
fn churn_at_full_load_loses_nothing() {
    let mut idx = Index::new();
    let mut heap = Heap::new();
    let live = MIN_BUCKETS * SLOTS * MAX_LOAD_EIGHTHS / 8 - 8;
    let mut next = 0usize;
    let mut keys: Vec<usize> = (0..live)
        .map(|_| {
            next += 1;
            next - 1
        })
        .collect();
    for &id in &keys {
        let k = format!("c{id}");
        let id = add(&mut heap, &k, "v");
        assert!(idx.insert(&heap, id).is_none());
    }
    let mut seed = 12345u64;
    for _ in 0..1_000_000 {
        seed ^= seed << 13;
        seed ^= seed >> 7;
        seed ^= seed << 17;
        let i = seed as usize % keys.len();
        let k = format!("c{}", keys[i]);
        let old = idx.remove(&heap, h(k.as_bytes()), k.as_bytes());
        assert!(old.is_some(), "lost {k}");
        heap.remove(old.unwrap());
        keys[i] = next;
        next += 1;
        let k = format!("c{}", keys[i]);
        let id = add(&mut heap, &k, "v");
        assert!(idx.insert(&heap, id).is_none());
    }
    assert_eq!(idx.len(&heap), keys.len());
}

#[test]
fn remove_if_same_checks_identity() {
    let mut idx = Index::new();
    let mut heap = Heap::new();
    let a = add(&mut heap, "k", "a");
    idx.insert(&heap, a);
    let b = add(&mut heap, "k", "b");
    let old = idx.insert(&heap, b).unwrap();
    assert_eq!(old, a);
    assert!(
        !idx.remove_if_same(&heap, a),
        "stale handle must not remove"
    );
    assert!(idx.remove_if_same(&heap, b));
    assert_eq!(idx.len(&heap), 0);
}

#[test]
fn spreads_across_shards() {
    let mut c = Cache::new(64 << 20, 12);
    assert_eq!(c.shard_count(), 16);
    for i in 0..10_000u32 {
        c.set(i.to_string().as_bytes(), b"v").unwrap();
    }
    assert_eq!(c.len(), 10_000);
    assert!(
        (0..c.shard_count()).all(|i| c.shard_len(i) > 300),
        "hash should distribute keys evenly"
    );
    assert_eq!(
        c.get(b"42").map(|e| e.value().to_vec()).as_deref(),
        Some(&b"v"[..])
    );
    assert!(c.del(b"42"));
    assert_eq!(c.len(), 9_999);
}

#[test]
fn get_many_in_order() {
    let mut c = Cache::new(1 << 20, 1);
    c.set(b"k", b"v").unwrap();
    let seen: Vec<Option<Vec<u8>>> = c
        .get_many(&[&b"k"[..], &b"x"[..], &b"k"[..]])
        .iter()
        .map(|e| e.as_ref().map(|e| e.value().to_vec()))
        .collect();
    assert_eq!(seen, vec![Some(b"v".to_vec()), None, Some(b"v".to_vec())]);
}

/// The hash decides the shard, so the same seed and secrets put a key in the
/// same one, and the hash is the crate's.
#[test]
fn keys_are_hashed_with_the_secrets() {
    let secrets = rapidhash::v3::RapidSecrets::seed(7);
    let mut a = Cache::with_secrets(1 << 20, 8, secrets.seed, secrets.secrets);
    let mut b = Cache::with_secrets(1 << 20, 8, secrets.seed, secrets.secrets);
    for i in 0..200u32 {
        a.set(i.to_string().as_bytes(), b"v").unwrap();
        b.set(i.to_string().as_bytes(), b"v").unwrap();
    }
    let lens = |c: &Cache| (0..8).map(|i| c.shard_len(i)).collect::<Vec<_>>();
    assert_eq!(lens(&a), lens(&b));
    let mut expect = vec![0; 8];
    for i in 0..200u32 {
        let k = i.to_string();
        let hash = rapidhash::v3::rapidhash_v3_seeded(k.as_bytes(), &secrets);
        expect[(hash >> 61) as usize] += 1;
    }
    assert_eq!(lens(&a), expect);
}

#[test]
fn many_writes_and_deletes_keep_order() {
    let mut c = Cache::new(1 << 20, 4);
    c.set_many(&[
        (&b"a"[..], &b"1"[..]),
        (&b"b"[..], &b"2"[..]),
        (&b"a"[..], &b"3"[..]),
    ])
    .unwrap();
    assert_eq!(c.get(b"a").unwrap().value(), b"3");
    assert_eq!(
        c.del_many(&[&b"a"[..], &b"x"[..], &b"a"[..], &b"b"[..]]),
        vec![true, false, false, true]
    );
    assert!(c.is_empty());
    assert_eq!(c.used_bytes(), 0);
}

#[test]
fn a_batch_with_one_oversized_entry_stores_nothing() {
    let mut c = Cache::new(1 << 10, 1);
    let big = vec![0u8; 1 << 10];
    assert!(c
        .set_many(&[(&b"a"[..], &b"1"[..]), (&b"b"[..], &big[..])])
        .is_err());
    assert!(c.get(b"a").is_none());
    assert!(c.set(b"b", &big).is_err());
}

#[test]
fn stats_add_the_shards_up() {
    let mut c = Cache::new(1 << 20, 4);
    for i in 0..50u32 {
        c.set(i.to_string().as_bytes(), b"v").unwrap();
    }
    for i in 0..60u32 {
        c.get(i.to_string().as_bytes());
    }
    c.del(b"0");
    c.del(b"nope");
    let s = c.stats();
    assert_eq!((s.get_hits, s.get_misses), (50, 10));
    assert_eq!((s.del_hits, s.del_misses), (1, 1));
    assert_eq!((s.items, s.evictions), (49, 0));
    assert_eq!(s.capacity, 1 << 20);
    assert_eq!(s.used_bytes, c.used_bytes());
}
