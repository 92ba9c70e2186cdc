//! What holds of an S3-FIFO shard whatever is done to it: a write is read
//! back, nothing else changes but by eviction, the budget is kept, and what is
//! counted is what happened.

use super::heap::{Item, FREQ_CAP};
use super::policy;
use super::policy::State;
use vstd::prelude::*;

verus! {

/// Two lookups that differ at most in how often the entry was read.
pub open spec fn same(a: Option<Item>, b: Option<Item>) -> bool {
    match (a, b) {
        (Some(x), Some(y)) => x.key == y.key && x.value == y.value && x.hash == y.hash && x.live
            == y.live,
        (None, None) => true,
        _ => false,
    }
}

/// Every lookup in `t` finds nothing, or what it finds in `s`.
pub open spec fn kept(s: Seq<Item>, t: Seq<Item>) -> bool {
    &&& policy::unique(t)
    &&& forall|k: Seq<u8>| policy::find(t, k) is None || same(#[trigger] policy::find(t, k), policy::find(s, k))
}

/// The live entry for a key is the one that is found.
pub proof fn find_is(items: Seq<Item>, key: Seq<u8>, i: int)
    requires
        policy::unique(items),
        policy::at(items, key, i),
    ensures
        policy::find(items, key) == Some(items[i]),
{
    let j = choose|j: int| policy::at(items, key, j);
    assert(policy::at(items, key, j));
    if i < j {
        assert(items[i].key != items[j].key);
    } else if j < i {
        assert(items[j].key != items[i].key);
    }
}

/// Taking an entry out of a queue takes away what it answered for, nothing else.
proof fn removed(items: Seq<Item>, i: int)
    requires
        policy::unique(items),
        0 <= i < items.len(),
    ensures
        policy::unique(items.remove(i)),
        forall|k: Seq<u8>| #[trigger]
            policy::find(items.remove(i), k) == if policy::at(items, k, i) {
                None
            } else {
                policy::find(items, k)
            },
{
    let after = items.remove(i);
    assert forall|a: int, b: int|
        0 <= a < b < after.len() && after[a].live && after[b].live implies (#[trigger] after[a]).key
        != (#[trigger] after[b]).key by {
        let c = if a < i {
            a
        } else {
            a + 1
        };
        let d = if b < i {
            b
        } else {
            b + 1
        };
        assert(items[c].key != items[d].key);
    }
    assert forall|k: Seq<u8>| #[trigger]
        policy::find(after, k) == if policy::at(items, k, i) {
            None
        } else {
            policy::find(items, k)
        } by {
        if exists|b: int| policy::at(after, k, b) {
            let b = choose|b: int| policy::at(after, k, b);
            assert(policy::at(after, k, b));
            let d = if b < i {
                b
            } else {
                b + 1
            };
            assert(policy::at(items, k, d));
            find_is(items, k, d);
            find_is(after, k, b);
            if policy::at(items, k, i) {
                find_is(items, k, i);
                if d < i {
                    assert(items[d].key != items[i].key);
                } else {
                    assert(items[i].key != items[d].key);
                }
            }
        } else if exists|d: int| policy::at(items, k, d) {
            let d = choose|d: int| policy::at(items, k, d);
            assert(policy::at(items, k, d));
            if d != i {
                let b = if d < i {
                    d
                } else {
                    d - 1
                };
                assert(policy::at(after, k, b));
            }
        }
    }
}

/// Putting an entry into a queue makes it the answer for its key, and changes
/// no other answer.
proof fn inserted(items: Seq<Item>, i: int, e: Item)
    requires
        policy::unique(items),
        0 <= i <= items.len(),
        e.live ==> policy::find(items, e.key) is None,
    ensures
        policy::unique(items.insert(i, e)),
        forall|k: Seq<u8>| #[trigger]
            policy::find(items.insert(i, e), k) == if e.live && k == e.key {
                Some(e)
            } else {
                policy::find(items, k)
            },
{
    let after = items.insert(i, e);
    assert(after.remove(i) =~= items);
    assert forall|a: int, b: int|
        0 <= a < b < after.len() && after[a].live && after[b].live implies (#[trigger] after[a]).key
        != (#[trigger] after[b]).key by {
        let c = if a < i {
            a
        } else {
            a - 1
        };
        let d = if b < i {
            b
        } else {
            b - 1
        };
        if a == i {
            assert(policy::at(items, items[d].key, d));
        } else if b == i {
            assert(policy::at(items, items[c].key, c));
        } else {
            assert(items[c].key != items[d].key);
        }
    }
    removed(after, i);
    assert forall|k: Seq<u8>| #[trigger]
        policy::find(after, k) == if e.live && k == e.key {
            Some(e)
        } else {
            policy::find(items, k)
        } by {
        assert(policy::find(after.remove(i), k) == policy::find(items, k));
        if e.live && k == e.key {
            find_is(after, k, i);
        } else {
            assert(!policy::at(after, k, i));
        }
    }
}

/// Moving an entry to the end of a queue, with another count of reads, changes
/// no answer but for that count.
proof fn turned(items: Seq<Item>, i: int, n: int, freq: nat)
    requires
        policy::unique(items),
        0 <= i < items.len(),
        0 <= n < items.len(),
    ensures
        ({
            let after = items.remove(i).insert(n, Item { freq, ..items[i] });
            &&& policy::unique(after)
            &&& forall|k: Seq<u8>| same(#[trigger] policy::find(after, k), policy::find(items, k))
        }),
{
    let e = Item { freq, ..items[i] };
    let between = items.remove(i);
    removed(items, i);
    if e.live {
        assert(policy::at(items, e.key, i));
        assert(policy::find(between, e.key) is None);
    }
    inserted(between, n, e);
    let after = between.insert(n, e);
    assert forall|k: Seq<u8>| same(#[trigger] policy::find(after, k), policy::find(items, k)) by {
        assert(policy::find(between, k) == if policy::at(items, k, i) {
            None
        } else {
            policy::find(items, k)
        });
        if policy::at(items, k, i) {
            find_is(items, k, i);
        }
    }
}

/// Entries of a valid state are as many as counted and charged for, and one
/// that leaves the main queue is no longer.
proof fn evicted_main_keeps(small: Seq<Item>, main: Seq<Item>)
    requires
        main.len() > 0,
        policy::unique(small + main),
    ensures
        kept(small + main, small + policy::evicted_main(main).0),
        policy::total(policy::evicted_main(main).0, policy::live_one()) + (if policy::evicted_main(
            main,
        ).1.live {
            1nat
        } else {
            0
        }) == policy::total(main, policy::live_one()),
        policy::total(policy::evicted_main(main).0, policy::live_cost()) + (if policy::evicted_main(
            main,
        ).1.live {
            policy::evicted_main(main).1.cost()
        } else {
            0
        }) == policy::total(main, policy::live_cost()),
        (forall|i: int| 0 <= i < main.len() ==> (#[trigger] main[i]).freq <= FREQ_CAP) ==> (forall|
            i: int,
        |
            0 <= i < policy::evicted_main(main).0.len() ==> (#[trigger] policy::evicted_main(
                main,
            ).0[i]).freq <= FREQ_CAP),
    decreases policy::total(main, policy::freq()),
{
    let e = main[0];
    let rest = main.drop_first();
    let n = small.len() as int;
    let all = small + main;
    policy::total_front(main, policy::live_one());
    policy::total_front(main, policy::live_cost());
    assert(all.remove(n) =~= small + rest);
    assert(all[n] == e);
    if !e.live || e.freq == 0 {
        removed(all, n);
    } else {
        let spared = Item { freq: (e.freq - 1) as nat, ..e };
        policy::total_front(main, policy::freq());
        policy::total_push(rest, spared, policy::freq());
        policy::total_push(rest, spared, policy::live_one());
        policy::total_push(rest, spared, policy::live_cost());
        turned(all, n, all.len() - 1, spared.freq);
        let next = rest.push(spared);
        assert(all.remove(n).insert(all.len() - 1, spared) =~= small + next);
        evicted_main_keeps(small, next);
        let left = small + policy::evicted_main(main).0;
        assert forall|k: Seq<u8>| policy::find(left, k) is None || same(
            #[trigger] policy::find(left, k),
            policy::find(all, k),
        ) by {
            assert(same(policy::find(small + next, k), policy::find(all, k)));
        }
        if forall|i: int| 0 <= i < main.len() ==> (#[trigger] main[i]).freq <= FREQ_CAP {
            assert forall|i: int| 0 <= i < next.len() implies (#[trigger] next[i]).freq
                <= FREQ_CAP by {
                if i < rest.len() {
                    assert(next[i] == main[i + 1]);
                }
            }
        }
    }
}

/// What making room keeps: nothing changes but that entries are evicted, as
/// many as are counted, and their bytes are free.
pub open spec fn room_made(s: State, t: State) -> bool {
    &&& t.valid()
    &&& t.capacity == s.capacity
    &&& kept(s.all(), t.all())
    &&& t.used() <= s.used()
    &&& t.count() <= s.count()
    &&& t.counts == (policy::Counts { evictions: t.counts.evictions, ..s.counts })
    &&& t.counts.evictions == (s.counts.evictions + s.count() - t.count()) % 0x1_0000_0000_0000_0000
}

proof fn evict_one_keeps(s: State)
    requires
        s.valid(),
        s.all().len() > 0,
    ensures
        room_made(s, s.evict_one()),
{
    let t = s.evict_one();
    let n = s.small.len() as int;
    let from_small = if s.small_bytes() >= s.capacity / 10 {
        n > 0
    } else {
        s.main.len() == 0
    };
    if from_small {
        let e = s.small[0];
        let rest = s.small.drop_first();
        policy::total_front(s.small, policy::live_one());
        policy::total_front(s.small, policy::live_cost());
        assert(s.all()[0] == e);
        if e.live && e.freq > 1 {
            let moved = Item { freq: 0, ..e };
            policy::total_push(s.main, moved, policy::live_one());
            policy::total_push(s.main, moved, policy::live_cost());
            turned(s.all(), 0, s.all().len() - 1, 0);
            assert(t.all() =~= s.all().remove(0).insert(s.all().len() - 1, moved));
            assert forall|i: int| 0 <= i < t.all().len() implies (#[trigger] t.all()[i]).freq
                <= FREQ_CAP by {
                if i < t.all().len() - 1 {
                    assert(t.all()[i] == s.all()[i + 1]);
                }
            }
        } else {
            policy::remember_keeps(s.remembered, e.hash, policy::ghost_limit(s.main.len()));
            removed(s.all(), 0);
            assert(t.all() =~= s.all().remove(0));
            assert forall|i: int| 0 <= i < t.all().len() implies (#[trigger] t.all()[i]).freq
                <= FREQ_CAP by {
                assert(t.all()[i] == s.all()[i + 1]);
            }
        }
    } else {
        assert forall|i: int| 0 <= i < s.main.len() implies (#[trigger] s.main[i]).freq
            <= FREQ_CAP by {
            assert(s.all()[n + i] == s.main[i]);
        }
        evicted_main_keeps(s.small, s.main);
        assert forall|i: int| 0 <= i < t.all().len() implies (#[trigger] t.all()[i]).freq
            <= FREQ_CAP by {
            if i < n {
                assert(t.all()[i] == s.all()[i]);
            } else {
                assert(t.all()[i] == t.main[i - n]);
            }
        }
    }
}

/// Making room evicts until the entry fits or nothing is left.
pub proof fn make_room_keeps(s: State, cost: nat)
    requires
        s.valid(),
    ensures
        room_made(s, s.make_room(cost)),
        !s.make_room(cost).crowded(cost),
    decreases s.small.len() + s.main.len(), s.small.len(),
{
    if s.crowded(cost) {
        let t = s.evict_one();
        evict_one_keeps(s);
        s.evict_one_shrinks();
        make_room_keeps(t, cost);
        let u = t.make_room(cost);
        assert forall|k: Seq<u8>| policy::find(u.all(), k) is None || same(
            #[trigger] policy::find(u.all(), k),
            policy::find(s.all(), k),
        ) by {
            assert(policy::find(t.all(), k) is None || same(policy::find(t.all(), k), policy::find(s.all(), k)));
        }
    }
}

/// Marking a key's entry as dead takes away what it answered for, nothing else.
proof fn buried_keeps(items: Seq<Item>, key: Seq<u8>)
    requires
        policy::unique(items),
    ensures
        policy::unique(policy::buried(items, key)),
        forall|k: Seq<u8>| #[trigger]
            policy::find(policy::buried(items, key), k) == if k == key {
                None
            } else {
                policy::find(items, k)
            },
{
    let after = policy::buried(items, key);
    assert forall|a: int, b: int|
        0 <= a < b < after.len() && after[a].live && after[b].live implies (#[trigger] after[a]).key
        != (#[trigger] after[b]).key by {
        assert(items[a].key != items[b].key);
    }
    assert forall|k: Seq<u8>| #[trigger]
        policy::find(after, k) == if k == key {
            None
        } else {
            policy::find(items, k)
        } by {
        if exists|i: int| policy::at(after, k, i) {
            let i = choose|i: int| policy::at(after, k, i);
            assert(policy::at(after, k, i));
            assert(policy::at(items, k, i));
            find_is(items, k, i);
            find_is(after, k, i);
        } else if exists|i: int| policy::at(items, k, i) {
            let i = choose|i: int| policy::at(items, k, i);
            assert(policy::at(items, k, i));
            if k != key {
                assert(policy::at(after, k, i));
            }
        }
    }
}

/// Counting a read changes no answer but for that count.
proof fn touched_keeps(items: Seq<Item>, key: Seq<u8>)
    requires
        policy::unique(items),
    ensures
        policy::unique(policy::touched(items, key)),
        forall|k: Seq<u8>| same(#[trigger] policy::find(policy::touched(items, key), k), policy::find(items, k)),
{
    let after = policy::touched(items, key);
    assert forall|a: int, b: int|
        0 <= a < b < after.len() && after[a].live && after[b].live implies (#[trigger] after[a]).key
        != (#[trigger] after[b]).key by {
        assert(items[a].key != items[b].key);
    }
    assert forall|k: Seq<u8>| same(#[trigger] policy::find(after, k), policy::find(items, k)) by {
        if exists|i: int| policy::at(after, k, i) {
            let i = choose|i: int| policy::at(after, k, i);
            assert(policy::at(after, k, i));
            assert(policy::at(items, k, i));
            find_is(items, k, i);
            find_is(after, k, i);
        } else if exists|i: int| policy::at(items, k, i) {
            let i = choose|i: int| policy::at(items, k, i);
            assert(policy::at(items, k, i));
            assert(policy::at(after, k, i));
        }
    }
}

/// The last live entries of a queue are found without its dead ones.
proof fn live_only_keeps(items: Seq<Item>)
    requires
        policy::unique(items),
    ensures
        policy::unique(policy::live_only(items)),
        forall|k: Seq<u8>| #[trigger] policy::find(policy::live_only(items), k) == policy::find(items, k),
        forall|i: int|
            0 <= i < policy::live_only(items).len() ==> items.contains(
                #[trigger] policy::live_only(items)[i],
            ),
    decreases items.len(),
{
    if items.len() > 0 {
        let n = items.len() - 1;
        let head = items.drop_last();
        let e = items.last();
        let out = policy::live_only(items);
        assert(items.remove(n) =~= head);
        assert(head.insert(n, e) =~= items);
        removed(items, n);
        live_only_keeps(head);
        if e.live {
            assert(policy::at(items, e.key, n));
            assert(policy::find(policy::live_only(head), e.key) is None);
            inserted(policy::live_only(head), policy::live_only(head).len() as int, e);
            assert(out =~= policy::live_only(head).insert(
                policy::live_only(head).len() as int,
                e,
            ));
        }
        assert forall|k: Seq<u8>| #[trigger] policy::find(out, k) == policy::find(items, k) by {
            assert(policy::find(head, k) == if policy::at(items, k, n) {
                None
            } else {
                policy::find(items, k)
            });
            if policy::at(items, k, n) {
                find_is(items, k, n);
            }
        }
        assert forall|i: int| 0 <= i < out.len() implies items.contains(#[trigger] out[i]) by {
            if e.live && i == out.len() - 1 {
                assert(items[n] == out[i]);
            } else {
                let kept = policy::live_only(head);
                assert(out[i] == kept[i]);
                let j = choose|j: int| 0 <= j < head.len() && head[j] == kept[i];
                assert(items[j] == out[i]);
            }
        }
    }
}

proof fn live_only_concat(a: Seq<Item>, b: Seq<Item>)
    ensures
        policy::live_only(a + b) == policy::live_only(a) + policy::live_only(b),
    decreases b.len(),
{
    if b.len() == 0 {
        assert(a + b =~= a);
        assert(policy::live_only(a) + policy::live_only(b) =~= policy::live_only(a));
    } else {
        assert((a + b).drop_last() =~= a + b.drop_last());
        live_only_concat(a, b.drop_last());
        assert(policy::live_only(a + b) =~= policy::live_only(a) + policy::live_only(b));
    }
}

/// Marking a key's entry as dead frees what it was charged for.
proof fn buried_total(items: Seq<Item>, key: Seq<u8>)
    requires
        policy::unique(items),
    ensures
        policy::total(policy::buried(items, key), policy::live_one()) + (if policy::find(items, key) is Some {
            1nat
        } else {
            0
        }) == policy::total(items, policy::live_one()),
        policy::total(policy::buried(items, key), policy::live_cost()) + (match policy::find(items, key) {
            Some(e) => e.cost(),
            None => 0,
        }) == policy::total(items, policy::live_cost()),
{
    let after = policy::buried(items, key);
    if exists|i: int| policy::at(items, key, i) {
        let i = choose|i: int| policy::at(items, key, i);
        find_is(items, key, i);
        let e = Item { live: false, ..items[i] };
        assert forall|j: int| 0 <= j < items.len() && j != i implies after[j] == items[j] by {
            if policy::at(items, key, j) {
                find_is(items, key, j);
                if i < j {
                    assert(items[i].key != items[j].key);
                } else {
                    assert(items[j].key != items[i].key);
                }
            }
        }
        assert(after =~= items.update(i, e));
        policy::total_update(items, i, e, policy::live_one());
        policy::total_update(items, i, e, policy::live_cost());
    } else {
        assert forall|j: int| 0 <= j < items.len() implies after[j] == items[j] by {
            assert(!policy::at(items, key, j));
        }
        assert(after =~= items);
    }
}

/// Deleting from a valid state: the key is gone, its bytes are free, and every
/// other answer is as before.
proof fn kill_keeps(s: State, key: Seq<u8>)
    requires
        s.valid(),
    ensures
        ({
            let t = s.kill(key);
            &&& t.valid()
            &&& t.all() == policy::buried(s.all(), key)
            &&& forall|k: Seq<u8>| #[trigger]
                policy::find(t.all(), k) == if k == key {
                    None
                } else {
                    policy::find(s.all(), k)
                }
            &&& t.count() + (if s.contains(key) {
                1nat
            } else {
                0
            }) == s.count()
            &&& t.used() + (if s.contains(key) {
                s.item(key).cost()
            } else {
                0
            }) == s.used()
        }),
{
    let t = s.kill(key);
    assert(t.all() =~= policy::buried(s.all(), key));
    buried_keeps(s.all(), key);
    buried_total(s.all(), key);
    policy::total_concat(s.small, s.main, policy::live_one());
    policy::total_concat(s.small, s.main, policy::live_cost());
    policy::total_concat(t.small, t.main, policy::live_one());
    policy::total_concat(t.small, t.main, policy::live_cost());
    assert forall|i: int| 0 <= i < t.all().len() implies (#[trigger] t.all()[i]).freq
        <= FREQ_CAP by {
        assert(s.all()[i].freq <= FREQ_CAP);
    }
}

/// Dropping dead entries changes no answer and no count of live entries.
proof fn compacted_keeps(s: State)
    requires
        s.valid(),
    ensures
        ({
            let t = s.compacted();
            &&& t.valid()
            &&& forall|k: Seq<u8>| #[trigger] policy::find(t.all(), k) == policy::find(s.all(), k)
            &&& t.count() == s.count()
            &&& t.used() == s.used()
            &&& t.dead() <= t.capacity / 4
        }),
{
    let t = s.compacted();
    if s.dead() > s.capacity / 4 {
        live_only_concat(s.small, s.main);
        live_only_keeps(s.all());
        policy::total_live_only(s.small);
        policy::total_live_only(s.main);
        assert forall|i: int| 0 <= i < t.all().len() implies (#[trigger] t.all()[i]).freq
            <= FREQ_CAP by {
            assert(s.all().contains(policy::live_only(s.all())[i]));
        }
    }
}

/// A new entry answers for its key and changes no other answer.
proof fn enqueue_keeps(s: State, e: Item)
    requires
        s.valid(),
        e.live,
        e.freq == 0,
        !s.contains(e.key),
    ensures
        ({
            let t = s.enqueue(e);
            &&& t.valid()
            &&& forall|k: Seq<u8>| #[trigger]
                policy::find(t.all(), k) == if k == e.key {
                    Some(e)
                } else {
                    policy::find(s.all(), k)
                }
            &&& t.count() == s.count() + 1
            &&& t.used() == s.used() + e.cost()
        }),
{
    let t = s.enqueue(e);
    let n = if s.remembered.contains(e.hash) {
        s.all().len() as int
    } else {
        s.small.len() as int
    };
    policy::forgetting_takes_one_hash(s.remembered, e.hash);
    inserted(s.all(), n, e);
    assert(t.all() =~= s.all().insert(n, e));
    policy::total_push(s.main, e, policy::live_one());
    policy::total_push(s.main, e, policy::live_cost());
    policy::total_push(s.small, e, policy::live_one());
    policy::total_push(s.small, e, policy::live_cost());
    assert forall|i: int| 0 <= i < t.all().len() implies (#[trigger] t.all()[i]).freq
        <= FREQ_CAP by {
        if i < n {
            assert(t.all()[i] == s.all()[i]);
        } else if i > n {
            assert(t.all()[i] == s.all()[i - 1]);
        }
    }
}

// Laws

/// A write is read back, at once and whatever had to go for it.
pub proof fn a_write_is_read_back(s: State, key: Seq<u8>, value: Seq<u8>, hash: u64)
    requires
        s.valid(),
    ensures
        s.set(key, value, hash).valid(),
        s.set(key, value, hash).value(key) == Some(value),
        s.set(key, value, hash).item(key).hash == hash,
        s.set(key, value, hash).item(key).key == key,
{
    set_parts(s, key, value, hash);
}

/// A write changes no other key's value: that is as before, or evicted.
pub proof fn a_write_leaves_other_keys(
    s: State,
    key: Seq<u8>,
    value: Seq<u8>,
    hash: u64,
    other: Seq<u8>,
)
    requires
        s.valid(),
        other != key,
    ensures
        ({
            let t = s.set(key, value, hash);
            t.value(other) is None || t.value(other) == s.value(other) && t.item(other).hash
                == s.item(other).hash
        }),
{
    set_parts(s, key, value, hash);
}

/// A write that fits beside the rest evicts nothing: overwriting a key frees
/// its old entry's bytes first, and the new one's are then used.
pub proof fn a_write_that_fits_evicts_nothing(
    s: State,
    key: Seq<u8>,
    value: Seq<u8>,
    hash: u64,
    other: Seq<u8>,
)
    requires
        s.valid(),
        s.used() - (if s.contains(key) {
            s.item(key).cost()
        } else {
            0
        }) + (Item { key, value, hash, freq: 0, live: true }).cost() <= s.capacity,
        other != key,
    ensures
        s.set(key, value, hash).value(other) == s.value(other),
        s.set(key, value, hash).counts == s.counts,
        s.set(key, value, hash).used() == s.used() - (if s.contains(key) {
            s.item(key).cost()
        } else {
            0
        }) + (Item { key, value, hash, freq: 0, live: true }).cost(),
        s.set(key, value, hash).count() == s.count() + (if s.contains(key) {
            0nat
        } else {
            1
        }),
{
    set_parts(s, key, value, hash);
    kill_keeps(s, key);
}

/// Live entries stay within the budget, but for a single entry that exceeds it
/// alone.
pub proof fn the_budget_is_kept(s: State, key: Seq<u8>, value: Seq<u8>, hash: u64)
    requires
        s.valid(),
    ensures
        ({
            let t = s.set(key, value, hash);
            let e = Item { key, value, hash, freq: 0, live: true };
            &&& t.capacity == s.capacity
            &&& t.used() <= s.capacity || (t.count() == 1 && t.used() == e.cost())
            &&& e.cost() <= s.capacity ==> t.used() <= s.capacity
            &&& t.dead() <= s.capacity / 4
        }),
{
    set_parts(s, key, value, hash);
}

/// Every live entry that a write costs is counted as evicted; the entry it
/// replaces is not.
pub proof fn evictions_are_counted(s: State, key: Seq<u8>, value: Seq<u8>, hash: u64)
    requires
        s.valid(),
    ensures
        ({
            let t = s.set(key, value, hash);
            let others = s.count() - (if s.contains(key) {
                1int
            } else {
                0
            });
            &&& t.count() <= others + 1
            &&& t.counts.evictions == (s.counts.evictions + others + 1 - t.count())
                % 0x1_0000_0000_0000_0000
            &&& t.counts == (policy::Counts { evictions: t.counts.evictions, ..s.counts })
        }),
{
    set_parts(s, key, value, hash);
    kill_keeps(s, key);
}

/// A key whose hash is remembered from an eviction goes to the main queue, any
/// other to the small queue.
pub proof fn a_remembered_key_joins_the_main_queue(
    s: State,
    key: Seq<u8>,
    value: Seq<u8>,
    hash: u64,
)
    requires
        s.valid(),
    ensures
        ({
            let e = Item { key, value, hash, freq: 0, live: true };
            let t = s.set(key, value, hash);
            if s.kill(key).make_room(e.cost()).remembered.contains(hash) {
                t.main.len() > 0 && t.main.last() == e
            } else {
                t.small.len() > 0 && t.small.last() == e
            }
        }),
{
    let e = Item { key, value, hash, freq: 0, live: true };
    let room = s.kill(key).make_room(e.cost());
    let t = room.enqueue(e);
    if t.dead() > t.capacity / 4 {
        assert(policy::live_only(t.main).len() >= 0);
    }
}

/// An entry that was read more than once since it was stored is not evicted
/// from the small queue: when its turn comes it moves to the main queue.
pub proof fn a_hot_entry_is_promoted(s: State)
    requires
        s.valid(),
        s.small.len() > 0,
        s.small[0].live,
        s.small[0].freq > 1,
    ensures
        s.evict_small().value(s.small[0].key) == Some(s.small[0].value),
        s.evict_small().counts == s.counts,
        s.evict_small().main.last() == (Item { freq: 0, ..s.small[0] }),
{
    let e = s.small[0];
    let t = s.evict_small();
    turned(s.all(), 0, s.all().len() - 1, 0);
    assert(t.all() =~= s.all().remove(0).insert(s.all().len() - 1, Item { freq: 0, ..e }));
    assert(policy::at(s.all(), e.key, 0));
    find_is(s.all(), e.key, 0);
    assert(same(policy::find(t.all(), e.key), policy::find(s.all(), e.key)));
}

/// The parts of a write, put together.
proof fn set_parts(s: State, key: Seq<u8>, value: Seq<u8>, hash: u64)
    requires
        s.valid(),
    ensures
        ({
            let e = Item { key, value, hash, freq: 0, live: true };
            let killed = s.kill(key);
            let room = killed.make_room(e.cost());
            let t = s.set(key, value, hash);
            &&& t.valid()
            &&& policy::find(t.all(), key) == Some(e)
            &&& forall|k: Seq<u8>|
                k != key ==> #[trigger] policy::find(t.all(), k) is None || same(
                    policy::find(t.all(), k),
                    policy::find(s.all(), k),
                )
            &&& !killed.crowded(e.cost()) ==> forall|k: Seq<u8>|
                k != key ==> #[trigger] policy::find(t.all(), k) == policy::find(s.all(), k)
            &&& room_made(killed, room)
            &&& !killed.crowded(e.cost()) ==> room == killed
            &&& t.capacity == s.capacity
            &&& t.counts == room.counts
            &&& t.count() == room.count() + 1
            &&& t.used() == room.used() + e.cost()
            &&& t.used() <= s.capacity || (t.count() == 1 && t.used() == e.cost())
            &&& t.dead() <= t.capacity / 4
        }),
{
    let e = Item { key, value, hash, freq: 0, live: true };
    let killed = s.kill(key);
    let room = killed.make_room(e.cost());
    let joined = room.enqueue(e);
    let t = joined.compacted();
    kill_keeps(s, key);
    make_room_keeps(killed, e.cost());
    assert(policy::find(killed.all(), key) is None);
    assert(policy::find(room.all(), key) is None);
    enqueue_keeps(room, e);
    compacted_keeps(joined);
    assert(policy::find(t.all(), key) == policy::find(joined.all(), key));
    assert forall|k: Seq<u8>| k != key implies #[trigger] policy::find(t.all(), k) is None || same(
        policy::find(t.all(), k),
        policy::find(s.all(), k),
    ) by {
        assert(policy::find(t.all(), k) == policy::find(joined.all(), k));
        assert(policy::find(joined.all(), k) == policy::find(room.all(), k));
        assert(policy::find(room.all(), k) is None || same(policy::find(room.all(), k), policy::find(killed.all(), k)));
        assert(policy::find(killed.all(), k) == policy::find(s.all(), k));
    }
    if !killed.crowded(e.cost()) {
        assert forall|k: Seq<u8>| k != key implies #[trigger] policy::find(t.all(), k) == policy::find(
            s.all(),
            k,
        ) by {
            assert(policy::find(t.all(), k) == policy::find(joined.all(), k));
            assert(policy::find(joined.all(), k) == policy::find(room.all(), k));
            assert(policy::find(killed.all(), k) == policy::find(s.all(), k));
        }
    }
    if room.all().len() == 0 {
        assert(room.small.len() == 0 && room.main.len() == 0);
    }
}

/// A deleted key is gone, its bytes are free, and no other key is touched.
pub proof fn a_delete_takes_one_key(s: State, key: Seq<u8>, other: Seq<u8>)
    requires
        s.valid(),
    ensures
        ({
            let t = s.del(key);
            &&& t.valid()
            &&& t.capacity == s.capacity
            &&& t.value(key) is None
            &&& other != key ==> t.value(other) == s.value(other) && t.item(other) == s.item(other)
            &&& t.count() == s.count() - (if s.contains(key) {
                1int
            } else {
                0
            })
            &&& t.used() == s.used() - (if s.contains(key) {
                s.item(key).cost() as int
            } else {
                0
            })
        }),
{
    kill_keeps(s, key);
    if s.contains(key) {
        compacted_keeps(s.kill(key));
        assert(policy::find(s.kill(key).compacted().all(), key) == policy::find(s.kill(key).all(), key));
        assert(policy::find(s.kill(key).compacted().all(), other) == policy::find(s.kill(key).all(), other));
    }
    assert(s.del(key).all() == if s.contains(key) {
        s.kill(key).compacted().all()
    } else {
        s.all()
    });
}

/// A read changes no value, and nothing that is counted but reads.
pub proof fn a_read_changes_no_value(s: State, key: Seq<u8>, other: Seq<u8>)
    requires
        s.valid(),
    ensures
        ({
            let t = s.read(key);
            &&& t.valid()
            &&& t.capacity == s.capacity
            &&& t.value(other) == s.value(other)
            &&& t.contains(other) ==> t.item(other).hash == s.item(other).hash
            &&& t.used() == s.used()
            &&& t.count() == s.count()
            &&& t.dead() == s.dead()
        }),
{
    let t = s.read(key);
    if s.contains(key) {
        touched_keeps(s.all(), key);
        assert(t.all() =~= policy::touched(s.all(), key));
        assert(same(policy::find(t.all(), other), policy::find(s.all(), other)));
        touched_total(s.small, key);
        touched_total(s.main, key);
        assert forall|i: int| 0 <= i < t.all().len() implies (#[trigger] t.all()[i]).freq
            <= FREQ_CAP by {
            assert(s.all()[i].freq <= FREQ_CAP);
        }
    } else {
        assert(t.all() == s.all());
    }
}

/// What entries are charged for does not depend on reads.
proof fn touched_total(items: Seq<Item>, key: Seq<u8>)
    ensures
        policy::total(policy::touched(items, key), policy::live_one()) == policy::total(
            items,
            policy::live_one(),
        ),
        policy::total(policy::touched(items, key), policy::live_cost()) == policy::total(
            items,
            policy::live_cost(),
        ),
        policy::total(policy::touched(items, key), policy::dead_cost()) == policy::total(
            items,
            policy::dead_cost(),
        ),
    decreases items.len(),
{
    if items.len() > 0 {
        let after = policy::touched(items, key);
        touched_total(items.drop_last(), key);
        assert(after.drop_last() =~= policy::touched(items.drop_last(), key));
    }
}

// What decides who stays

/// Entries with one read fewer to their credit.
pub open spec fn aged(items: Seq<Item>) -> Seq<Item> {
    items.map_values(|e: Item| Item { freq: (e.freq - 1) as nat, ..e })
}

/// Entries at the head of the main queue that were read are passed over: each
/// goes to the end with one read fewer, and the next one is looked at.
pub proof fn read_entries_are_passed_over(main: Seq<Item>, n: int)
    requires
        0 <= n <= main.len(),
        forall|i: int| 0 <= i < n ==> (#[trigger] main[i]).live && main[i].freq > 0,
    ensures
        policy::evicted_main(main) == policy::evicted_main(main.skip(n) + aged(main.take(n))),
    decreases n,
{
    if n == 0 {
        assert(main.skip(0) + aged(main.take(0)) =~= main);
    } else {
        let e = main[0];
        let spared = Item { freq: (e.freq - 1) as nat, ..e };
        let next = main.drop_first().push(spared);
        assert forall|i: int| 0 <= i < n - 1 implies (#[trigger] next[i]).live && next[i].freq
            > 0 by {
            assert(next[i] == main[i + 1]);
        }
        policy::total_front(main, policy::freq());
        policy::total_push(main.drop_first(), spared, policy::freq());
        read_entries_are_passed_over(next, n - 1);
        assert(next.skip(n - 1) + aged(next.take(n - 1)) =~= main.skip(n) + aged(main.take(n)));
    }
}

/// The first entry of the main queue that is dead or has not been read is the
/// one that leaves, as it is. Those before it are behind the rest afterwards,
/// in their order and with one read fewer; those after it are untouched.
pub proof fn the_first_unread_entry_leaves(main: Seq<Item>, p: int)
    requires
        0 <= p < main.len(),
        !main[p].live || main[p].freq == 0,
        forall|i: int| 0 <= i < p ==> (#[trigger] main[i]).live && main[i].freq > 0,
    ensures
        policy::evicted_main(main).1 == main[p],
        policy::evicted_main(main).0 == main.skip(p + 1) + aged(main.take(p)),
{
    read_entries_are_passed_over(main, p);
    let turned = main.skip(p) + aged(main.take(p));
    assert(turned[0] == main[p]);
    assert(turned.drop_first() =~= main.skip(p + 1) + aged(main.take(p)));
}

/// When every entry of the main queue was read, none leaves before each has
/// lost one read.
pub proof fn where_all_were_read_each_loses_one(main: Seq<Item>)
    requires
        forall|i: int| 0 <= i < main.len() ==> (#[trigger] main[i]).live && main[i].freq > 0,
    ensures
        policy::evicted_main(main) == policy::evicted_main(aged(main)),
{
    read_entries_are_passed_over(main, main.len() as int);
    assert(main.skip(main.len() as int) + aged(main.take(main.len() as int)) =~= aged(main));
}

/// Whatever leaves the main queue is dead, or has no read left to its credit.
pub proof fn only_an_unread_entry_leaves(main: Seq<Item>)
    requires
        main.len() > 0,
    ensures
        !policy::evicted_main(main).1.live || policy::evicted_main(main).1.freq == 0,
    decreases policy::total(main, policy::freq()),
{
    let e = main[0];
    let rest = main.drop_first();
    if e.live && e.freq > 0 {
        let spared = Item { freq: (e.freq - 1) as nat, ..e };
        policy::total_front(main, policy::freq());
        policy::total_push(rest, spared, policy::freq());
        only_an_unread_entry_leaves(rest.push(spared));
    }
}

/// While some entry of the main queue is dead or unread, one that was read is
/// still there after an eviction, with its value.
pub proof fn a_read_entry_outlasts_an_unread_one(s: State, i: int, j: int)
    requires
        s.valid(),
        0 <= i < s.main.len(),
        s.main[i].live,
        s.main[i].freq > 0,
        0 <= j < s.main.len(),
        !s.main[j].live || s.main[j].freq == 0,
    ensures
        s.evict_main().value(s.main[i].key) == Some(s.main[i].value),
        s.value(s.main[i].key) == Some(s.main[i].value),
{
    let p = first_unread(s.main, j);
    the_first_unread_entry_leaves(s.main, p);
    let key = s.main[i].key;
    let n = s.small.len() as int;
    assert(s.all()[n + i] == s.main[i]);
    assert(policy::at(s.all(), key, n + i));
    find_is(s.all(), key, n + i);
    evicted_main_keeps(s.small, s.main);
    let t = s.evict_main();
    let k = if i > p {
        i - p - 1
    } else {
        s.main.len() - p - 1 + i
    };
    assert(t.main[k].key == key && t.main[k].live);
    assert(t.all()[n + k] == t.main[k]);
    assert(policy::at(t.all(), key, n + k));
    assert(policy::find(t.all(), key) is Some);
    assert(same(policy::find(t.all(), key), policy::find(s.all(), key)));
}

proof fn first_unread(main: Seq<Item>, j: int) -> (p: int)
    requires
        0 <= j < main.len(),
        !main[j].live || main[j].freq == 0,
    ensures
        0 <= p <= j,
        !main[p].live || main[p].freq == 0,
        forall|i: int| 0 <= i < p ==> (#[trigger] main[i]).live && main[i].freq > 0,
    decreases j,
{
    if exists|i: int| 0 <= i < j && (!(#[trigger] main[i]).live || main[i].freq == 0) {
        let i = choose|i: int| 0 <= i < j && (!(#[trigger] main[i]).live || main[i].freq == 0);
        first_unread(main, i)
    } else {
        j
    }
}

/// Room is made from the small queue while that holds a tenth of the budget:
/// nothing leaves the main queue then. Below a tenth it is the main queue's
/// turn, as long as there is anything in it, and the small queue stays as it is.
pub proof fn the_small_queue_is_held_to_a_tenth(s: State)
    requires
        s.all().len() > 0,
    ensures
        10 * (s.small_bytes() + 1) > s.capacity && s.small.len() > 0 ==> s.main.is_prefix_of(
            s.evict_one().main,
        ) && s.evict_one().small == s.small.drop_first(),
        10 * (s.small_bytes() + 1) <= s.capacity && s.main.len() > 0 ==> s.evict_one().small
            == s.small && s.evict_one().main.len() == s.main.len() - 1
            && s.evict_one().remembered == s.remembered,
{
    if s.main.len() > 0 {
        policy::evicted_main_takes_one(s.main);
    }
}

/// An entry that was read no more than once leaves from the small queue: it is
/// gone, counted, and its hash remembered. Of the hashes remembered before, none
/// is forgotten while there are fewer than 64, or than entries in the main queue.
pub proof fn an_entry_hardly_read_leaves(s: State)
    requires
        s.valid(),
        s.small.len() > 0,
        s.small[0].live,
        s.small[0].freq <= 1,
    ensures
        ({
            let e = s.small[0];
            let t = s.evict_small();
            &&& t.value(e.key) is None
            &&& t.main == s.main
            &&& t.remembered.contains(e.hash) || s.remembered.contains(e.hash)
            &&& !s.remembered.contains(e.hash) ==> t.remembered.last() == e.hash
            &&& t.remembered.len() <= 64 || t.remembered.len() <= s.main.len()
            &&& s.remembered.len() < 64 || s.remembered.len() < s.main.len() ==> forall|h: u64|
                s.remembered.contains(h) ==> #[trigger] t.remembered.contains(h)
            &&& t.counts == (policy::Counts {
                evictions: s.counts.evictions.wrapping_add(1),
                ..s.counts
            })
        }),
{
    let e = s.small[0];
    let t = s.evict_small();
    let limit = policy::ghost_limit(s.main.len());
    assert(s.all()[0] == e);
    assert(policy::at(s.all(), e.key, 0));
    removed(s.all(), 0);
    assert(t.all() =~= s.all().remove(0));
    if !s.remembered.contains(e.hash) {
        policy::the_newest_hashes_are_remembered(s.remembered, e.hash, limit);
    }
}

/// A dead entry leaves from the small queue without a trace.
pub proof fn a_dead_entry_just_leaves(s: State)
    requires
        s.small.len() > 0,
        !s.small[0].live,
    ensures
        s.evict_small() == (State { small: s.small.drop_first(), ..s }),
{
}

/// A read is to the credit of the entry that was read, up to three of them, and
/// of no other. It moves nothing, and is counted as a hit; a read that finds
/// nothing is counted as a miss and does nothing else.
pub proof fn a_read_is_to_an_entrys_credit(s: State, key: Seq<u8>)
    requires
        s.valid(),
    ensures
        ({
            let t = s.read(key);
            &&& s.contains(key) ==> {
                &&& t.counts == (policy::Counts {
                    get_hits: s.counts.get_hits.wrapping_add(1),
                    ..s.counts
                })
                &&& t.item(key).freq == if s.item(key).freq < 3 {
                    s.item(key).freq + 1
                } else {
                    3
                }
            }
            &&& !s.contains(key) ==> t == (State {
                counts: policy::Counts {
                    get_misses: s.counts.get_misses.wrapping_add(1),
                    ..s.counts
                },
                ..s
            })
            &&& t.remembered == s.remembered
            &&& t.all().len() == s.all().len()
            &&& t.small.len() == s.small.len()
            &&& forall|i: int|
                0 <= i < s.all().len() ==> (#[trigger] t.all()[i]) == (Item {
                    freq: t.all()[i].freq,
                    ..s.all()[i]
                })
            &&& forall|i: int|
                0 <= i < s.all().len() && !policy::at(s.all(), key, i) ==> #[trigger] t.all()[i]
                    == s.all()[i]
        }),
{
    let t = s.read(key);
    if s.contains(key) {
        assert(t.all() =~= policy::touched(s.all(), key));
        touched_keeps(s.all(), key);
        let i = choose|i: int| policy::at(s.all(), key, i);
        find_is(s.all(), key, i);
        assert(policy::at(t.all(), key, i));
        find_is(t.all(), key, i);
        assert(s.all()[i].freq <= FREQ_CAP);
    } else {
        assert(t.all() == s.all());
    }
}

/// Every delete is counted, as a hit where it removed an entry and as a miss
/// where there was none; nothing else is counted.
pub proof fn deletes_are_counted(s: State, key: Seq<u8>)
    ensures
        s.del(key).counts == if s.contains(key) {
            policy::Counts { del_hits: s.counts.del_hits.wrapping_add(1), ..s.counts }
        } else {
            policy::Counts { del_misses: s.counts.del_misses.wrapping_add(1), ..s.counts }
        },
        !s.contains(key) ==> s.del(key).all() == s.all(),
        s.del(key).remembered == s.remembered,
{
}

/// Dead entries are dropped once they hold more than a quarter of the budget,
/// all of them; live ones stay, in their order.
pub proof fn only_dead_entries_are_dropped(s: State)
    ensures
        4 * (s.dead() - 1) >= s.capacity && s.dead() > 0 ==> s.compacted() == (State {
            small: s.small.filter(|e: Item| e.live),
            main: s.main.filter(|e: Item| e.live),
            ..s
        }),
        4 * s.dead() <= s.capacity ==> s.compacted() == s,
{
    live_only_is_a_filter(s.small);
    live_only_is_a_filter(s.main);
}

proof fn live_only_is_a_filter(items: Seq<Item>)
    ensures
        policy::live_only(items) == items.filter(|e: Item| e.live),
    decreases items.len(),
{
    reveal(Seq::filter);
    if items.len() > 0 {
        live_only_is_a_filter(items.drop_last());
    }
}

/// An entry is charged for its key, its value, and 128 bytes more; what is
/// stored starts unread, and is no longer remembered as evicted.
pub proof fn what_is_stored_starts_afresh(s: State, key: Seq<u8>, value: Seq<u8>, hash: u64)
    requires
        s.valid(),
    ensures
        ({
            let t = s.set(key, value, hash);
            &&& t.item(key) == (Item { key, value, hash, freq: 0, live: true })
            &&& t.item(key).cost() == key.len() + value.len() + 128
            &&& !t.remembered.contains(hash)
        }),
{
    set_parts(s, key, value, hash);
    let e = Item { key, value, hash, freq: 0, live: true };
    kill_keeps(s, key);
    make_room_keeps(s.kill(key), e.cost());
    policy::forgetting_takes_one_hash(s.kill(key).make_room(e.cost()).remembered, hash);
}

/// What is left after `n` steps of making room.
pub open spec fn after_steps(s: State, n: nat) -> State
    decreases n,
{
    if n == 0 {
        s
    } else {
        after_steps(s, (n - 1) as nat).evict_one()
    }
}

/// Room is made step by step, and no step is taken that is not needed: before
/// each of them the entry did not fit beside what was there.
pub proof fn no_more_is_evicted_than_needed(s: State, cost: nat) -> (n: nat)
    ensures
        s.make_room(cost) == after_steps(s, n),
        forall|m: nat|
            m < n ==> (#[trigger] after_steps(s, m)).used() + cost > s.capacity && after_steps(
                s,
                m,
            ).all().len() > 0,
        after_steps(s, n).used() + cost <= s.capacity || after_steps(s, n).all().len() == 0,
    decreases s.small.len() + s.main.len(), s.small.len(),
{
    if s.crowded(cost) {
        s.evict_one_shrinks();
        let t = s.evict_one();
        let n = no_more_is_evicted_than_needed(t, cost);
        assert forall|m: nat| m <= n implies #[trigger] after_steps(s, m + 1) == after_steps(
            t,
            m,
        ) by {
            one_step_first(s, m);
        }
        assert forall|m: nat| m < n + 1 implies (#[trigger] after_steps(s, m)).used() + cost
            > s.capacity && after_steps(s, m).all().len() > 0 by {
            if m > 0 {
                assert(after_steps(s, ((m - 1) as nat) + 1) == after_steps(t, (m - 1) as nat));
            }
        }
        assert(after_steps(s, n + 1) == after_steps(t, n));
        n + 1
    } else {
        0
    }
}

proof fn one_step_first(s: State, m: nat)
    ensures
        after_steps(s, m + 1) == after_steps(s.evict_one(), m),
    decreases m,
{
    reveal_with_fuel(after_steps, 2);
    if m > 0 {
        one_step_first(s, (m - 1) as nat);
    }
}

/// A hash that is remembered already keeps its place: what is remembered
/// afterwards is what was, but for the oldest beyond the limit.
pub proof fn a_hash_remembered_again_keeps_its_place(remembered: Seq<u64>, hash: u64, limit: nat)
    requires
        remembered.contains(hash),
    ensures
        ({
            let after = policy::remember(remembered, hash, limit);
            &&& remembered.len() <= limit ==> after == remembered
            &&& remembered.len() > limit ==> after.len() == limit && remembered == remembered.take(
                remembered.len() - limit,
            ) + after
        }),
{
    let after = policy::remember(remembered, hash, limit);
    if remembered.len() > limit {
        assert(remembered =~= remembered.take(remembered.len() - limit) + after);
    }
}

/// As many hashes are remembered as there are entries in the main queue, and 64
/// where there are fewer.
pub proof fn as_many_hashes_as_main_entries(main: nat, more: nat)
    ensures
        policy::ghost_limit(main) >= 64,
        policy::ghost_limit(main) >= main,
        policy::ghost_limit(main) == 64 || policy::ghost_limit(main) == main,
        policy::ghost_limit(main) <= policy::ghost_limit(main + more),
{
}

/// An entry of the small queue is charged to it until it leaves, dead or not;
/// an entry of the main queue is not.
pub proof fn the_small_queue_is_charged_for_its_dead(s: State, key: Seq<u8>, e: Item)
    ensures
        s.kill(key).small_bytes() == s.small_bytes(),
        s.read(key).small_bytes() == s.small_bytes(),
        s.enqueue(e).small_bytes() == s.small_bytes() + if s.remembered.contains(e.hash) {
            0
        } else {
            e.cost()
        },
        s.main.len() > 0 ==> s.evict_main().small_bytes() == s.small_bytes(),
        s.small.len() > 0 ==> s.evict_small().small_bytes() == s.small_bytes() - s.small[0].cost(),
{
    buried_cost(s.small, key);
    touched_cost(s.small, key);
    policy::total_push(s.small, e, policy::cost());
    if s.small.len() > 0 {
        policy::total_front(s.small, policy::cost());
    }
}

proof fn buried_cost(items: Seq<Item>, key: Seq<u8>)
    ensures
        policy::total(policy::buried(items, key), policy::cost()) == policy::total(
            items,
            policy::cost(),
        ),
    decreases items.len(),
{
    if items.len() > 0 {
        buried_cost(items.drop_last(), key);
        assert(policy::buried(items, key).drop_last() =~= policy::buried(items.drop_last(), key));
    }
}

proof fn touched_cost(items: Seq<Item>, key: Seq<u8>)
    ensures
        policy::total(policy::touched(items, key), policy::cost()) == policy::total(
            items,
            policy::cost(),
        ),
    decreases items.len(),
{
    if items.len() > 0 {
        touched_cost(items.drop_last(), key);
        assert(policy::touched(items, key).drop_last() =~= policy::touched(items.drop_last(), key));
    }
}

/// A write that needs no room moves nothing: every entry keeps its place, its
/// reads and its value, the old one of the key is dead where it is, and the new
/// one stands behind its queue.
pub proof fn a_write_that_needs_no_room_moves_nothing(
    s: State,
    key: Seq<u8>,
    value: Seq<u8>,
    hash: u64,
)
    requires
        s.kill(key).used() + key.len() + value.len() + 128 <= s.capacity,
        4 * s.kill(key).dead() <= s.capacity,
    ensures
        ({
            let t = s.set(key, value, hash);
            let e = Item { key, value, hash, freq: 0, live: true };
            let remembered = s.remembered.contains(hash);
            &&& t.small.len() == s.small.len() + if remembered {
                0int
            } else {
                1
            }
            &&& t.main.len() == s.main.len() + if remembered {
                1int
            } else {
                0
            }
            &&& forall|i: int|
                0 <= i < s.small.len() ==> (#[trigger] t.small[i]) == if policy::at(
                    s.small,
                    key,
                    i,
                ) {
                    Item { live: false, ..s.small[i] }
                } else {
                    s.small[i]
                }
            &&& forall|i: int|
                0 <= i < s.main.len() ==> (#[trigger] t.main[i]) == if policy::at(s.main, key, i) {
                    Item { live: false, ..s.main[i] }
                } else {
                    s.main[i]
                }
            &&& if remembered {
                t.main.last() == e
            } else {
                t.small.last() == e
            }
        }),
{
    let e = Item { key, value, hash, freq: 0, live: true };
    let k = s.kill(key);
    assert(k.make_room(e.cost()) == k);
    let q = k.enqueue(e);
    policy::total_push(k.small, e, policy::dead_cost());
    policy::total_push(k.main, e, policy::dead_cost());
    assert(q.dead() == k.dead());
}

/// A new shard holds nothing, has counted nothing and remembers nothing.
pub proof fn a_new_shard_holds_nothing(capacity: nat, key: Seq<u8>)
    ensures
        ({
            let s = State::empty(capacity);
            &&& s.valid()
            &&& s.value(key) is None
            &&& s.capacity == capacity
            &&& s.used() == 0 && s.dead() == 0 && s.count() == 0
            &&& s.remembered.len() == 0
            &&& s.counts.get_hits == 0 && s.counts.get_misses == 0 && s.counts.del_hits == 0
                && s.counts.del_misses == 0 && s.counts.evictions == 0
        }),
{
    let s = State::empty(capacity);
    if s.contains(key) {
        let i = choose|i: int| policy::at(s.all(), key, i);
        assert(policy::at(s.all(), key, i));
    }
}

} // verus!
