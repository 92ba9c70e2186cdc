//! What an S3-FIFO shard does, as a function from state to state.
//!
//! A new entry joins the small queue, or the main queue when its hash is still
//! remembered from an earlier eviction. Room is made from the small queue while
//! that holds its share of the budget, else from the main queue. An entry that
//! was read more than once moves from the small queue to the main queue when
//! its turn comes; one that was read at all is spared in the main queue, once
//! per read. Removed entries stay in their queue, dead, until they reach its
//! head or too many have gathered.

use super::heap::{Item, ENTRY_OVERHEAD, FREQ_CAP};
use vstd::prelude::*;

verus! {

/// Minimum number of hashes remembered, however short the main queue.
pub const GHOST_MIN: usize = 64;

/// Counts of what a shard has done, modulo 2^64.
pub struct Counts {
    pub get_hits: u64,
    pub get_misses: u64,
    pub del_hits: u64,
    pub del_misses: u64,
    /// Live entries evicted to make room.
    pub evictions: u64,
}

/// The state of a shard.
#[verifier::ext_equal]
pub struct State {
    /// Byte budget of live entries.
    pub capacity: nat,
    /// The queues, next to be looked at first, dead entries included.
    pub small: Seq<Item>,
    pub main: Seq<Item>,
    /// The hashes that are remembered of evicted entries, oldest first.
    pub remembered: Seq<u64>,
    pub counts: Counts,
}

// Sums over a queue

/// The sum of `w` over a queue.
pub open spec fn total(items: Seq<Item>, w: spec_fn(Item) -> nat) -> nat
    decreases items.len(),
{
    if items.len() == 0 {
        0
    } else {
        total(items.drop_last(), w) + w(items.last())
    }
}

/// What an entry is charged for.
pub open spec fn cost() -> spec_fn(Item) -> nat {
    |e: Item| e.cost()
}

/// What a live entry is charged for.
pub open spec fn live_cost() -> spec_fn(Item) -> nat {
    |e: Item|
        if e.live {
            e.cost()
        } else {
            0
        }
}

/// What a dead entry is charged for.
pub open spec fn dead_cost() -> spec_fn(Item) -> nat {
    |e: Item|
        if e.live {
            0
        } else {
            e.cost()
        }
}

/// One for a live entry.
pub open spec fn live_one() -> spec_fn(Item) -> nat {
    |e: Item|
        if e.live {
            1
        } else {
            0
        }
}

/// How often an entry will be spared.
pub open spec fn freq() -> spec_fn(Item) -> nat {
    |e: Item| e.freq
}

pub proof fn total_push(items: Seq<Item>, e: Item, w: spec_fn(Item) -> nat)
    ensures
        total(items.push(e), w) == total(items, w) + w(e),
{
    assert(items.push(e).drop_last() =~= items);
}

pub proof fn total_front(items: Seq<Item>, w: spec_fn(Item) -> nat)
    requires
        items.len() > 0,
    ensures
        total(items, w) == w(items[0]) + total(items.drop_first(), w),
    decreases items.len(),
{
    if items.len() == 1 {
        assert(items.drop_last() =~= Seq::<Item>::empty());
        assert(items.drop_first() =~= Seq::<Item>::empty());
    } else {
        total_front(items.drop_last(), w);
        assert(items.drop_first().drop_last() =~= items.drop_last().drop_first());
        assert(items.drop_first().last() == items.last());
    }
}

pub proof fn total_update(items: Seq<Item>, i: int, e: Item, w: spec_fn(Item) -> nat)
    requires
        0 <= i < items.len(),
    ensures
        total(items.update(i, e), w) + w(items[i]) == total(items, w) + w(e),
    decreases items.len(),
{
    let after = items.update(i, e);
    if i == items.len() - 1 {
        assert(after.drop_last() =~= items.drop_last());
    } else {
        assert(after.drop_last() =~= items.drop_last().update(i, e));
        total_update(items.drop_last(), i, e, w);
    }
}

pub proof fn total_concat(a: Seq<Item>, b: Seq<Item>, w: spec_fn(Item) -> nat)
    ensures
        total(a + b, w) == total(a, w) + total(b, w),
    decreases b.len(),
{
    if b.len() == 0 {
        assert(a + b =~= a);
    } else {
        assert((a + b).drop_last() =~= a + b.drop_last());
        total_concat(a, b.drop_last(), w);
    }
}

pub proof fn total_member(items: Seq<Item>, i: int, w: spec_fn(Item) -> nat)
    requires
        0 <= i < items.len(),
    ensures
        w(items[i]) <= total(items, w),
    decreases items.len(),
{
    if i < items.len() - 1 {
        total_member(items.drop_last(), i, w);
        assert(items.drop_last()[i] == items[i]);
    }
}

/// Live and dead entries together are charged for what all are.
pub proof fn total_split(items: Seq<Item>)
    ensures
        total(items, cost()) == total(items, live_cost()) + total(items, dead_cost()),
    decreases items.len(),
{
    if items.len() > 0 {
        total_split(items.drop_last());
    }
}

/// Every entry is charged for its overhead at least.
pub proof fn total_bound(items: Seq<Item>)
    ensures
        total(items, cost()) >= ENTRY_OVERHEAD * items.len(),
        total(items, live_cost()) >= ENTRY_OVERHEAD * total(items, live_one()),
        total(items, live_one()) <= items.len(),
    decreases items.len(),
{
    if items.len() > 0 {
        total_bound(items.drop_last());
    }
}

// Looking a key up

/// The live entry for a key is at `i`.
pub open spec fn at(items: Seq<Item>, key: Seq<u8>, i: int) -> bool {
    0 <= i < items.len() && items[i].live && items[i].key == key
}

/// The live entry for a key, if there is one.
pub open spec fn find(items: Seq<Item>, key: Seq<u8>) -> Option<Item> {
    if exists|i: int| at(items, key, i) {
        Some(items[choose|i: int| at(items, key, i)])
    } else {
        None
    }
}

/// No key has two live entries.
pub open spec fn unique(items: Seq<Item>) -> bool {
    forall|i: int, j: int|
        0 <= i < j < items.len() && items[i].live && items[j].live ==> (#[trigger] items[i]).key
            != (#[trigger] items[j]).key
}

// Steps

/// The newest hashes, as many as `limit` says.
pub open spec fn newest(remembered: Seq<u64>, limit: nat) -> Seq<u64> {
    if remembered.len() <= limit {
        remembered
    } else {
        remembered.skip(remembered.len() - limit)
    }
}

/// How many hashes are remembered beside a main queue of `main` entries.
pub open spec fn ghost_limit(main: nat) -> nat {
    if main > GHOST_MIN {
        main
    } else {
        GHOST_MIN as nat
    }
}

/// Remembers a hash, and forgets the oldest beyond the limit.
pub open spec fn remember(remembered: Seq<u64>, hash: u64, limit: nat) -> Seq<u64> {
    if remembered.contains(hash) {
        newest(remembered, limit)
    } else {
        newest(remembered.push(hash), limit)
    }
}

/// Forgets a hash; the others stay in their order.
pub open spec fn forget(remembered: Seq<u64>, hash: u64) -> Seq<u64> {
    if remembered.contains(hash) {
        remembered.remove(remembered.index_of(hash))
    } else {
        remembered
    }
}

/// A hash that is remembered anew is, and of the others only the oldest beyond
/// the limit are forgotten: as long as there are no more than that, none is.
pub proof fn the_newest_hashes_are_remembered(remembered: Seq<u64>, hash: u64, limit: nat)
    requires
        remembered.no_duplicates(),
        !remembered.contains(hash),
        limit > 0,
    ensures
        ({
            let after = remember(remembered, hash, limit);
            &&& after.no_duplicates()
            &&& after.contains(hash)
            &&& after.len() == if remembered.len() < limit {
                remembered.len() + 1
            } else {
                limit
            }
            &&& after == newest(remembered, (limit - 1) as nat).push(hash)
            &&& remembered.len() < limit ==> forall|h: u64| #[trigger]
                after.contains(h) <==> remembered.contains(h) || h == hash
        }),
{
    let all = remembered.push(hash);
    let after = remember(remembered, hash, limit);
    remember_keeps(remembered, hash, limit);
    assert(after =~= newest(remembered, (limit - 1) as nat).push(hash));
    assert(after[after.len() - 1] == hash);
    if remembered.len() < limit {
        assert forall|h: u64| #[trigger] after.contains(h) <==> remembered.contains(h) || h
            == hash by {
            if remembered.contains(h) {
                assert(after[remembered.index_of(h)] == h);
            }
            if after.contains(h) && h != hash {
                let i = choose|i: int| 0 <= i < after.len() && after[i] == h;
                assert(remembered[i] == h);
            }
        }
    }
}

/// No hash is remembered twice.
pub proof fn remember_keeps(remembered: Seq<u64>, hash: u64, limit: nat)
    requires
        remembered.no_duplicates(),
    ensures
        remember(remembered, hash, limit).no_duplicates(),
{
    let all = remembered.push(hash);
    if !remembered.contains(hash) {
        assert forall|i: int, j: int|
            0 <= i < all.len() && 0 <= j < all.len() && i != j implies all[i] != all[j] by {
            if i == remembered.len() {
                assert(remembered[j] != hash);
            } else if j == remembered.len() {
                assert(remembered[i] != hash);
            }
        }
    }
}

/// What is forgotten is not remembered, and all else still is.
pub proof fn forgetting_takes_one_hash(remembered: Seq<u64>, hash: u64)
    requires
        remembered.no_duplicates(),
    ensures
        forget(remembered, hash).no_duplicates(),
        forall|h: u64| #[trigger]
            forget(remembered, hash).contains(h) <==> remembered.contains(h) && h != hash,
{
    let after = forget(remembered, hash);
    if remembered.contains(hash) {
        let k = remembered.index_of(hash);
        assert(remembered[k] == hash);
        assert forall|h: u64| #[trigger] after.contains(h) <==> remembered.contains(h) && h
            != hash by {
            if after.contains(h) {
                let i = choose|i: int| 0 <= i < after.len() && after[i] == h;
                let j = if i < k {
                    i
                } else {
                    i + 1
                };
                assert(remembered[j] == h);
            }
            if remembered.contains(h) && h != hash {
                let j = remembered.index_of(h);
                let i = if j < k {
                    j
                } else {
                    j - 1
                };
                assert(after[i] == h);
            }
        }
        assert forall|a: int, b: int|
            0 <= a < after.len() && 0 <= b < after.len() && a != b implies after[a]
            != after[b] by {
            let c = if a < k {
                a
            } else {
                a + 1
            };
            let d = if b < k {
                b
            } else {
                b + 1
            };
            assert(remembered[c] != remembered[d]);
        }
    }
}

/// The main queue once an entry has left it, and that entry: the first that is
/// dead or has not been read; those before it are spared, once for each read.
pub open spec fn evicted_main(main: Seq<Item>) -> (Seq<Item>, Item)
    recommends
        main.len() > 0,
    decreases total(main, freq()),
{
    if main.len() == 0 {
        (main, arbitrary())
    } else {
        let e = main[0];
        let rest = main.drop_first();
        if !e.live || e.freq == 0 {
            (rest, e)
        } else {
            proof {
                total_front(main, freq());
                total_push(rest, Item { freq: (e.freq - 1) as nat, ..e }, freq());
            }
            evicted_main(rest.push(Item { freq: (e.freq - 1) as nat, ..e }))
        }
    }
}

/// One entry leaves the main queue. It is dead or has not been read since it
/// was last spared; the others stay, their order turned but not their keys,
/// values and liveness.
pub proof fn evicted_main_takes_one(main: Seq<Item>)
    requires
        main.len() > 0,
    ensures
        evicted_main(main).0.len() == main.len() - 1,
    decreases total(main, freq()),
{
    let e = main[0];
    let rest = main.drop_first();
    if e.live && e.freq > 0 {
        let spared = Item { freq: (e.freq - 1) as nat, ..e };
        total_front(main, freq());
        total_push(rest, spared, freq());
        evicted_main_takes_one(rest.push(spared));
    }
}

impl Counts {
    /// One more eviction when the entry that left was live.
    pub open spec fn evicted(self, e: Item) -> Counts {
        if e.live {
            Counts { evictions: self.evictions.wrapping_add(1), ..self }
        } else {
            self
        }
    }
}

impl State {
    /// Bytes of live entries.
    pub open spec fn used(self) -> nat {
        total(self.small, live_cost()) + total(self.main, live_cost())
    }

    /// Bytes of dead entries still in a queue.
    pub open spec fn dead(self) -> nat {
        total(self.small, dead_cost()) + total(self.main, dead_cost())
    }

    /// Bytes in the small queue, dead entries included.
    pub open spec fn small_bytes(self) -> nat {
        total(self.small, cost())
    }

    /// How many entries are live.
    pub open spec fn count(self) -> nat {
        total(self.small, live_one()) + total(self.main, live_one())
    }

    /// All entries, those of the small queue first.
    pub open spec fn all(self) -> Seq<Item> {
        self.small + self.main
    }

    /// Whether there is a live entry for a key.
    pub open spec fn contains(self, key: Seq<u8>) -> bool {
        find(self.all(), key) is Some
    }

    /// The live entry for a key.
    pub open spec fn item(self, key: Seq<u8>) -> Item {
        find(self.all(), key)->0
    }

    /// The value a read of `key` gives.
    pub open spec fn value(self, key: Seq<u8>) -> Option<Seq<u8>> {
        match find(self.all(), key) {
            Some(e) => Some(e.value),
            None => None,
        }
    }

    /// A key has one live entry at most, reads are counted up to the cap, and
    /// no hash is remembered twice.
    pub open spec fn valid(self) -> bool {
        &&& self.remembered.no_duplicates()
        &&& unique(self.all())
        &&& forall|i: int| 0 <= i < self.all().len() ==> (#[trigger] self.all()[i]).freq <= FREQ_CAP
    }

    /// A shard with nothing in it.
    pub open spec fn empty(capacity: nat) -> State {
        State {
            capacity,
            small: Seq::empty(),
            main: Seq::empty(),
            remembered: Seq::empty(),
            counts: Counts { get_hits: 0, get_misses: 0, del_hits: 0, del_misses: 0, evictions: 0 },
        }
    }

    /// With the first entry of the small queue gone from it: dropped when dead,
    /// moved to the main queue when read more than once, else evicted and its
    /// hash remembered.
    pub open spec fn evict_small(self) -> State
        recommends
            self.small.len() > 0,
    {
        let e = self.small[0];
        let rest = self.small.drop_first();
        if !e.live {
            State { small: rest, ..self }
        } else if e.freq > 1 {
            State { small: rest, main: self.main.push(Item { freq: 0, ..e }), ..self }
        } else {
            State {
                small: rest,
                remembered: remember(self.remembered, e.hash, ghost_limit(self.main.len())),
                counts: self.counts.evicted(e),
                ..self
            }
        }
    }

    /// With one entry of the main queue gone.
    pub open spec fn evict_main(self) -> State
        recommends
            self.main.len() > 0,
    {
        let (main, e) = evicted_main(self.main);
        State { main, counts: self.counts.evicted(e), ..self }
    }

    /// One step of making room: from the small queue while it holds a tenth of
    /// the budget, else from the main queue; from the other one if that is empty.
    pub open spec fn evict_one(self) -> State {
        if self.small_bytes() >= self.capacity / 10 {
            if self.small.len() > 0 {
                self.evict_small()
            } else {
                self.evict_main()
            }
        } else if self.main.len() > 0 {
            self.evict_main()
        } else {
            self.evict_small()
        }
    }

    /// Whether an entry of `cost` bytes has to wait for room.
    pub open spec fn crowded(self, cost: nat) -> bool {
        self.used() + cost > self.capacity && self.all().len() > 0
    }

    /// With room made for an entry of `cost` bytes, as far as possible.
    pub open spec fn make_room(self, cost: nat) -> State
        decreases self.small.len() + self.main.len(), self.small.len(),
    {
        if self.crowded(cost) {
            proof {
                self.evict_one_shrinks();
            }
            self.evict_one().make_room(cost)
        } else {
            self
        }
    }

    /// Making room ends: with each step an entry leaves, or moves on to the
    /// main queue.
    pub proof fn evict_one_shrinks(self)
        requires
            self.all().len() > 0,
        ensures
            ({
                let s = self.evict_one();
                ||| s.small.len() + s.main.len() < self.small.len() + self.main.len()
                ||| s.small.len() + s.main.len() == self.small.len() + self.main.len()
                    && s.small.len() < self.small.len()
            }),
    {
        if self.main.len() > 0 {
            evicted_main_takes_one(self.main);
        }
    }

    /// The live entry for `key`, if any, marked dead.
    pub open spec fn kill(self, key: Seq<u8>) -> State {
        State { small: buried(self.small, key), main: buried(self.main, key), ..self }
    }

    /// With a new entry at the end of the queue it belongs to.
    pub open spec fn enqueue(self, e: Item) -> State {
        if self.remembered.contains(e.hash) {
            State {
                main: self.main.push(e),
                remembered: forget(self.remembered, e.hash),
                ..self
            }
        } else {
            State { small: self.small.push(e), ..self }
        }
    }

    /// Without dead entries, if those hold more than a quarter of the budget.
    pub open spec fn compacted(self) -> State {
        if self.dead() <= self.capacity / 4 {
            self
        } else {
            State { small: live_only(self.small), main: live_only(self.main), ..self }
        }
    }

    /// What storing a value does.
    pub open spec fn set(self, key: Seq<u8>, value: Seq<u8>, hash: u64) -> State {
        let e = Item { key, value, hash, freq: 0, live: true };
        self.kill(key).make_room(e.cost()).enqueue(e).compacted()
    }

    /// What deleting a key does.
    pub open spec fn del(self, key: Seq<u8>) -> State {
        if self.contains(key) {
            let s = self.kill(key).compacted();
            State {
                counts: Counts { del_hits: s.counts.del_hits.wrapping_add(1), ..s.counts },
                ..s
            }
        } else {
            State {
                counts: Counts {
                    del_misses: self.counts.del_misses.wrapping_add(1),
                    ..self.counts
                },
                ..self
            }
        }
    }

    /// What reading a key does.
    pub open spec fn read(self, key: Seq<u8>) -> State {
        if self.contains(key) {
            State {
                small: touched(self.small, key),
                main: touched(self.main, key),
                counts: Counts {
                    get_hits: self.counts.get_hits.wrapping_add(1),
                    ..self.counts
                },
                ..self
            }
        } else {
            State {
                counts: Counts {
                    get_misses: self.counts.get_misses.wrapping_add(1),
                    ..self.counts
                },
                ..self
            }
        }
    }
}

/// A queue in which the live entry for `key`, if any, is marked dead.
pub open spec fn buried(items: Seq<Item>, key: Seq<u8>) -> Seq<Item> {
    items.map_values(
        |e: Item|
            if e.live && e.key == key {
                Item { live: false, ..e }
            } else {
                e
            },
    )
}

/// A queue in which a read of the live entry for `key`, if any, is counted.
pub open spec fn touched(items: Seq<Item>, key: Seq<u8>) -> Seq<Item> {
    items.map_values(
        |e: Item|
            if e.live && e.key == key && e.freq < FREQ_CAP {
                Item { freq: e.freq + 1, ..e }
            } else {
                e
            },
    )
}

/// The live entries of a queue, in order.
pub open spec fn live_only(items: Seq<Item>) -> Seq<Item>
    decreases items.len(),
{
    if items.len() == 0 {
        items
    } else if items.last().live {
        live_only(items.drop_last()).push(items.last())
    } else {
        live_only(items.drop_last())
    }
}

/// What the live entries of a queue are charged for, dead ones gone.
pub proof fn total_live_only(items: Seq<Item>)
    ensures
        total(live_only(items), cost()) == total(items, live_cost()),
        total(live_only(items), live_cost()) == total(items, live_cost()),
        total(live_only(items), dead_cost()) == 0,
        total(live_only(items), live_one()) == total(items, live_one()),
    decreases items.len(),
{
    if items.len() > 0 {
        let head = items.drop_last();
        let e = items.last();
        total_live_only(head);
        if e.live {
            total_push(live_only(head), e, cost());
            total_push(live_only(head), e, live_cost());
            total_push(live_only(head), e, dead_cost());
            total_push(live_only(head), e, live_one());
        }
    }
}

} // verus!
