//! One S3-FIFO shard: the cuckoo [`Index`] for a slice of the key space plus
//! the FIFO queues (small, main, ghost) that decide what stays in it.
//!
//! Entries are immutable once created but for the count of their reads;
//! removing one marks it dead and it is skipped lazily when it reaches the head
//! of its queue. Dead bytes are tracked and the queues are compacted when they
//! accumulate.

use super::heap::{Entry, Heap, Item, ENTRY_OVERHEAD, FREQ_CAP, ID_END};
use super::key::same_bytes;
use super::policy;
use super::policy::{Counts, State, GHOST_MIN};
use super::table::Index;
use crate::buf;
use crate::text;
use std::collections::{HashSet, VecDeque};
use vstd::prelude::*;

verus! {

broadcast use vstd::std_specs::hash::group_hash_axioms;

/// An entry whose cost exceeds the byte budget of the shard it hashes to.
#[derive(Debug, Clone, Copy, PartialEq, Eq, Structural)]
pub struct TooLarge {
    pub cost: usize,
    pub capacity: usize,
}

impl TooLarge {
    /// The message for the error.
    pub open spec fn text(self) -> Seq<char> {
        "entry of "@ + text::decimal(self.cost as nat)
            + " bytes exceeds the per-shard capacity of "@ + text::decimal(self.capacity as nat)
            + " bytes"@
    }

    /// The message for the error.
    pub fn to_string(&self) -> (s: String)
        ensures
            s@ == self.text(),
    {
        let mut s = String::new();
        s.append("entry of ");
        text::push_decimal(&mut s, self.cost as u64);
        s.append(" bytes exceeds the per-shard capacity of ");
        text::push_decimal(&mut s, self.capacity as u64);
        s.append(" bytes");
        assert(s@ =~= self.text());
        s
    }
}

/// Sizes that fit in the memory a process can address, 47 bits of it.
pub open spec fn addressable(n: nat) -> bool {
    n <= 0x8000_0000_0000 && n <= buf::MAX_LEN
}

/// What an entry for `key` and `value` is charged for.
pub open spec fn entry_cost(key: Seq<u8>, value: Seq<u8>) -> nat {
    key.len() + value.len() + ENTRY_OVERHEAD as nat
}

/// Hashes of evicted entries: what is remembered, and in which order to forget.
struct GhostList {
    order: VecDeque<u64>,
    set: HashSet<u64>,
}

impl View for GhostList {
    type V = Seq<u64>;

    /// The hashes that are remembered, oldest first.
    closed spec fn view(&self) -> Seq<u64> {
        self.order@
    }
}

impl GhostList {
    /// Every hash that is remembered is listed, once, and no other.
    spec fn wf(&self) -> bool {
        &&& self.order@.no_duplicates()
        &&& forall|h: u64| #[trigger] self.set@.contains(h) <==> self.order@.contains(h)
    }

    fn new() -> (g: Self)
        ensures
            g.wf(),
            g@ == Seq::<u64>::empty(),
    {
        GhostList { order: VecDeque::new(), set: HashSet::new() }
    }

    /// Forgets a hash. Returns whether it was remembered.
    fn take(&mut self, hash: u64) -> (r: bool)
        requires
            old(self).wf(),
        ensures
            final(self).wf(),
            r == old(self)@.contains(hash),
            final(self)@ == policy::forget(old(self)@, hash),
    {
        if !self.set.remove(&hash) {
            assert(self.set@ =~= old(self).set@);
            return false;
        }
        let n: usize = self.order.len();
        let mut i: usize = 0;
        while self.order[i] != hash
            invariant
                i < self.order@.len(),
                self.order@ == old(self).order@,
                self.order@.contains(hash),
                forall|j: int| 0 <= j < i ==> self.order@[j] != hash,
                n == self.order@.len(),
            decreases self.order@.len() - i,
        {
            proof {
                let k = self.order@.index_of(hash);
                assert(self.order@[k] == hash);
                assert(i < k);
            }
            i = i + 1;
        }
        self.order.remove(i);
        proof {
            assert(old(self).order@[old(self).order@.index_of(hash)] == hash);
            policy::forgetting_takes_one_hash(old(self)@, hash);
        }
        true
    }

    /// Remembers a hash, and forgets the oldest beyond the limit.
    fn push(&mut self, hash: u64, limit: usize)
        requires
            old(self).wf(),
        ensures
            final(self).wf(),
            final(self)@ == policy::remember(
                old(self)@,
                hash,
                policy::ghost_limit(limit as nat),
            ),
    {
        if self.set.insert(hash) {
            self.order.push_back(hash);
            proof {
                policy::the_newest_hashes_are_remembered(
                    old(self)@,
                    hash,
                    old(self)@.len() + 1,
                );
            }
        } else {
            assert(self.set@ =~= old(self).set@);
        }
        let ghost all = self.order@;
        let limit: usize = if limit > GHOST_MIN {
            limit
        } else {
            GHOST_MIN
        };
        while self.order.len() > limit
            invariant
                self.wf(),
                self.order@.len() <= all.len(),
                self.order@ == all.skip(all.len() - self.order@.len()),
                self.order@.len() >= limit || self.order@ == all,
            decreases self.order@.len(),
        {
            let ghost before = self.order@;
            if let Some(oldest) = self.order.pop_front() {
                let ghost set = self.set@;
                self.set.remove(&oldest);
                proof {
                    assert(before.contains(oldest));
                    assert(before.index_of(oldest) == 0);
                    policy::forgetting_takes_one_hash(before, oldest);
                    assert(self.order@ =~= before.remove(0));
                    assert(self.set@ =~= set.remove(oldest));
                    assert(self.order@ =~= all.skip(all.len() - self.order@.len()));
                }
            }
        }
    }
}

/// The entries with given ids.
spec fn items(heap: Map<u64, Item>, ids: Seq<u64>) -> Seq<Item> {
    ids.map_values(|id: u64| heap[id])
}

/// The keys of live entries.
spec fn live_keys(items: Seq<Item>) -> Set<Seq<u8>> {
    Set::new(|k: Seq<u8>| exists|i: int| 0 <= i < items.len() && items[i].live && #[trigger] items[i].key == k)
}

/// Live entries with different keys are as many as those keys.
proof fn live_keys_counted(items: Seq<Item>)
    requires
        forall|i: int, j: int|
            0 <= i < j < items.len() && items[i].live && items[j].live ==> (
            #[trigger] items[i]).key != (#[trigger] items[j]).key,
    ensures
        live_keys(items).finite(),
        live_keys(items).len() == policy::total(items, policy::live_one()),
    decreases items.len(),
{
    if items.len() == 0 {
        assert(live_keys(items) =~= Set::<Seq<u8>>::empty());
    } else {
        let head = items.drop_last();
        let e = items.last();
        assert forall|i: int, j: int|
            0 <= i < j < head.len() && head[i].live && head[j].live implies (
        #[trigger] head[i]).key != (#[trigger] head[j]).key by {
            assert(items[i].key != items[j].key);
        }
        live_keys_counted(head);
        assert forall|k: Seq<u8>| #[trigger] live_keys(head).contains(k) implies live_keys(
            items,
        ).contains(k) && (e.live ==> k != e.key) by {
            let i = choose|i: int| 0 <= i < head.len() && head[i].live && #[trigger] head[i].key == k;
            assert(items[i].key == k);
        }
        assert forall|k: Seq<u8>| #[trigger] live_keys(items).contains(k) implies live_keys(
            head,
        ).contains(k) || (e.live && k == e.key) by {
            let i = choose|i: int| 0 <= i < items.len() && items[i].live && #[trigger] items[i].key == k;
            if i < head.len() {
                assert(head[i].key == k);
            }
        }
        if e.live {
            assert(items[items.len() - 1].key == e.key);
            assert(live_keys(items) =~= live_keys(head).insert(e.key));
        } else {
            assert(live_keys(items) =~= live_keys(head));
        }
    }
}

/// Changing an entry changes it where it stands in a queue.
proof fn changed_at(heap: Map<u64, Item>, ids: Seq<u64>, id: u64, e: Item) -> (p: int)
    requires
        ids.no_duplicates(),
        ids.contains(id),
    ensures
        0 <= p < ids.len(),
        ids[p] == id,
        items(heap.insert(id, e), ids) == items(heap, ids).update(p, e),
{
    let p = choose|p: int| 0 <= p < ids.len() && ids[p] == id;
    assert(items(heap.insert(id, e), ids) =~= items(heap, ids).update(p, e));
    p
}

/// Changing or removing an entry that is not in a queue leaves the queue as it is.
proof fn changed_elsewhere(heap: Map<u64, Item>, ids: Seq<u64>, id: u64, e: Item)
    requires
        !ids.contains(id),
    ensures
        items(heap.insert(id, e), ids) == items(heap, ids),
        items(heap.remove(id), ids) == items(heap, ids),
{
    assert forall|i: int| 0 <= i < ids.len() implies ids[i] != id by {
        assert(ids.contains(ids[i]));
    }
    assert(items(heap.insert(id, e), ids) =~= items(heap, ids));
    assert(items(heap.remove(id), ids) =~= items(heap, ids));
}

/// The ids of live entries, in order.
spec fn live_ids(heap: Map<u64, Item>, ids: Seq<u64>) -> Seq<u64>
    decreases ids.len(),
{
    if ids.len() == 0 {
        ids
    } else if heap[ids.last()].live {
        live_ids(heap, ids.drop_last()).push(ids.last())
    } else {
        live_ids(heap, ids.drop_last())
    }
}

proof fn live_ids_are_live(heap: Map<u64, Item>, ids: Seq<u64>)
    requires
        ids.no_duplicates(),
    ensures
        items(heap, live_ids(heap, ids)) == policy::live_only(items(heap, ids)),
        live_ids(heap, ids).no_duplicates(),
        live_ids(heap, ids).len() <= ids.len(),
        forall|id: u64| #[trigger]
            live_ids(heap, ids).contains(id) <==> ids.contains(id) && heap[id].live,
    decreases ids.len(),
{
    if ids.len() == 0 {
        assert(items(heap, ids) =~= Seq::<Item>::empty());
    } else {
        let head = ids.drop_last();
        let last = ids.last();
        let kept = live_ids(heap, head);
        let out = live_ids(heap, ids);
        live_ids_are_live(heap, head);
        assert(items(heap, ids).drop_last() =~= items(heap, head));
        assert(items(heap, out) =~= policy::live_only(items(heap, ids)));
        if kept.contains(last) {
            let i = choose|i: int| 0 <= i < head.len() && head[i] == last;
            assert(ids[i] == ids[ids.len() - 1]);
        }
        assert forall|id: u64| #[trigger] out.contains(id) <==> ids.contains(id)
            && heap[id].live by {
            if out.contains(id) {
                let i = choose|i: int| 0 <= i < out.len() && out[i] == id;
                if i < kept.len() {
                    assert(kept[i] == id);
                    assert(kept.contains(id));
                    let j = choose|j: int| 0 <= j < head.len() && head[j] == id;
                    assert(ids[j] == id);
                } else {
                    assert(ids[ids.len() - 1] == id);
                }
            }
            if ids.contains(id) && heap[id].live {
                let j = choose|j: int| 0 <= j < ids.len() && ids[j] == id;
                if j < head.len() {
                    assert(head[j] == id);
                    assert(head.contains(id));
                    assert(kept.contains(id));
                    let i = choose|i: int| 0 <= i < kept.len() && kept[i] == id;
                    assert(out[i] == id);
                } else {
                    assert(out[out.len() - 1] == id);
                }
            }
        }
    }
}

/// Which ids are live depends on their entries alone.
proof fn same_live_ids(a: Map<u64, Item>, b: Map<u64, Item>, ids: Seq<u64>)
    requires
        forall|i: int| 0 <= i < ids.len() ==> a[#[trigger] ids[i]] == b[ids[i]],
    ensures
        live_ids(a, ids) == live_ids(b, ids),
    decreases ids.len(),
{
    if ids.len() > 0 {
        assert(ids.last() == ids[ids.len() - 1]);
        assert forall|i: int| 0 <= i < ids.drop_last().len() implies a[
        #[trigger] ids.drop_last()[i]] == b[ids.drop_last()[i]] by {
            assert(ids.drop_last()[i] == ids[i]);
        }
        same_live_ids(a, b, ids.drop_last());
    }
}

/// The heap without the dead entries of a queue.
spec fn without_dead(heap: Map<u64, Item>, ids: Seq<u64>) -> Map<u64, Item> {
    heap.remove_keys(Set::new(|id: u64| ids.contains(id) && !heap[id].live))
}

/// Stable removal of dead entries from a queue, and from the heap.
fn compact(heap: &mut Heap, q: &mut VecDeque<u64>)
    requires
        old(heap).wf(),
        old(q)@.no_duplicates(),
        forall|id: u64| #[trigger] old(q)@.contains(id) ==> old(heap)@.contains_key(id),
    ensures
        final(heap).wf(),
        final(heap)@ == without_dead(old(heap)@, old(q)@),
        final(q)@ == live_ids(old(heap)@, old(q)@),
{
    let n: usize = q.len();
    let ghost all = q@;
    let ghost h = heap@;
    let mut i: usize = 0;
    assert(all.skip(0) + live_ids(h, all.take(0)) =~= all);
    assert(without_dead(h, all.take(0)) =~= h);
    while i < n
        invariant
            i <= n == all.len(),
            heap.wf(),
            all.no_duplicates(),
            forall|id: u64| #[trigger] all.contains(id) ==> h.contains_key(id),
            heap@ == without_dead(h, all.take(i as int)),
            q@ == all.skip(i as int) + live_ids(h, all.take(i as int)),
        decreases n - i,
    {
        let ghost head = all.take(i as int);
        let ghost kept = live_ids(h, head);
        proof {
            assert(all.contains(all[i as int]));
            assert(all.take(i + 1).drop_last() =~= head);
            if head.contains(all[i as int]) {
                let j = choose|j: int| 0 <= j < head.len() && head[j] == all[i as int];
                assert(all[j] == all[i as int]);
            }
            assert(q@[0] == all[i as int]);
        }
        if let Some(id) = q.pop_front() {
            assert(q@ =~= all.skip(i + 1) + kept);
            assert(heap@.contains_key(id) && heap@[id] == h[id]);
            if heap.get(id).live() {
                q.push_back(id);
                assert(q@ =~= all.skip(i + 1) + kept.push(id));
            } else {
                heap.remove(id);
            }
            proof {
                let next = all.take(i + 1);
                assert forall|x: u64| #[trigger] next.contains(x) <==> head.contains(x) || x
                    == id by {
                    if next.contains(x) {
                        let j = choose|j: int| 0 <= j < next.len() && next[j] == x;
                        if j < i {
                            assert(head[j] == x);
                        }
                    }
                    if head.contains(x) {
                        let j = choose|j: int| 0 <= j < head.len() && head[j] == x;
                        assert(next[j] == x);
                    }
                    if x == id {
                        assert(next[i as int] == x);
                    }
                }
                assert(heap@ =~= without_dead(h, next));
            }
        }
        i = i + 1;
    }
    assert(all.take(n as int) =~= all);
    assert(q@ =~= live_ids(h, all));
}

/// One shard of a cache.
pub struct Shard {
    heap: Heap,
    index: Index,
    small: VecDeque<u64>,
    main: VecDeque<u64>,
    evicted: GhostList,
    /// Bytes of live entries across both queues.
    used: usize,
    /// Bytes held by the small queue (live and dead).
    small_bytes: usize,
    /// Bytes held by dead entries still sitting in either queue.
    dead_bytes: usize,
    capacity: usize,
    small_capacity: usize,
    get_hits: u64,
    get_misses: u64,
    del_hits: u64,
    del_misses: u64,
    evictions: u64,
}

impl View for Shard {
    type V = State;

    closed spec fn view(&self) -> State {
        State {
            capacity: self.capacity as nat,
            small: items(self.heap@, self.small@),
            main: items(self.heap@, self.main@),
            remembered: self.evicted@,
            counts: Counts {
                get_hits: self.get_hits,
                get_misses: self.get_misses,
                del_hits: self.del_hits,
                del_misses: self.del_misses,
                evictions: self.evictions,
            },
        }
    }
}

impl Shard {
    /// The ids in the queues.
    spec fn ids(&self) -> Seq<u64> {
        self.small@ + self.main@
    }

    /// The queues hold each entry once, and the index lists those that are live.
    spec fn linked(&self) -> bool {
        &&& self.heap.wf()
        &&& self.index.wf(self.heap@)
        &&& self.evicted.wf()
        &&& self.ids().no_duplicates()
        &&& forall|id: u64| #[trigger] self.heap@.contains_key(id) <==> self.ids().contains(id)
        &&& forall|id: u64| #[trigger]
            self.heap@.contains_key(id) && self.heap@[id].live ==> self.index@.contains_key(
                self.heap@[id].key,
            ) && self.index@[self.heap@[id].key] == id
        &&& forall|k: Seq<u8>| #[trigger]
            self.index@.contains_key(k) ==> self.heap@[self.index@[k]].live
        &&& forall|id: u64| #[trigger]
            self.heap@.contains_key(id) ==> self.heap@[id].freq <= FREQ_CAP
    }

    /// The byte counts are those of the queues.
    spec fn counted(&self) -> bool {
        &&& self.used == self@.used()
        &&& self.small_bytes == self@.small_bytes()
        &&& self.dead_bytes == self@.dead()
        &&& self.small_capacity == self.capacity / 10
        &&& addressable(self.capacity as nat)
        &&& self.used <= buf::MAX_LEN
        &&& self.used + self.dead_bytes <= 3 * buf::MAX_LEN
    }

    pub closed spec fn wf(&self) -> bool {
        &&& self.linked()
        &&& self.counted()
        &&& addressable(self.used as nat)
        &&& self.dead_bytes <= self.capacity / 4
    }

    /// A key is always given the same hash.
    pub open spec fn hashed(&self, key: Seq<u8>, hash: u64) -> bool {
        self@.contains(key) ==> self@.item(key).hash == hash
    }

    /// `capacity` is the byte budget of live entries; the small queue gets 10%.
    pub fn new(capacity: usize) -> (s: Self)
        requires
            addressable(capacity as nat),
        ensures
            s.wf(),
            s@ == State::empty(capacity as nat),
    {
        let s = Shard {
            heap: Heap::new(),
            index: Index::new(),
            small: VecDeque::new(),
            main: VecDeque::new(),
            evicted: GhostList::new(),
            used: 0,
            small_bytes: 0,
            dead_bytes: 0,
            capacity,
            small_capacity: capacity / 10,
            get_hits: 0,
            get_misses: 0,
            del_hits: 0,
            del_misses: 0,
            evictions: 0,
        };
        assert(s@.small =~= Seq::<Item>::empty());
        assert(s@.main =~= Seq::<Item>::empty());
        s
    }

    /// Whether an entry for `key`/`value` can ever be resident here. Every
    /// shard has the same capacity, so one shard answers for all.
    pub fn check_fits(&self, key: &[u8], value: &[u8]) -> (r: Result<(), TooLarge>)
        requires
            entry_cost(key@, value@) <= usize::MAX,
        ensures
            match r {
                Ok(_) => entry_cost(key@, value@) <= self@.capacity,
                Err(e) => entry_cost(key@, value@) > self@.capacity && e.cost == entry_cost(
                    key@,
                    value@,
                ) && e.capacity == self@.capacity,
            },
    {
        let cost: usize = key.len() + value.len() + ENTRY_OVERHEAD;
        if cost > self.capacity {
            return Err(TooLarge { cost, capacity: self.capacity });
        }
        Ok(())
    }

    /// Counts of what the shard has done.
    pub fn counts(&self) -> (c: Counts)
        ensures
            c == self@.counts,
    {
        Counts {
            get_hits: self.get_hits,
            get_misses: self.get_misses,
            del_hits: self.del_hits,
            del_misses: self.del_misses,
            evictions: self.evictions,
        }
    }

    /// What the index says of a key is what the queues say of it.
    proof fn index_agrees(&self, key: Seq<u8>)
        requires
            self.linked(),
        ensures
            self@.contains(key) == self.index@.contains_key(key),
            self.index@.contains_key(key) ==> self.heap@.contains_key(self.index@[key])
                && self.heap@[self.index@[key]] == self@.item(key) && self@.item(key).live
                && self@.item(key).key == key,
            self@.valid(),
    {
        let all = self@.all();
        let ids = self.ids();
        assert(all =~= items(self.heap@, ids));
        assert forall|i: int| 0 <= i < all.len() implies self.heap@.contains_key(ids[i])
            && #[trigger] all[i] == self.heap@[ids[i]] by {
            assert(ids.contains(ids[i]));
        }
        self.index.maps_keys(self.heap@);
        if self.index@.contains_key(key) {
            let id = self.index@[key];
            assert(ids.contains(id));
            let i = choose|i: int| 0 <= i < ids.len() && ids[i] == id;
            assert(all[i] == self.heap@[id]);
            assert(policy::at(all, key, i));
            let j = choose|j: int| policy::at(all, key, j);
            assert(all[j] == self.heap@[ids[j]]);
            assert(ids[j] == id);
        }
        if self@.contains(key) {
            let j = choose|j: int| policy::at(all, key, j);
            assert(all[j] == self.heap@[ids[j]]);
        }
        assert forall|i: int, j: int|
            0 <= i < j < all.len() && all[i].live && all[j].live implies (#[trigger] all[i]).key
            != (#[trigger] all[j]).key by {
            assert(self.heap@.contains_key(ids[i]) && self.heap@.contains_key(ids[j]));
            assert(ids[i] != ids[j]);
        }
    }

    /// The index lists as many keys as there are live entries.
    proof fn index_counts(&self)
        requires
            self.linked(),
        ensures
            self.index@.dom().len() == self@.count(),
    {
        let all = self@.all();
        let ids = self.ids();
        assert(all =~= items(self.heap@, ids));
        assert forall|i: int| 0 <= i < all.len() implies self.heap@.contains_key(ids[i])
            && #[trigger] all[i] == self.heap@[ids[i]] by {
            assert(ids.contains(ids[i]));
        }
        self.index_agrees(Seq::empty());
        self.index.maps_keys(self.heap@);
        live_keys_counted(all);
        policy::total_concat(self@.small, self@.main, policy::live_one());
        assert(self.index@.dom() =~= live_keys(all)) by {
            assert forall|k: Seq<u8>| #[trigger] self.index@.contains_key(k) implies live_keys(
                all,
            ).contains(k) by {
                self.index_agrees(k);
                let i = choose|i: int| policy::at(all, k, i);
                assert(all[i].key == k);
            }
            assert forall|k: Seq<u8>| #[trigger] live_keys(all).contains(k) implies self.index@.dom().contains(k) by {
                let i = choose|i: int| 0 <= i < all.len() && all[i].live && #[trigger] all[i].key == k;
                assert(all[i] == self.heap@[ids[i]]);
            }
        }
    }

    /// The shard's state is a valid one.
    pub proof fn state_is_valid(&self)
        requires
            self.wf(),
        ensures
            self@.valid(),
            self@.dead() <= self@.capacity / 4,
            addressable(self@.used()),
    {
        self.index_agrees(Seq::empty());
    }

    /// The live entry for `key`, without counting the read.
    #[inline]
    pub fn get(&self, hash: u64, key: &[u8]) -> (r: Option<&Entry>)
        requires
            self.wf(),
            self.hashed(key@, hash),
        ensures
            match r {
                Some(e) => e.wf() && self@.contains(key@) && e@ == self@.item(key@),
                None => !self@.contains(key@),
            },
    {
        proof {
            self.index_agrees(key@);
        }
        match self.index.get(&self.heap, hash, key) {
            Some(id) => Some(self.heap.get(id)),
            None => None,
        }
    }

    /// How many entries are live.
    pub fn len(&self) -> (n: usize)
        requires
            self.wf(),
        ensures
            n == self@.count(),
    {
        proof {
            self.index_counts();
        }
        self.index.len(&self.heap)
    }

    /// Bytes of live entries.
    pub fn used_bytes(&self) -> (n: usize)
        requires
            self.wf(),
        ensures
            n == self@.used(),
    {
        self.used
    }

    /// Bytes of entries that are no longer live but still in a queue.
    pub fn dead_bytes(&self) -> (n: usize)
        requires
            self.wf(),
        ensures
            n == self@.dead(),
    {
        self.dead_bytes
    }

    /// How many entries are in the small and in the main queue, live or not.
    pub fn queue_lens(&self) -> (n: (usize, usize))
        ensures
            n.0 == self@.small.len(),
            n.1 == self@.main.len(),
    {
        (self.small.len(), self.main.len())
    }

    /// Whether an entry for `key`, live or not, is in the main queue.
    pub fn in_main(&self, key: &[u8]) -> (r: bool)
        requires
            self.wf(),
        ensures
            r == exists|i: int|
                0 <= i < self@.main.len() && (#[trigger] self@.main[i]).key == key@,
    {
        let mut i: usize = 0;
        while i < self.main.len()
            invariant
                self.wf(),
                i <= self.main@.len(),
                forall|j: int| 0 <= j < i ==> (#[trigger] self@.main[j]).key != key@,
            decreases self.main@.len() - i,
        {
            let id: u64 = self.main[i];
            proof {
                assert(self.ids()[self.small@.len() + i] == id);
                assert(self.ids().contains(id));
                assert(self@.main[i as int] == self.heap@[id]);
            }
            if same_bytes(self.heap.get(id).key(), key) {
                return true;
            }
            i += 1;
        }
        false
    }

    /// Each queue holds an id once, and no id is in both.
    proof fn queues_are_apart(&self)
        requires
            self.ids().no_duplicates(),
        ensures
            self.small@.no_duplicates(),
            self.main@.no_duplicates(),
            forall|id: u64| #[trigger]
                self.small@.contains(id) ==> !self.main@.contains(id) && self.ids().contains(id),
            forall|id: u64| #[trigger] self.main@.contains(id) ==> self.ids().contains(id),
            forall|id: u64| #[trigger]
                self.ids().contains(id) ==> self.small@.contains(id) || self.main@.contains(id),
    {
        let ids = self.ids();
        let n = self.small@.len() as int;
        assert forall|i: int, j: int|
            0 <= i < self.small@.len() && 0 <= j < self.small@.len() && i != j implies self.small@[i]
            != self.small@[j] by {
            assert(ids[i] != ids[j]);
        }
        assert forall|i: int, j: int|
            0 <= i < self.main@.len() && 0 <= j < self.main@.len() && i != j implies self.main@[i]
            != self.main@[j] by {
            assert(ids[n + i] != ids[n + j]);
        }
        assert forall|id: u64| #[trigger] self.small@.contains(id) implies !self.main@.contains(id)
            && ids.contains(id) by {
            let i = choose|i: int| 0 <= i < self.small@.len() && self.small@[i] == id;
            assert(ids[i] == id);
            if self.main@.contains(id) {
                let j = choose|j: int| 0 <= j < self.main@.len() && self.main@[j] == id;
                assert(ids[n + j] == id);
            }
        }
        assert forall|id: u64| #[trigger] self.main@.contains(id) implies ids.contains(id) by {
            let j = choose|j: int| 0 <= j < self.main@.len() && self.main@[j] == id;
            assert(ids[n + j] == id);
        }
        assert forall|id: u64| #[trigger] ids.contains(id) implies self.small@.contains(id)
            || self.main@.contains(id) by {
            let i = choose|i: int| 0 <= i < ids.len() && ids[i] == id;
            if i < n {
                assert(self.small@[i] == id);
            } else {
                assert(self.main@[i - n] == id);
            }
        }
    }

    /// Changing one entry changes the sums by the difference.
    proof fn changed_sum(&self, before: Shard, id: u64, w: spec_fn(Item) -> nat)
        requires
            before.linked(),
            self.small@ == before.small@,
            self.main@ == before.main@,
            before.heap@.contains_key(id),
            self.heap@ == before.heap@.insert(id, self.heap@[id]),
        ensures
            policy::total(self@.small, w) + policy::total(self@.main, w) + w(before.heap@[id])
                == policy::total(before@.small, w) + policy::total(before@.main, w) + w(
                self.heap@[id],
            ),
            before.small@.contains(id) ==> policy::total(self@.small, w) + w(before.heap@[id])
                == policy::total(before@.small, w) + w(self.heap@[id]),
            !before.small@.contains(id) ==> policy::total(self@.small, w) == policy::total(
                before@.small,
                w,
            ),
    {
        before.queues_are_apart();
        assert(before.ids().contains(id));
        let e = self.heap@[id];
        if before.small@.contains(id) {
            let p = changed_at(before.heap@, before.small@, id, e);
            policy::total_update(before@.small, p, e, w);
            changed_elsewhere(before.heap@, before.main@, id, e);
        } else {
            let p = changed_at(before.heap@, before.main@, id, e);
            policy::total_update(before@.main, p, e, w);
            changed_elsewhere(before.heap@, before.small@, id, e);
        }
    }

    /// Removes a key from the index, marks its entry as dead and releases its
    /// budget. Returns whether there was one.
    fn unlink(&mut self, hash: u64, key: &[u8]) -> (r: bool)
        requires
            old(self).linked(),
            old(self).counted(),
            old(self).hashed(key@, hash),
        ensures
            final(self).linked(),
            final(self).counted(),
            final(self)@ == old(self)@.kill(key@),
            final(self).capacity == old(self).capacity,
            final(self).used <= old(self).used,
            final(self).used + final(self).dead_bytes == old(self).used + old(self).dead_bytes,
            !final(self).index@.contains_key(key@),
            r == old(self)@.contains(key@),
    {
        proof {
            self.index_agrees(key@);
            self.index.maps_keys(self.heap@);
        }
        let ghost before = *self;
        match self.index.remove(&self.heap, hash, key) {
            Some(id) => {
                let cost: usize = self.entry_cost_of(id, Ghost(before));
                self.heap.set_dead(id);
                proof {
                    let e = self.heap@[id];
                    self.index.heap_changed(before.heap@, self.heap@);
                    self.changed_sum(before, id, policy::live_cost());
                    self.changed_sum(before, id, policy::dead_cost());
                    self.changed_sum(before, id, policy::cost());
                    assert(before.ids().contains(id));
                    before.queues_are_apart();
                    assert(self@.small =~= policy::buried(before@.small, key@)) by {
                        assert forall|i: int| 0 <= i < self.small@.len() implies #[trigger] self@.small[i]
                            == policy::buried(before@.small, key@)[i] by {
                            assert(before.small@.contains(before.small@[i]));
                            assert(before.heap@.contains_key(before.small@[i]));
                        }
                    }
                    assert(self@.main =~= policy::buried(before@.main, key@)) by {
                        assert forall|i: int| 0 <= i < self.main@.len() implies #[trigger] self@.main[i]
                            == policy::buried(before@.main, key@)[i] by {
                            assert(before.main@.contains(before.main@[i]));
                            assert(before.heap@.contains_key(before.main@[i]));
                        }
                    }
                }
                self.used = self.used - cost;
                self.dead_bytes = self.dead_bytes + cost;
                true
            },
            None => {
                proof {
                    assert(self@.small =~= policy::buried(before@.small, key@)) by {
                        assert forall|i: int| 0 <= i < self.small@.len() implies #[trigger] self@.small[i]
                            == policy::buried(before@.small, key@)[i] by {
                            assert(self@.all()[i] == self@.small[i]);
                            assert(!policy::at(self@.all(), key@, i));
                        }
                    }
                    assert(self@.main =~= policy::buried(before@.main, key@)) by {
                        let n = self.small@.len() as int;
                        assert forall|i: int| 0 <= i < self.main@.len() implies #[trigger] self@.main[i]
                            == policy::buried(before@.main, key@)[i] by {
                            assert(self@.all()[n + i] == self@.main[i]);
                            assert(!policy::at(self@.all(), key@, n + i));
                        }
                    }
                }
                false
            },
        }
    }

    /// What the entry under `id`, which is in a queue, is charged for.
    #[inline]
    fn entry_cost_of(&self, id: u64, before: Ghost<Shard>) -> (n: usize)
        requires
            self.heap == before@.heap,
            before@.linked(),
            before@.counted(),
            self.heap@.contains_key(id),
        ensures
            n == self.heap@[id].cost(),
            self.heap@[id].live ==> n <= before@.used,
            before@.small@.contains(id) ==> n <= before@.small_bytes,
            !self.heap@[id].live ==> n <= before@.dead_bytes,
    {
        proof {
            let s = before@;
            s.queues_are_apart();
            assert(s.ids().contains(id));
            if s.small@.contains(id) {
                let i = choose|i: int| 0 <= i < s.small@.len() && s.small@[i] == id;
                policy::total_member(s@.small, i, policy::cost());
                policy::total_member(s@.small, i, policy::live_cost());
                policy::total_member(s@.small, i, policy::dead_cost());
            } else {
                let i = choose|i: int| 0 <= i < s.main@.len() && s.main@[i] == id;
                policy::total_member(s@.main, i, policy::cost());
                policy::total_member(s@.main, i, policy::live_cost());
                policy::total_member(s@.main, i, policy::dead_cost());
            }
        }
        self.heap.get(id).cost()
    }

    /// With the first id of the small queue gone from it, the rest are where they were.
    proof fn small_popped(&self, before: Shard, id: u64)
        requires
            before.ids().no_duplicates(),
            before.small@.len() > 0,
            id == before.small@[0],
            self.small@ == before.small@.drop_first(),
            self.main@ == before.main@ || self.main@ == before.main@.push(id),
        ensures
            self.ids().no_duplicates(),
            !self.small@.contains(id),
            !before.main@.contains(id),
            before.small@.contains(id),
            self.main@ == before.main@ ==> forall|x: u64| #[trigger]
                self.ids().contains(x) <==> before.ids().contains(x) && x != id,
            self.main@ == before.main@.push(id) ==> forall|x: u64| #[trigger]
                self.ids().contains(x) <==> before.ids().contains(x),
    {
        let a = before.ids();
        let b = self.ids();
        before.queues_are_apart();
        assert(before.small@.contains(id));
        let rest = a.drop_first();
        assert(a[0] == id);
        if self.main@ == before.main@ {
            assert(b =~= rest);
        } else {
            assert(b =~= rest.push(id));
        }
        assert forall|x: u64| #[trigger] rest.contains(x) implies a.contains(x) && x != id by {
            let i = choose|i: int| 0 <= i < rest.len() && rest[i] == x;
            assert(a[i + 1] == x);
        }
        assert forall|x: u64| #[trigger] a.contains(x) && x != id implies rest.contains(x) by {
            let i = choose|i: int| 0 <= i < a.len() && a[i] == x;
            assert(rest[i - 1] == x);
        }
        if self.main@ != before.main@ {
            assert forall|x: u64| #[trigger] b.contains(x) <==> a.contains(x) by {
                if b.contains(x) {
                    let i = choose|i: int| 0 <= i < b.len() && b[i] == x;
                    if i < rest.len() {
                        assert(rest[i] == x);
                        assert(rest.contains(x));
                    }
                    assert(a.contains(id));
                }
                if a.contains(x) {
                    if x == id {
                        assert(b[rest.len() as int] == x);
                    } else {
                        let i = choose|i: int| 0 <= i < rest.len() && rest[i] == x;
                        assert(b[i] == x);
                    }
                }
            }
        }
        if self.small@.contains(id) {
            let i = choose|i: int| 0 <= i < self.small@.len() && self.small@[i] == id;
            assert(before.small@[i + 1] == id);
        }
    }

    /// Looks at the first entry of the small queue: drops it when dead, moves
    /// it to the main queue when it was read more than once, else evicts it.
    fn evict_small(&mut self) -> (r: bool)
        requires
            old(self).linked(),
            old(self).counted(),
        ensures
            final(self).linked(),
            final(self).counted(),
            r == (old(self)@.small.len() > 0),
            final(self)@ == if r {
                old(self)@.evict_small()
            } else {
                old(self)@
            },
            final(self).capacity == old(self).capacity,
            final(self).used <= old(self).used,
            final(self).used + final(self).dead_bytes <= old(self).used + old(self).dead_bytes,
            forall|k: Seq<u8>| #[trigger]
                final(self).index@.contains_key(k) ==> old(self).index@.contains_key(k),
    {
        let ghost before = *self;
        let id: u64 = match self.small.pop_front() {
            Some(id) => id,
            None => return false,
        };
        proof {
            assert(self.small@ =~= before.small@.drop_first());
            self.small_popped(before, id);
            before.queues_are_apart();
            assert(before.ids().contains(id));
            self.index.maps_keys(self.heap@);
            assert(items(self.heap@, self.small@) =~= before@.small.drop_first());
            policy::total_front(before@.small, policy::cost());
            policy::total_front(before@.small, policy::live_cost());
            policy::total_front(before@.small, policy::dead_cost());
            assert(before@.small[0] == self.heap@[id]);
        }
        let cost: usize = self.entry_cost_of(id, Ghost(before));
        let e = self.heap.get(id);
        let live: bool = e.live();
        let freq: u8 = e.freq();
        let hash: u64 = e.hash();
        self.small_bytes = self.small_bytes - cost;
        if !live {
            self.heap.remove(id);
            self.dead_bytes = self.dead_bytes - cost;
            proof {
                let e = before.heap@[id];
                self.small_popped(before, id);
                changed_elsewhere(before.heap@, self.small@, id, e);
                changed_elsewhere(before.heap@, self.main@, id, e);
                self.index.heap_changed(before.heap@, self.heap@);
            }
        } else if freq > 1 {
            self.heap.set_freq(id, 0);
            self.main.push_back(id);
            proof {
                let e = self.heap@[id];
                self.small_popped(before, id);
                changed_elsewhere(before.heap@, self.small@, id, e);
                changed_elsewhere(before.heap@, before.main@, id, e);
                self.index.heap_changed(before.heap@, self.heap@);
                assert(self@.main =~= before@.main.push(e));
                policy::total_push(before@.main, e, policy::live_cost());
                policy::total_push(before@.main, e, policy::dead_cost());
            }
        } else {
            assert(self.index@[self.heap@[id].key] == id) by {
                assert(before.heap@.contains_key(id));
            }
            self.index.remove_if_same(&self.heap, id);
            self.used = self.used - cost;
            self.evicted.push(hash, self.main.len());
            self.heap.remove(id);
            self.evictions = self.evictions.wrapping_add(1);
            proof {
                let e = before.heap@[id];
                self.small_popped(before, id);
                changed_elsewhere(before.heap@, self.small@, id, e);
                changed_elsewhere(before.heap@, self.main@, id, e);
                self.index.heap_changed(before.heap@, self.heap@);
            }
        }
        proof {
            assert forall|x: u64| #[trigger] self.heap@.contains_key(x) && self.heap@[x].live implies
                self.index@.contains_key(self.heap@[x].key) && self.index@[self.heap@[x].key]
                == x by {
                assert(before.heap@.contains_key(x));
            }
        }
        true
    }

    /// With the first id of the main queue gone from it, or moved to its end,
    /// the rest are where they were.
    proof fn main_popped(&self, before: Shard, id: u64)
        requires
            before.ids().no_duplicates(),
            before.main@.len() > 0,
            id == before.main@[0],
            self.small@ == before.small@,
            self.main@ == before.main@.drop_first() || self.main@
                == before.main@.drop_first().push(id),
        ensures
            self.ids().no_duplicates(),
            !before.main@.drop_first().contains(id),
            !before.small@.contains(id),
            before.main@.contains(id),
            self.main@ == before.main@.drop_first() ==> forall|x: u64| #[trigger]
                self.ids().contains(x) <==> before.ids().contains(x) && x != id,
            self.main@ == before.main@.drop_first().push(id) ==> forall|x: u64| #[trigger]
                self.ids().contains(x) <==> before.ids().contains(x),
    {
        let a = before.ids();
        let b = self.ids();
        let n = before.small@.len() as int;
        before.queues_are_apart();
        assert(before.main@.contains(id));
        assert(a[n] == id);
        let rest = a.remove(n);
        assert(before.small@ + before.main@.drop_first() =~= rest);
        if self.main@ == before.main@.drop_first() {
            assert(b =~= rest);
        } else {
            assert(b =~= rest.push(id));
        }
        assert forall|i: int, j: int|
            0 <= i < rest.len() && 0 <= j < rest.len() && i != j implies rest[i] != rest[j] by {
            let c = if i < n {
                i
            } else {
                i + 1
            };
            let d = if j < n {
                j
            } else {
                j + 1
            };
            assert(a[c] != a[d]);
        }
        assert forall|x: u64| #[trigger] rest.contains(x) implies a.contains(x) && x != id by {
            let i = choose|i: int| 0 <= i < rest.len() && rest[i] == x;
            if i < n {
                assert(a[i] == x);
            } else {
                assert(a[i + 1] == x);
            }
        }
        assert forall|x: u64| #[trigger] a.contains(x) && x != id implies rest.contains(x) by {
            let i = choose|i: int| 0 <= i < a.len() && a[i] == x;
            if i < n {
                assert(rest[i] == x);
            } else {
                assert(rest[i - 1] == x);
            }
        }
        if self.main@ != before.main@.drop_first() {
            assert forall|x: u64| #[trigger] b.contains(x) <==> a.contains(x) by {
                if b.contains(x) {
                    let i = choose|i: int| 0 <= i < b.len() && b[i] == x;
                    if i < rest.len() {
                        assert(rest[i] == x);
                        assert(rest.contains(x));
                    }
                    assert(a.contains(id));
                }
                if a.contains(x) {
                    if x == id {
                        assert(b[rest.len() as int] == x);
                    } else {
                        let i = choose|i: int| 0 <= i < rest.len() && rest[i] == x;
                        assert(b[i] == x);
                    }
                }
            }
        }
        if before.main@.drop_first().contains(id) {
            let tail = before.main@.drop_first();
            let i = choose|i: int| 0 <= i < tail.len() && tail[i] == id;
            assert(before.main@[i + 1] == id);
        }
        if before.small@.contains(id) {
            assert(!before.main@.contains(id));
        }
    }

    /// Takes one entry off the main queue: the first that is dead or was not
    /// read since it was stored or last spared. Those before it are spared.
    fn evict_main(&mut self) -> (r: bool)
        requires
            old(self).linked(),
            old(self).counted(),
        ensures
            final(self).linked(),
            final(self).counted(),
            r == (old(self)@.main.len() > 0),
            final(self)@ == if r {
                old(self)@.evict_main()
            } else {
                old(self)@
            },
            final(self).capacity == old(self).capacity,
            final(self).used <= old(self).used,
            final(self).used + final(self).dead_bytes <= old(self).used + old(self).dead_bytes,
            forall|k: Seq<u8>| #[trigger]
                final(self).index@.contains_key(k) ==> old(self).index@.contains_key(k),
    {
        loop
            invariant
                self.linked(),
                self.counted(),
                self.capacity == old(self).capacity,
                self.used == old(self).used,
                self.dead_bytes == old(self).dead_bytes,
                self.index@ == old(self).index@,
                (self@.main.len() > 0) == (old(self)@.main.len() > 0),
                self@ == (State { main: self@.main, ..old(self)@ }),
                self@.main.len() == 0 ==> self@ == old(self)@,
                policy::evicted_main(self@.main) == policy::evicted_main(old(self)@.main),
            decreases policy::total(self@.main, policy::freq()),
        {
            let ghost before = *self;
            let id: u64 = match self.main.pop_front() {
                Some(id) => id,
                None => return false,
            };
            proof {
                assert(self.main@ =~= before.main@.drop_first());
                self.main_popped(before, id);
                before.queues_are_apart();
                assert(before.ids().contains(id));
                assert(before.heap@.contains_key(id));
                self.index.maps_keys(self.heap@);
                assert(items(self.heap@, self.main@) =~= before@.main.drop_first());
                policy::total_front(before@.main, policy::freq());
                policy::total_front(before@.main, policy::live_cost());
                policy::total_front(before@.main, policy::dead_cost());
                assert(before@.main[0] == self.heap@[id]);
            }
            let cost: usize = self.entry_cost_of(id, Ghost(before));
            let e = self.heap.get(id);
            let live: bool = e.live();
            let freq: u8 = e.freq();
            if !live {
                self.heap.remove(id);
                self.dead_bytes = self.dead_bytes - cost;
                proof {
                    self.left_main(before, id);
                }
                return true;
            }
            if freq > 0 {
                self.heap.set_freq(id, freq - 1);
                self.main.push_back(id);
                proof {
                    let e = self.heap@[id];
                    let rest = before.main@.drop_first();
                    self.main_popped(before, id);
                    changed_elsewhere(before.heap@, self.small@, id, e);
                    changed_elsewhere(before.heap@, rest, id, e);
                    self.index.heap_changed(before.heap@, self.heap@);
                    assert(self@.main =~= before@.main.drop_first().push(e));
                    policy::total_push(before@.main.drop_first(), e, policy::live_cost());
                    policy::total_push(before@.main.drop_first(), e, policy::dead_cost());
                    policy::total_push(before@.main.drop_first(), e, policy::freq());
                    assert forall|x: u64| #[trigger]
                        self.heap@.contains_key(x) && self.heap@[x].live implies
                        self.index@.contains_key(self.heap@[x].key)
                        && self.index@[self.heap@[x].key] == x by {
                        assert(before.heap@.contains_key(x));
                    }
                }
                continue;
            }
            self.index.remove_if_same(&self.heap, id);
            self.used = self.used - cost;
            self.heap.remove(id);
            self.evictions = self.evictions.wrapping_add(1);
            proof {
                self.left_main(before, id);
            }
            return true;
        }
    }

    /// With the first entry of the main queue gone from the shard, all else is
    /// linked as before.
    proof fn left_main(&self, before: Shard, id: u64)
        requires
            before.linked(),
            before.main@.len() > 0,
            id == before.main@[0],
            self.small@ == before.small@,
            self.main@ == before.main@.drop_first(),
            self.evicted == before.evicted,
            self.heap.wf(),
            self.heap@ == before.heap@.remove(id),
            before.heap@.contains_key(id),
            before.heap@[id].live ==> self.index@ == before.index@.remove(before.heap@[id].key)
                && self.index.wf(before.heap@),
            !before.heap@[id].live ==> self.index == before.index,
        ensures
            self.linked(),
            self@.small == before@.small,
            self@.main == before@.main.drop_first(),
    {
        let e = before.heap@[id];
        self.main_popped(before, id);
        before.index.maps_keys(before.heap@);
        changed_elsewhere(before.heap@, self.small@, id, e);
        changed_elsewhere(before.heap@, self.main@, id, e);
        assert(items(before.heap@, self.main@) =~= before@.main.drop_first());
        self.index.heap_changed(before.heap@, self.heap@);
        assert forall|x: u64| #[trigger] self.heap@.contains_key(x) && self.heap@[x].live implies
            self.index@.contains_key(self.heap@[x].key) && self.index@[self.heap@[x].key] == x by {
            assert(before.heap@.contains_key(x));
        }
    }

    /// Drop dead entries eagerly once they hold a quarter of the budget.
    fn maybe_compact(&mut self)
        requires
            old(self).linked(),
            old(self).counted(),
        ensures
            final(self).linked(),
            final(self).counted(),
            final(self)@ == old(self)@.compacted(),
            final(self).dead_bytes <= final(self).capacity / 4,
            final(self).used == old(self).used,
            final(self).capacity == old(self).capacity,
    {
        if self.dead_bytes <= self.capacity / 4 {
            return;
        }
        let ghost before = *self;
        proof {
            self.queues_are_apart();
            live_ids_are_live(self.heap@, self.small@);
            live_ids_are_live(self.heap@, self.main@);
            self.index.maps_keys(self.heap@);
            policy::total_live_only(before@.small);
            policy::total_live_only(before@.main);
        }
        compact(&mut self.heap, &mut self.small);
        proof {
            assert forall|id: u64| #[trigger] self.main@.contains(id) implies
                self.heap@.contains_key(id) && self.heap@[id] == before.heap@[id] by {
                assert(before.ids().contains(id));
                assert(before.heap@.contains_key(id));
                assert(!before.small@.contains(id));
            }
            assert forall|i: int| 0 <= i < self.main@.len() implies before.heap@[
            #[trigger] self.main@[i]] == self.heap@[self.main@[i]] by {
                assert(self.main@.contains(self.main@[i]));
            }
            same_live_ids(before.heap@, self.heap@, self.main@);
        }
        compact(&mut self.heap, &mut self.main);
        proof {
            let h = before.heap@;
            assert(self.heap@ =~= h.remove_keys(
                Set::new(|id: u64| before.ids().contains(id) && !h[id].live),
            ));
            assert(items(self.heap@, self.small@) =~= items(h, self.small@)) by {
                assert forall|i: int| 0 <= i < self.small@.len() implies self.heap@[#[trigger] self.small@[i]] == h[self.small@[i]] by {
                    assert(self.small@.contains(self.small@[i]));
                }
            }
            assert(items(self.heap@, self.main@) =~= items(h, self.main@)) by {
                assert forall|i: int| 0 <= i < self.main@.len() implies self.heap@[#[trigger] self.main@[i]] == h[self.main@[i]] by {
                    assert(self.main@.contains(self.main@[i]));
                }
            }
            self.compacted_links(before);
        }
        self.small_bytes = self.sum_small();
        self.dead_bytes = 0;
    }

    /// Without their dead entries the queues are linked as before.
    proof fn compacted_links(&self, before: Shard)
        requires
            before.linked(),
            self.heap.wf(),
            self.index == before.index,
            self.evicted == before.evicted,
            self.small@ == live_ids(before.heap@, before.small@),
            self.main@ == live_ids(before.heap@, before.main@),
            self.heap@ == before.heap@.remove_keys(
                Set::new(|id: u64| before.ids().contains(id) && !before.heap@[id].live),
            ),
        ensures
            self.linked(),
    {
        let h = before.heap@;
        before.queues_are_apart();
        live_ids_are_live(h, before.small@);
        live_ids_are_live(h, before.main@);
        self.index.maps_keys(h);
        let n = self.small@.len() as int;
        let ids = self.ids();
        assert forall|i: int, j: int|
            0 <= i < ids.len() && 0 <= j < ids.len() && i != j implies ids[i] != ids[j] by {
            if i < n && j >= n {
                assert(self.small@.contains(ids[i]));
                assert(self.main@.contains(self.main@[j - n]));
            } else if i >= n && j < n {
                assert(self.small@.contains(ids[j]));
                assert(self.main@.contains(self.main@[i - n]));
            } else if i >= n {
                assert(self.main@[i - n] != self.main@[j - n]);
            }
        }
        assert forall|id: u64| #[trigger] self.heap@.contains_key(id) <==> ids.contains(id) by {
            self.queues_are_apart();
            if ids.contains(id) {
                assert(self.small@.contains(id) || self.main@.contains(id));
                assert(before.ids().contains(id));
            }
            if self.heap@.contains_key(id) {
                assert(h.contains_key(id));
                assert(before.ids().contains(id));
                assert(before.small@.contains(id) || before.main@.contains(id));
                assert(self.small@.contains(id) || self.main@.contains(id));
            }
        }
        assert forall|k: Seq<u8>| #[trigger] self.index@.contains_key(k) implies
            self.heap@.contains_key(self.index@[k]) && self.heap@[self.index@[k]]
            == h[self.index@[k]] by {
            assert(h[before.index@[k]].live);
        }
        self.index.heap_changed(h, self.heap@);
        assert forall|x: u64| #[trigger] self.heap@.contains_key(x) && self.heap@[x].live implies
            self.index@.contains_key(self.heap@[x].key) && self.index@[self.heap@[x].key] == x by {
            assert(h.contains_key(x));
        }
    }

    /// Bytes in the small queue.
    fn sum_small(&self) -> (n: usize)
        requires
            self.linked(),
            self@.small_bytes() <= usize::MAX,
        ensures
            n == self@.small_bytes(),
    {
        let mut sum: usize = 0;
        let mut i: usize = 0;
        let ghost small = self@.small;
        while i < self.small.len()
            invariant
                self.linked(),
                small == self@.small,
                policy::total(small, policy::cost()) <= usize::MAX,
                i <= self.small@.len(),
                sum == policy::total(small.take(i as int), policy::cost()),
            decreases self.small@.len() - i,
        {
            let id: u64 = self.small[i];
            proof {
                assert(self.ids()[i as int] == id);
                assert(self.ids().contains(id));
                assert(small.take(i + 1) =~= small.take(i as int).push(small[i as int]));
                policy::total_push(small.take(i as int), small[i as int], policy::cost());
                policy::total_concat(small.take(i + 1), small.skip(i + 1), policy::cost());
                assert(small.take(i + 1) + small.skip(i + 1) =~= small);
            }
            sum = sum + self.heap.get(id).cost();
            i = i + 1;
        }
        assert(small.take(small.len() as int) =~= small);
        sum
    }

    /// The heap holds as many entries as the queues, and those are bounded by
    /// what they are charged for.
    proof fn heap_is_bounded(&self)
        requires
            self.linked(),
            self.counted(),
        ensures
            ENTRY_OVERHEAD * self.heap@.dom().len() <= self.used + self.dead_bytes,
            self.index@.dom().len() <= self.heap@.dom().len(),
    {
        let ids = self.ids();
        assert(self.heap@.dom() =~= ids.to_set());
        ids.unique_seq_to_set();
        policy::total_split(self@.small);
        policy::total_split(self@.main);
        policy::total_bound(self@.small);
        policy::total_bound(self@.main);
        self.index_counts();
    }

    /// Insert or replace. Returns whether any entry was replaced or looked at
    /// to make room. Callers are expected to have run
    /// [`check_fits`](Self::check_fits); an oversized entry is stored anyway
    /// and simply evicts everything else.
    pub fn set(&mut self, key: &[u8], value: &[u8], hash: u64) -> (retired: bool)
        requires
            old(self).wf(),
            old(self).hashed(key@, hash),
            addressable(entry_cost(key@, value@)),
        ensures
            final(self).wf(),
            final(self)@ == old(self)@.set(key@, value@, hash),
            retired == (old(self)@.contains(key@) || old(self)@.kill(key@).crowded(
                entry_cost(key@, value@),
            )),
    {
        let cost: usize = key.len() + value.len() + ENTRY_OVERHEAD;
        // Replace first: the old entry's budget is released before deciding
        // how much to evict, so overwriting a key at full capacity does not
        // evict `cost` bytes of neighbours on top of the entry it replaces.
        // The new entry is not in any queue yet, so eviction cannot reach it.
        let mut retired: bool = self.unlink(hash, key);
        let ghost start = self@;
        let ghost mut stepped = false;
        while self.used + cost > self.capacity
            invariant_except_break
                self@.make_room(cost as nat) == start.make_room(cost as nat),
            invariant
                retired == (old(self)@.contains(key@) || stepped),
                stepped ==> start.crowded(cost as nat),
                !stepped ==> self@ == start,
                self.linked(),
                self.counted(),
                self.capacity == old(self).capacity,
                self@.capacity == start.capacity,
                addressable(cost as nat),
                self.used + self.dead_bytes <= old(self).used + old(self).dead_bytes,
                self.used <= old(self).used,
                !self.index@.contains_key(key@),
            ensures
                self@ == start.make_room(cost as nat),
                !self@.crowded(cost as nat),
                retired == (old(self)@.contains(key@) || start.crowded(cost as nat)),
            decreases self@.small.len() + self@.main.len(), self@.small.len(),
        {
            proof {
                if self@.all().len() > 0 {
                    self@.evict_one_shrinks();
                }
            }
            let evicted: bool = if self.small_bytes >= self.small_capacity {
                self.evict_small() || self.evict_main()
            } else {
                self.evict_main() || self.evict_small()
            };
            if !evicted {
                break;
            }
            retired = true;
            proof {
                stepped = true;
            }
        }
        proof {
            self.heap_is_bounded();
            self.index.maps_keys(self.heap@);
        }
        let ghost room = *self;
        let ghost e = Item { key: key@, value: value@, hash, freq: 0, live: true };
        let id: u64 = self.heap.insert(key, value, hash);
        proof {
            assert(!room.ids().contains(id));
            room.queues_are_apart();
            self.index.heap_changed(room.heap@, self.heap@);
            changed_elsewhere(room.heap@, room.small@, id, e);
            changed_elsewhere(room.heap@, room.main@, id, e);
            policy::total_split(room@.small);
            policy::total_push(room@.small, e, policy::cost());
            policy::total_push(room@.small, e, policy::live_cost());
            policy::total_push(room@.small, e, policy::dead_cost());
            policy::total_push(room@.main, e, policy::live_cost());
            policy::total_push(room@.main, e, policy::dead_cost());
        }
        self.index.insert(&self.heap, id);
        self.used = self.used + cost;
        if self.evicted.take(hash) {
            self.main.push_back(id);
            assert(self@.main =~= room@.main.push(e));
        } else {
            self.small_bytes = self.small_bytes + cost;
            self.small.push_back(id);
            assert(self@.small =~= room@.small.push(e));
        }
        proof {
            self.joined(room, id);
        }
        self.maybe_compact();
        retired
    }

    /// With a new entry at the end of a queue, all else is linked as before.
    proof fn joined(&self, before: Shard, id: u64)
        requires
            before.linked(),
            !before.heap@.contains_key(id),
            self.evicted.wf(),
            self.heap.wf(),
            self.heap@.contains_key(id),
            self.heap@ == before.heap@.insert(id, self.heap@[id]),
            self.heap@[id].live,
            self.heap@[id].freq == 0,
            self.index.wf(self.heap@),
            !before.index@.contains_key(self.heap@[id].key),
            self.index@ == before.index@.insert(self.heap@[id].key, id),
            (self.small@ == before.small@ && self.main@ == before.main@.push(id)) || (self.small@
                == before.small@.push(id) && self.main@ == before.main@),
        ensures
            self.linked(),
    {
        let a = before.ids();
        let b = self.ids();
        let n = if self.main@ == before.main@ {
            before.small@.len() as int
        } else {
            a.len() as int
        };
        assert(b =~= a.insert(n, id));
        before.index.maps_keys(before.heap@);
        assert(!a.contains(id));
        assert forall|i: int, j: int|
            0 <= i < b.len() && 0 <= j < b.len() && i != j implies b[i] != b[j] by {
            if i != n {
                assert(a.contains(b[i]));
            }
            if j != n {
                assert(a.contains(b[j]));
            }
        }
        assert forall|x: u64| #[trigger] self.heap@.contains_key(x) <==> b.contains(x) by {
            if b.contains(x) {
                let i = choose|i: int| 0 <= i < b.len() && b[i] == x;
                if i != n {
                    assert(a.contains(x));
                    assert(before.heap@.contains_key(x));
                }
            }
            if self.heap@.contains_key(x) {
                if x == id {
                    assert(b[n] == x);
                } else {
                    assert(before.heap@.contains_key(x));
                    let i = choose|i: int| 0 <= i < a.len() && a[i] == x;
                    if i < n {
                        assert(b[i] == x);
                    } else {
                        assert(b[i + 1] == x);
                    }
                }
            }
        }
        assert forall|x: u64| #[trigger] self.heap@.contains_key(x) && self.heap@[x].live implies
            self.index@.contains_key(self.heap@[x].key) && self.index@[self.heap@[x].key] == x by {
            if x != id {
                assert(before.heap@.contains_key(x));
            }
        }
    }

    /// Deletes a key. Returns whether it was there.
    pub fn del(&mut self, hash: u64, key: &[u8]) -> (r: bool)
        requires
            old(self).wf(),
            old(self).hashed(key@, hash),
        ensures
            final(self).wf(),
            final(self)@ == old(self)@.del(key@),
            r == old(self)@.contains(key@),
    {
        let ghost before = *self;
        if !self.unlink(hash, key) {
            proof {
                assert(policy::buried(before@.small, key@) =~= before@.small) by {
                    assert forall|i: int| 0 <= i < before@.small.len() implies #[trigger] policy::buried(before@.small, key@)[i] == before@.small[i] by {
                        assert(before@.all()[i] == before@.small[i]);
                        assert(!policy::at(before@.all(), key@, i));
                    }
                }
                assert(policy::buried(before@.main, key@) =~= before@.main) by {
                    let n = before@.small.len() as int;
                    assert forall|i: int| 0 <= i < before@.main.len() implies #[trigger] policy::buried(before@.main, key@)[i] == before@.main[i] by {
                        assert(before@.all()[n + i] == before@.main[i]);
                        assert(!policy::at(before@.all(), key@, n + i));
                    }
                }
            }
            self.del_misses = self.del_misses.wrapping_add(1);
            return false;
        }
        self.maybe_compact();
        self.del_hits = self.del_hits.wrapping_add(1);
        true
    }

    /// The live entry for `key`, counting the read.
    pub fn lookup(&mut self, hash: u64, key: &[u8]) -> (r: Option<Entry>)
        requires
            old(self).wf(),
            old(self).hashed(key@, hash),
        ensures
            final(self).wf(),
            final(self)@ == old(self)@.read(key@),
            match r {
                Some(e) => e.wf() && e@.key == key@ && old(self)@.value(key@) == Some(e@.value),
                None => old(self)@.value(key@) is None,
            },
    {
        proof {
            self.index_agrees(key@);
        }
        let ghost before = *self;
        match self.index.get(&self.heap, hash, key) {
            Some(id) => {
                self.heap.touch(id);
                proof {
                    self.index.maps_keys(before.heap@);
                    before.queues_are_apart();
                    self.index.heap_changed(before.heap@, self.heap@);
                    self.changed_sum(before, id, policy::live_cost());
                    self.changed_sum(before, id, policy::dead_cost());
                    self.changed_sum(before, id, policy::cost());
                    assert(self@.small =~= policy::touched(before@.small, key@)) by {
                        assert forall|i: int| 0 <= i < self.small@.len() implies #[trigger] self@.small[i]
                            == policy::touched(before@.small, key@)[i] by {
                            assert(before.small@.contains(before.small@[i]));
                            assert(before.heap@.contains_key(before.small@[i]));
                        }
                    }
                    assert(self@.main =~= policy::touched(before@.main, key@)) by {
                        assert forall|i: int| 0 <= i < self.main@.len() implies #[trigger] self@.main[i]
                            == policy::touched(before@.main, key@)[i] by {
                            assert(before.main@.contains(before.main@[i]));
                            assert(before.heap@.contains_key(before.main@[i]));
                        }
                    }
                    assert forall|x: u64| #[trigger]
                        self.heap@.contains_key(x) && self.heap@[x].live implies
                        self.index@.contains_key(self.heap@[x].key)
                        && self.index@[self.heap@[x].key] == x by {
                        assert(before.heap@.contains_key(x));
                    }
                }
                self.get_hits = self.get_hits.wrapping_add(1);
                Some(self.heap.get(id).clone())
            },
            None => {
                self.get_misses = self.get_misses.wrapping_add(1);
                None
            },
        }
    }
}

} // verus!
