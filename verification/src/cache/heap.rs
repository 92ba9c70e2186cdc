//! Entries, and the memory that the index and the queues of a shard share.
//!
//! A shard's entries live in one [`Heap`]. The index and the queues refer to
//! an entry by its id, which takes the place of an address: it names the entry
//! for as long as the entry is held.

use super::key::Key;
use crate::buf;
use bytes::Bytes;
use vstd::prelude::*;

verus! {

/// Maximum frequency value tracked per entry.
pub const FREQ_CAP: u8 = 3;

/// Approximate per-entry bookkeeping overhead in bytes (queue, counters, index slot).
pub const ENTRY_OVERHEAD: usize = 128;

/// Ids are below this: 48 bits, so that an index slot can hold one beside a tag.
pub const ID_END: u64 = 0x1_0000_0000_0000;

/// Per-entry metadata kept in front of the value.
pub struct Meta {
    key: Key,
    hash: u64,
    freq: u8,
    live: bool,
}

/// A cached item: its metadata and value. The value is shared, so a clone is
/// another handle on the same bytes and keeps them alive.
pub struct Entry {
    id: u64,
    meta: Meta,
    value: Bytes,
}

/// What an entry holds.
pub struct Item {
    pub key: Seq<u8>,
    pub value: Seq<u8>,
    pub hash: u64,
    /// How often it was read since it was stored or last spared, up to [`FREQ_CAP`].
    pub freq: nat,
    /// Whether it can be found; an entry that cannot waits to leave its queue.
    pub live: bool,
}

impl Item {
    /// The bytes an entry is charged for.
    pub open spec fn cost(self) -> nat {
        self.key.len() + self.value.len() + ENTRY_OVERHEAD as nat
    }
}

impl View for Entry {
    type V = Item;

    closed spec fn view(&self) -> Item {
        Item {
            key: self.meta.key@,
            value: buf::bytes_seq(self.value),
            hash: self.meta.hash,
            freq: self.meta.freq as nat,
            live: self.meta.live,
        }
    }
}

impl Clone for Entry {
    fn clone(&self) -> (e: Self)
        ensures
            e@ == self@,
            e.id() == self.id(),
            self.wf() ==> e.wf(),
    {
        Entry {
            id: self.id,
            meta: Meta {
                key: self.meta.key.clone(),
                hash: self.meta.hash,
                freq: self.meta.freq,
                live: self.meta.live,
            },
            value: self.value.clone(),
        }
    }
}

impl Entry {
    pub closed spec fn wf(&self) -> bool {
        self.meta.key.wf()
    }

    /// What tells this entry from every other one held with it.
    pub closed spec fn id(&self) -> u64 {
        self.id
    }

    /// A fresh entry: live, and never read.
    pub fn new(key: Key, value: &[u8], hash: u64, id: u64) -> (e: Self)
        requires
            key.wf(),
        ensures
            e.wf(),
            e.id() == id,
            e@ == (Item { key: key@, value: value@, hash, freq: 0, live: true }),
    {
        Entry {
            id,
            meta: Meta { key, hash, freq: 0, live: true },
            value: Bytes::copy_from_slice(value),
        }
    }

    #[inline]
    pub fn key(&self) -> (k: &[u8])
        requires
            self.wf(),
        ensures
            k@ == self@.key,
    {
        self.meta.key.as_slice()
    }

    #[inline]
    pub fn value(&self) -> (v: &[u8])
        ensures
            v@ == self@.value,
    {
        buf::bytes_slice(&self.value)
    }

    /// The value as a shared handle.
    #[inline]
    pub fn share(&self) -> (v: Bytes)
        ensures
            buf::bytes_seq(v) == self@.value,
    {
        self.value.clone()
    }

    /// Whether two handles are on the same entry.
    #[inline]
    pub fn ptr_eq(a: &Self, b: &Self) -> (r: bool)
        ensures
            r == (a.id() == b.id()),
    {
        a.id == b.id
    }

    #[inline]
    pub fn cost(&self) -> (n: usize)
        requires
            self.wf(),
            self@.cost() <= usize::MAX,
        ensures
            n == self@.cost(),
    {
        self.meta.key.as_slice().len() + self.value.len() + ENTRY_OVERHEAD
    }

    #[inline]
    pub fn hash(&self) -> (h: u64)
        ensures
            h == self@.hash,
    {
        self.meta.hash
    }

    #[inline]
    pub fn freq(&self) -> (f: u8)
        ensures
            f == self@.freq,
    {
        self.meta.freq
    }

    #[inline]
    pub fn live(&self) -> (l: bool)
        ensures
            l == self@.live,
    {
        self.meta.live
    }

    /// Count a read.
    #[inline]
    pub fn touch(&mut self)
        ensures
            final(self)@ == (Item {
                freq: if old(self)@.freq < FREQ_CAP {
                    old(self)@.freq + 1
                } else {
                    old(self)@.freq
                },
                ..old(self)@
            }),
            final(self).id() == old(self).id(),
            final(self).wf() == old(self).wf(),
    {
        if self.meta.freq < FREQ_CAP {
            self.meta.freq = self.meta.freq + 1;
        }
    }

    #[inline]
    pub(crate) fn set_freq(&mut self, freq: u8)
        ensures
            final(self)@ == (Item { freq: freq as nat, ..old(self)@ }),
            final(self).id() == old(self).id(),
            final(self).wf() == old(self).wf(),
    {
        self.meta.freq = freq;
    }

    #[inline]
    pub(crate) fn set_dead(&mut self)
        ensures
            final(self)@ == (Item { live: false, ..old(self)@ }),
            final(self).id() == old(self).id(),
            final(self).wf() == old(self).wf(),
    {
        self.meta.live = false;
    }
}

/// The entries of one shard, each under its id. Ids of entries that left are
/// given out again.
pub struct Heap {
    /// The entry with id `i + 1` at `i`.
    slots: Vec<Option<Entry>>,
    /// Ids that name no entry.
    free: Vec<u64>,
}

impl View for Heap {
    type V = Map<u64, Item>;

    /// The entries held, by id.
    closed spec fn view(&self) -> Map<u64, Item> {
        Map::new(
            |id: u64| 1 <= id <= self.slots@.len() && self.slots@[id - 1] is Some,
            |id: u64| self.slots@[id - 1]->0@,
        )
    }
}

impl Heap {
    pub closed spec fn wf(&self) -> bool {
        &&& self.slots@.len() < ID_END
        &&& self.slots@.len() <= usize::MAX
        &&& forall|i: int|
            0 <= i < self.slots@.len() ==> (#[trigger] self.slots@[i] matches Some(e) ==> e.wf()
                && e.id() == i + 1)
        &&& forall|j: int|
            0 <= j < self.free@.len() ==> 1 <= #[trigger] self.free@[j] <= self.slots@.len()
                && self.slots@[self.free@[j] - 1] is None
        &&& self.free@.no_duplicates()
        &&& self.slots@.len() == self.free@.len() + self@.dom().len()
        &&& self@.dom().finite()
    }

    pub fn new() -> (h: Self)
        ensures
            h.wf(),
            h@ == Map::<u64, Item>::empty(),
    {
        let h = Heap { slots: Vec::new(), free: Vec::new() };
        assert(h@ =~= Map::<u64, Item>::empty());
        h
    }

    /// Holds a fresh entry, under an id that named none.
    pub fn insert(&mut self, key: &[u8], value: &[u8], hash: u64) -> (id: u64)
        requires
            old(self).wf(),
            old(self)@.dom().len() + 1 < ID_END,
        ensures
            final(self).wf(),
            1 <= id < ID_END,
            !old(self)@.contains_key(id),
            final(self)@ == old(self)@.insert(
                id,
                (Item { key: key@, value: value@, hash, freq: 0, live: true }),
            ),
    {
        let k = Key::new(key);
        let ghost item = Item { key: key@, value: value@, hash, freq: 0, live: true };
        let ghost slots = self.slots@;
        let ghost free = self.free@;
        let id: u64 = match self.free.pop() {
            Some(id) => {
                let e = Entry::new(k, value, hash, id);
                assert(free[free.len() - 1] == id);
                self.slots.set((id - 1) as usize, Some(e));
                id
            },
            None => {
                let id: u64 = self.slots.len() as u64 + 1;
                self.slots.push(Some(Entry::new(k, value, hash, id)));
                id
            },
        };
        // The slots are in memory, so an index into them fits.
        let _n: usize = self.slots.len();
        proof {
            assert(self@ =~= old(self)@.insert(id, item));
            assert forall|j: int| 0 <= j < self.free@.len() implies 1 <= #[trigger] self.free@[j]
                <= self.slots@.len() && self.slots@[self.free@[j] - 1] is None by {
                assert(self.free@[j] == free[j]);
                assert(slots[free[j] - 1] is None);
            }
        }
        id
    }

    /// The entry under `id`.
    #[inline]
    pub fn get(&self, id: u64) -> (e: &Entry)
        requires
            self.wf(),
            self@.contains_key(id),
        ensures
            e.wf(),
            e.id() == id,
            e@ == self@[id],
    {
        match &self.slots[(id - 1) as usize] {
            Some(e) => e,
            None => {
                assert(false);
                vstd::pervasive::unreached()
            },
        }
    }

    /// Count a read of the entry under `id`.
    #[inline]
    pub fn touch(&mut self, id: u64)
        requires
            old(self).wf(),
            old(self)@.contains_key(id),
        ensures
            final(self).wf(),
            final(self)@ == old(self)@.insert(
                id,
                (Item {
                    freq: if old(self)@[id].freq < FREQ_CAP {
                        old(self)@[id].freq + 1
                    } else {
                        old(self)@[id].freq
                    },
                    ..old(self)@[id]
                }),
            ),
    {
        if let Some(e) = &mut self.slots[(id - 1) as usize] {
            e.touch();
        }
        proof {
            self.updated(*old(self), id);
        }
    }

    /// Sets the frequency of the entry under `id`.
    #[inline]
    pub fn set_freq(&mut self, id: u64, freq: u8)
        requires
            old(self).wf(),
            old(self)@.contains_key(id),
        ensures
            final(self).wf(),
            final(self)@ == old(self)@.insert(
                id,
                (Item { freq: freq as nat, ..old(self)@[id] }),
            ),
    {
        if let Some(e) = &mut self.slots[(id - 1) as usize] {
            e.set_freq(freq);
        }
        proof {
            self.updated(*old(self), id);
        }
    }

    /// Marks the entry under `id` as one that cannot be found any more.
    #[inline]
    pub fn set_dead(&mut self, id: u64)
        requires
            old(self).wf(),
            old(self)@.contains_key(id),
        ensures
            final(self).wf(),
            final(self)@ == old(self)@.insert(id, (Item { live: false, ..old(self)@[id] })),
    {
        if let Some(e) = &mut self.slots[(id - 1) as usize] {
            e.set_dead();
        }
        proof {
            self.updated(*old(self), id);
        }
    }

    /// Replacing one entry by another under the same id keeps the heap sound.
    proof fn updated(&self, before: Heap, id: u64)
        requires
            before.wf(),
            before@.contains_key(id),
            self.free == before.free,
            self.slots@.len() == before.slots@.len(),
            forall|i: int|
                0 <= i < before.slots@.len() && i != id - 1 ==> self.slots@[i]
                    == before.slots@[i],
            self.slots@[id - 1] matches Some(e) && e.wf() && e.id() == id,
        ensures
            self.wf(),
            self@ == before@.insert(id, self.slots@[id - 1]->0@),
    {
        assert(self@ =~= before@.insert(id, self.slots@[id - 1]->0@));
        assert(self@.dom() =~= before@.dom());
        assert forall|j: int| 0 <= j < self.free@.len() implies 1 <= #[trigger] self.free@[j]
            <= self.slots@.len() && self.slots@[self.free@[j] - 1] is None by {
            assert(before.slots@[before.free@[j] - 1] is None);
        }
    }

    /// Lets go of the entry under `id`.
    pub fn remove(&mut self, id: u64)
        requires
            old(self).wf(),
            old(self)@.contains_key(id),
        ensures
            final(self).wf(),
            final(self)@ == old(self)@.remove(id),
    {
        self.slots.set((id - 1) as usize, None);
        let ghost free = self.free@;
        self.free.push(id);
        proof {
            assert(self@ =~= old(self)@.remove(id));
            assert(self.free@.no_duplicates()) by {
                if free.contains(id) {
                    let j = choose|j: int| 0 <= j < free.len() && free[j] == id;
                    assert(old(self).slots@[free[j] - 1] is None);
                }
            }
        }
    }
}

} // verus!
