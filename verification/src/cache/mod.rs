//! S3-FIFO cache. Keys are hashed once; the top bits of the hash pick a shard,
//! which owns both the cuckoo index for its keys and the S3-FIFO queues that
//! decide what stays in it.

pub mod heap;
pub mod key;
pub mod laws;
pub mod policy;
pub mod s3fifo;
pub mod slab;
pub mod table;

pub use self::heap::Entry;
pub use self::s3fifo::TooLarge;

use self::policy::{Counts, State};
use self::s3fifo::Shard;
use vstd::prelude::*;

verus! {

/// The hash of some bytes under a seed and secrets: `rapidhash::v3::rapidhash_v3_seeded`.
pub uninterp spec fn rapidhash_v3(data: Seq<u8>, seed: u64, secrets: Seq<u64>) -> u64;

/// `rapidhash::v3::rapidhash_v3_seeded`: the portable hash of the crate, which
/// depends on the bytes, the seed and the secrets alone.
#[verifier::external_body]
fn rapidhash(data: &[u8], seed: u64, secrets: [u64; 7]) -> (h: u64)
    ensures
        h == rapidhash_v3(data@, seed, secrets@),
{
    rapidhash::v3::rapidhash_v3_seeded(data, &rapidhash::v3::RapidSecrets { seed, secrets })
}

/// `rapidhash::v3::RapidSecrets::random`: a seed and secrets picked at random,
/// of which nothing can be said.
#[verifier::external_body]
fn random_secrets() -> (s: (u64, [u64; 7])) {
    let s = rapidhash::v3::RapidSecrets::random();
    (s.seed, s.secrets)
}

/// Numbers describing a cache, summed over its shards; the counters modulo 2^64.
#[derive(Clone, Copy, Debug, PartialEq, Eq, Structural)]
pub struct Stats {
    pub get_hits: u64,
    pub get_misses: u64,
    pub del_hits: u64,
    pub del_misses: u64,
    pub evictions: u64,
    pub used_bytes: usize,
    pub capacity: usize,
    pub items: usize,
}

/// What a cache holds: the state of its shards, and how keys are hashed.
#[verifier::ext_equal]
pub struct CacheState {
    pub seed: u64,
    pub secrets: Seq<u64>,
    pub shards: Seq<State>,
}

/// The shard for a hash among `n`, a power of two: its top bits.
pub open spec fn shard_of(n: nat, hash: u64) -> int {
    (hash * n) as int / 0x1_0000_0000_0000_0000
}

impl CacheState {
    /// The hash of a key.
    pub open spec fn hash(self, key: Seq<u8>) -> u64 {
        rapidhash_v3(key, self.seed, self.secrets)
    }

    /// The shard a key belongs to.
    pub open spec fn home(self, key: Seq<u8>) -> int {
        shard_of(self.shards.len(), self.hash(key))
    }

    /// The value a read of `key` gives.
    pub open spec fn value(self, key: Seq<u8>) -> Option<Seq<u8>> {
        self.shards[self.home(key)].value(key)
    }

    /// The byte budget of each shard.
    pub open spec fn shard_capacity(self) -> nat {
        self.shards[0].capacity
    }

    /// Whether an entry can ever be resident.
    pub open spec fn fits(self, key: Seq<u8>, value: Seq<u8>) -> bool {
        s3fifo::entry_cost(key, value) <= self.shard_capacity()
    }

    /// There is a shard; all are valid, have the same budget and keep it; and a
    /// key is only ever found in its own, under its hash.
    pub open spec fn valid(self) -> bool {
        &&& self.shards.len() > 0
        &&& forall|i: int|
            0 <= i < self.shards.len() ==> {
                let s = #[trigger] self.shards[i];
                &&& s.valid()
                &&& s.capacity == self.shard_capacity()
                &&& s.used() <= s.capacity
            }
        &&& forall|i: int, k: Seq<u8>|
            0 <= i < self.shards.len() && #[trigger] self.shards[i].contains(k) ==> self.home(k)
                == i && self.shards[i].item(k).hash == self.hash(k)
    }

    pub open spec fn with(self, key: Seq<u8>, s: State) -> CacheState {
        CacheState { shards: self.shards.update(self.home(key), s), ..self }
    }

    /// What reading a key does.
    pub open spec fn read(self, key: Seq<u8>) -> CacheState {
        self.with(key, self.shards[self.home(key)].read(key))
    }

    /// What storing a value does: nothing when it could never fit.
    pub open spec fn set(self, key: Seq<u8>, value: Seq<u8>) -> CacheState {
        if self.fits(key, value) {
            self.with(key, self.shards[self.home(key)].set(key, value, self.hash(key)))
        } else {
            self
        }
    }

    /// What deleting a key does.
    pub open spec fn del(self, key: Seq<u8>) -> CacheState {
        self.with(key, self.shards[self.home(key)].del(key))
    }

    /// What reading keys one after another does.
    pub open spec fn read_all(self, keys: Seq<Seq<u8>>) -> CacheState
        decreases keys.len(),
    {
        if keys.len() == 0 {
            self
        } else {
            self.read_all(keys.drop_last()).read(keys.last())
        }
    }

    /// What storing values one after another does.
    pub open spec fn set_all(self, entries: Seq<(Seq<u8>, Seq<u8>)>) -> CacheState
        decreases entries.len(),
    {
        if entries.len() == 0 {
            self
        } else {
            self.set_all(entries.drop_last()).set(entries.last().0, entries.last().1)
        }
    }

    /// What deleting keys one after another does.
    pub open spec fn del_all(self, keys: Seq<Seq<u8>>) -> CacheState
        decreases keys.len(),
    {
        if keys.len() == 0 {
            self
        } else {
            self.del_all(keys.drop_last()).del(keys.last())
        }
    }

    /// A counter summed over the shards, modulo 2^64.
    pub open spec fn counted(self, w: spec_fn(State) -> nat) -> nat {
        total(self.shards, w) % 0x1_0000_0000_0000_0000
    }

    /// Whether the numbers are those of this cache, its budget left aside.
    pub open spec fn described_by(self, s: Stats) -> bool {
        &&& s.get_hits == self.counted(|s: State| s.counts.get_hits as nat)
        &&& s.get_misses == self.counted(|s: State| s.counts.get_misses as nat)
        &&& s.del_hits == self.counted(|s: State| s.counts.del_hits as nat)
        &&& s.del_misses == self.counted(|s: State| s.counts.del_misses as nat)
        &&& s.evictions == self.counted(|s: State| s.counts.evictions as nat)
        &&& s.used_bytes == self.used()
        &&& s.items == self.count()
    }

    /// Bytes of live entries.
    pub open spec fn used(self) -> nat {
        total(self.shards, |s: State| s.used())
    }

    /// How many entries are live.
    pub open spec fn count(self) -> nat {
        total(self.shards, |s: State| s.count())
    }
}

/// The sum of `w` over shards.
pub open spec fn total(shards: Seq<State>, w: spec_fn(State) -> nat) -> nat
    decreases shards.len(),
{
    if shards.len() == 0 {
        0
    } else {
        total(shards.drop_last(), w) + w(shards.last())
    }
}

/// A hash picks one of the shards.
proof fn shard_of_is_a_shard(n: nat, hash: u64)
    requires
        n > 0,
    ensures
        0 <= shard_of(n, hash) < n,
{
    let h = hash as int;
    assert(0 <= h * n < 0x1_0000_0000_0000_0000 * n) by (nonlinear_arith)
        requires
            0 <= h < 0x1_0000_0000_0000_0000,
            n > 0,
    ;
}

/// A write to a valid cache is read back, and the cache stays valid.
pub proof fn a_write_is_read_back(c: CacheState, key: Seq<u8>, value: Seq<u8>)
    requires
        c.valid(),
    ensures
        c.set(key, value).valid(),
        c.set(key, value).value(key) == if c.fits(key, value) {
            Some(value)
        } else {
            c.value(key)
        },
{
    shard_of_is_a_shard(c.shards.len(), c.hash(key));
    if c.fits(key, value) {
        let h = c.home(key);
        let s = c.shards[h];
        let t = c.set(key, value);
        laws::a_write_is_read_back(s, key, value, c.hash(key));
        laws::the_budget_is_kept(s, key, value, c.hash(key));
        assert(t.shards[h] == s.set(key, value, c.hash(key)));
        assert(t.shard_capacity() == c.shard_capacity()) by {
            assert(c.shards[0].capacity == c.shards[h].capacity);
        }
        assert forall|i: int, k: Seq<u8>|
            0 <= i < t.shards.len() && #[trigger] t.shards[i].contains(k) implies t.home(k) == i
            && t.shards[i].item(k).hash == t.hash(k) by {
            if i == h {
                if k != key {
                    laws::a_write_leaves_other_keys(s, key, value, c.hash(key), k);
                    assert(c.shards[h].contains(k));
                }
            } else {
                assert(c.shards[i].contains(k));
            }
        }
    }
}

/// A write changes no other key's value: that is as before, or evicted.
pub proof fn a_write_leaves_other_keys(
    c: CacheState,
    key: Seq<u8>,
    value: Seq<u8>,
    other: Seq<u8>,
)
    requires
        c.valid(),
        other != key,
    ensures
        c.set(key, value).value(other) is None || c.set(key, value).value(other) == c.value(other),
{
    shard_of_is_a_shard(c.shards.len(), c.hash(key));
    shard_of_is_a_shard(c.shards.len(), c.hash(other));
    laws::a_write_leaves_other_keys(c.shards[c.home(key)], key, value, c.hash(key), other);
}

/// A deleted key is gone, and no other key is touched.
pub proof fn a_delete_takes_one_key(c: CacheState, key: Seq<u8>, other: Seq<u8>)
    requires
        c.valid(),
    ensures
        c.del(key).valid(),
        c.del(key).value(key) is None,
        other != key ==> c.del(key).value(other) == c.value(other),
{
    shard_of_is_a_shard(c.shards.len(), c.hash(key));
    shard_of_is_a_shard(c.shards.len(), c.hash(other));
    let h = c.home(key);
    let s = c.shards[h];
    let t = c.del(key);
    laws::a_delete_takes_one_key(s, key, other);
    assert(t.shards[h] == s.del(key));
    assert(t.shard_capacity() == c.shard_capacity()) by {
        assert(c.shards[0].capacity == c.shards[h].capacity);
    }
    assert forall|i: int, k: Seq<u8>|
        0 <= i < t.shards.len() && #[trigger] t.shards[i].contains(k) implies t.home(k) == i
        && t.shards[i].item(k).hash == t.hash(k) by {
        if i == h {
            laws::a_delete_takes_one_key(s, key, k);
            assert(c.shards[h].contains(k));
        } else {
            assert(c.shards[i].contains(k));
        }
    }
}

/// A read changes no value.
pub proof fn a_read_changes_no_value(c: CacheState, key: Seq<u8>, other: Seq<u8>)
    requires
        c.valid(),
    ensures
        c.read(key).valid(),
        c.read(key).value(other) == c.value(other),
{
    shard_of_is_a_shard(c.shards.len(), c.hash(key));
    shard_of_is_a_shard(c.shards.len(), c.hash(other));
    let h = c.home(key);
    let s = c.shards[h];
    let t = c.read(key);
    laws::a_read_changes_no_value(s, key, other);
    assert(t.shards[h] == s.read(key));
    assert(t.shard_capacity() == c.shard_capacity()) by {
        assert(c.shards[0].capacity == c.shards[h].capacity);
    }
    assert forall|i: int, k: Seq<u8>|
        0 <= i < t.shards.len() && #[trigger] t.shards[i].contains(k) implies t.home(k) == i
        && t.shards[i].item(k).hash == t.hash(k) by {
        if i == h {
            laws::a_read_changes_no_value(s, key, k);
            assert(c.shards[h].contains(k));
        } else {
            assert(c.shards[i].contains(k));
        }
    }
}

/// A value that is held is no longer than the budget of its shard.
pub proof fn a_value_is_within_its_shard(c: CacheState, key: Seq<u8>)
    requires
        c.valid(),
    ensures
        c.value(key) matches Some(v) ==> v.len() <= c.shard_capacity(),
{
    shard_of_is_a_shard(c.shards.len(), c.hash(key));
    let s = c.shards[c.home(key)];
    if s.contains(key) {
        let all = s.all();
        let i = choose|i: int| policy::at(all, key, i);
        policy::total_member(all, i, policy::live_cost());
        policy::total_concat(s.small, s.main, policy::live_cost());
    }
}

/// The first power of two at or above `n`, from `p` on.
pub open spec fn power_from(p: nat, n: nat) -> nat
    decreases
            (if n > p {
                n - p
            } else {
                0
            }),
{
    if p == 0 || p >= n {
        p
    } else {
        power_from(2 * p, n)
    }
}

/// The shards of a new cache: as many as asked for, rounded up to a power of
/// two, with an equal share of the budget each.
pub open spec fn empty_shards(capacity: nat, shards: nat) -> Seq<State> {
    let n = power_from(1, shards);
    Seq::new(n, |i: int| State::empty(capacity / n))
}

/// A cache of byte strings by byte string.
pub struct Cache {
    shards: Vec<Shard>,
    seed: u64,
    secrets: [u64; 7],
    capacity: usize,
}

impl View for Cache {
    type V = CacheState;

    closed spec fn view(&self) -> CacheState {
        CacheState {
            seed: self.seed,
            secrets: self.secrets@,
            shards: self.shards@.map_values(|s: Shard| s@),
        }
    }
}

/// Byte strings as sequences.
pub open spec fn seqs(keys: Seq<&[u8]>) -> Seq<Seq<u8>> {
    keys.map_values(|k: &[u8]| k@)
}

/// Pairs of byte strings as pairs of sequences.
pub open spec fn pairs(entries: Seq<(&[u8], &[u8])>) -> Seq<(Seq<u8>, Seq<u8>)> {
    entries.map_values(|e: (&[u8], &[u8])| (e.0@, e.1@))
}

/// The counters of two shards as one, each wrapping as a counter does.
fn together(a: Counts, b: Counts) -> (c: Counts)
    ensures
        c.get_hits == (a.get_hits + b.get_hits) % 0x1_0000_0000_0000_0000,
        c.get_misses == (a.get_misses + b.get_misses) % 0x1_0000_0000_0000_0000,
        c.del_hits == (a.del_hits + b.del_hits) % 0x1_0000_0000_0000_0000,
        c.del_misses == (a.del_misses + b.del_misses) % 0x1_0000_0000_0000_0000,
        c.evictions == (a.evictions + b.evictions) % 0x1_0000_0000_0000_0000,
{
    Counts {
        get_hits: a.get_hits.wrapping_add(b.get_hits),
        get_misses: a.get_misses.wrapping_add(b.get_misses),
        del_hits: a.del_hits.wrapping_add(b.del_hits),
        del_misses: a.del_misses.wrapping_add(b.del_misses),
        evictions: a.evictions.wrapping_add(b.evictions),
    }
}

/// A sum that wraps at every step is the whole sum wrapped once.
proof fn wrapping_once(t: nat, n: u64)
    ensures
        (t % 0x1_0000_0000_0000_0000 + n) % 0x1_0000_0000_0000_0000 == (t + n)
            % 0x1_0000_0000_0000_0000,
{
}

impl Cache {
    pub closed spec fn wf(&self) -> bool {
        &&& self@.valid()
        &&& forall|i: int| 0 <= i < self.shards@.len() ==> (#[trigger] self.shards@[i]).wf()
        &&& self.shards@.len() * self@.shard_capacity() <= self.capacity
        &&& s3fifo::addressable(self.capacity as nat)
    }

    /// What the cache holds is valid.
    pub proof fn is_valid(&self)
        requires
            self.wf(),
        ensures
            self@.valid(),
            self@.shard_capacity() <= usize::MAX,
    {
        assert(self@.shards[0] == self.shards@[0]@);
        let per = self@.shard_capacity() as int;
        let n = self.shards@.len() as int;
        assert(per <= n * per) by (nonlinear_arith)
            requires
                n >= 1,
                per >= 0,
        ;
    }

    /// The memory budget.
    pub closed spec fn budget(&self) -> nat {
        self.capacity as nat
    }

    /// Build a cache with `capacity` bytes split across `shards` (rounded up
    /// to a power of two) independent S3-FIFO shards.
    pub fn new(capacity: usize, shards: usize) -> (c: Self)
        requires
            s3fifo::addressable(capacity as nat),
            shards <= usize::MAX / 2,
        ensures
            c.wf(),
            c.budget() == capacity,
            c@.shards == empty_shards(capacity as nat, shards as nat),
    {
        let (seed, secrets) = random_secrets();
        Self::with_secrets(capacity, shards, seed, secrets)
    }

    /// Like [`new`](Self::new), hashing keys under the given seed and secrets.
    pub fn with_secrets(capacity: usize, shards: usize, seed: u64, secrets: [u64; 7]) -> (c: Self)
        requires
            s3fifo::addressable(capacity as nat),
            shards <= usize::MAX / 2,
        ensures
            c.wf(),
            c.budget() == capacity,
            c@.seed == seed,
            c@.secrets == secrets@,
            c@.shards == empty_shards(capacity as nat, shards as nat),
    {
        let mut n: usize = 1;
        while n < shards
            invariant
                1 <= n,
                shards <= usize::MAX / 2,
                power_from(n as nat, shards as nat) == power_from(1, shards as nat),
            decreases
                    (if shards > n {
                        shards - n
                    } else {
                        0
                    }),
        {
            n = n * 2;
        }
        let per: usize = capacity / n;
        assert(n * per <= capacity) by (nonlinear_arith)
            requires
                n >= 1,
                per == capacity / n,
        ;
        let mut list: Vec<Shard> = Vec::new();
        let mut i: usize = 0;
        while i < n
            invariant
                i <= n,
                list@.len() == i,
                s3fifo::addressable(per as nat),
                forall|j: int| 0 <= j < i ==> (#[trigger] list@[j]).wf(),
                forall|j: int| 0 <= j < i ==> (#[trigger] list@[j])@ == State::empty(per as nat),
            decreases n - i,
        {
            list.push(Shard::new(per));
            i = i + 1;
        }
        let c = Cache { shards: list, seed, secrets, capacity };
        proof {
            assert(c@.shards =~= empty_shards(capacity as nat, shards as nat));
            assert forall|j: int, k: Seq<u8>|
                0 <= j < c@.shards.len() implies !#[trigger] c@.shards[j].contains(k) by {
                assert(c@.shards[j].all().len() == 0);
            }
            assert forall|j: int| 0 <= j < c@.shards.len() implies #[trigger] c@.shards[j].valid()
                && c@.shards[j].capacity == per && c@.shards[j].used() == 0 by {
                assert(c@.shards[j] == State::empty(per as nat));
                assert(c@.shards[j].all() =~= Seq::empty());
            }
            assert(c@.valid());
        }
        c
    }

    /// The shard a key belongs to, and its hash.
    #[inline]
    fn locate(&self, key: &[u8]) -> (r: (usize, u64))
        requires
            self.wf(),
        ensures
            r.0 == self@.home(key@),
            r.0 < self.shards@.len(),
            r.1 == self@.hash(key@),
            self.shards@[r.0 as int].hashed(key@, r.1),
    {
        let hash: u64 = rapidhash(key, self.seed, self.secrets);
        let n: usize = self.shards.len();
        proof {
            shard_of_is_a_shard(n as nat, hash);
            assert(hash as u128 * n as u128 <= 0xffff_ffff_ffff_ffff * 0xffff_ffff_ffff_ffff)
                by (nonlinear_arith)
                requires
                    hash <= 0xffff_ffff_ffff_ffff,
                    n <= 0xffff_ffff_ffff_ffff,
            ;
        }
        let i: usize = ((hash as u128 * n as u128) / 0x1_0000_0000_0000_0000) as usize;
        proof {
            let s = self@.shards[i as int];
            assert(s == self.shards@[i as int]@);
            if s.contains(key@) {
                assert(self@.shards[i as int].contains(key@));
            }
        }
        (i, hash)
    }

    /// Changing the shard of a key changes just that.
    proof fn shard_changed(&self, before: &Cache, key: Seq<u8>)
        requires
            before.wf(),
            self.seed == before.seed,
            self.secrets == before.secrets,
            self.capacity == before.capacity,
            0 <= before@.home(key) < before.shards@.len(),
            self.shards@ == before.shards@.update(
                before@.home(key),
                self.shards@[before@.home(key)],
            ),
            self.shards@[before@.home(key)].wf(),
            self.shards@[before@.home(key)]@.capacity == before@.shard_capacity(),
        ensures
            self@ == before@.with(key, self.shards@[before@.home(key)]@),
            forall|i: int| 0 <= i < self.shards@.len() ==> (#[trigger] self.shards@[i]).wf(),
            self@.shard_capacity() == before@.shard_capacity(),
            self.shards@.len() == before.shards@.len(),
    {
        assert(self@.shards =~= before@.shards.update(
            before@.home(key),
            self.shards@[before@.home(key)]@,
        ));
        assert(before@.shards[before@.home(key)].capacity == before@.shard_capacity());
    }

    /// Look up one key. The returned handle keeps the value alive.
    pub fn get(&mut self, key: &[u8]) -> (r: Option<Entry>)
        requires
            old(self).wf(),
        ensures
            final(self).wf(),
            final(self).budget() == old(self).budget(),
            final(self)@ == old(self)@.read(key@),
            match r {
                Some(e) => e.wf() && e@.key == key@ && old(self)@.value(key@) == Some(e@.value),
                None => old(self)@.value(key@) is None,
            },
    {
        let (i, hash) = self.locate(key);
        assert(self@.shards[i as int] == self.shards@[i as int]@);
        let shard = &mut self.shards[i];
        let r = shard.lookup(hash, key);
        proof {
            laws::a_read_changes_no_value(old(self)@.shards[i as int], key@, key@);
            self.shard_changed(old(self), key@);
            a_read_changes_no_value(old(self)@, key@, key@);
        }
        r
    }

    /// Store a value. An entry that could never fit its shard is refused,
    /// rather than flushing every resident entry of that shard to make room.
    pub fn set(&mut self, key: &[u8], value: &[u8]) -> (r: Result<(), TooLarge>)
        requires
            old(self).wf(),
            s3fifo::addressable(s3fifo::entry_cost(key@, value@)),
        ensures
            final(self).wf(),
            final(self).budget() == old(self).budget(),
            final(self)@ == old(self)@.set(key@, value@),
            match r {
                Ok(_) => old(self)@.fits(key@, value@),
                Err(e) => !old(self)@.fits(key@, value@) && e.cost == s3fifo::entry_cost(
                    key@,
                    value@,
                ) && e.capacity == old(self)@.shard_capacity(),
            },
    {
        assert(self@.shards[0] == self.shards@[0]@);
        match self.shards[0].check_fits(key, value) {
            Ok(()) => {},
            Err(e) => return Err(e),
        }
        self.put(key, value);
        Ok(())
    }

    /// Store an entry that fits.
    fn put(&mut self, key: &[u8], value: &[u8])
        requires
            old(self).wf(),
            old(self)@.fits(key@, value@),
            s3fifo::addressable(s3fifo::entry_cost(key@, value@)),
        ensures
            final(self).wf(),
            final(self).budget() == old(self).budget(),
            final(self)@ == old(self)@.set(key@, value@),
    {
        let (i, hash) = self.locate(key);
        assert(self@.shards[i as int] == self.shards@[i as int]@);
        let shard = &mut self.shards[i];
        shard.set(key, value, hash);
        proof {
            laws::the_budget_is_kept(old(self)@.shards[i as int], key@, value@, hash);
            self.shard_changed(old(self), key@);
            a_write_is_read_back(old(self)@, key@, value@);
        }
    }

    /// Delete a key. Returns whether it was there.
    pub fn del(&mut self, key: &[u8]) -> (r: bool)
        requires
            old(self).wf(),
        ensures
            final(self).wf(),
            final(self).budget() == old(self).budget(),
            final(self)@ == old(self)@.del(key@),
            r == (old(self)@.value(key@) is Some),
    {
        let (i, hash) = self.locate(key);
        assert(self@.shards[i as int] == self.shards@[i as int]@);
        let shard = &mut self.shards[i];
        let r = shard.del(hash, key);
        proof {
            laws::a_delete_takes_one_key(old(self)@.shards[i as int], key@, key@);
            self.shard_changed(old(self), key@);
            a_delete_takes_one_key(old(self)@, key@, key@);
        }
        r
    }

    /// Look up many keys, in order.
    pub fn get_many(&mut self, keys: &[&[u8]]) -> (found: Vec<Option<Entry>>)
        requires
            old(self).wf(),
        ensures
            final(self).wf(),
            final(self).budget() == old(self).budget(),
            final(self)@ == old(self)@.read_all(seqs(keys@)),
            found@.len() == keys@.len(),
            forall|i: int|
                0 <= i < keys@.len() ==> match #[trigger] found@[i] {
                    Some(e) => e.wf() && e@.key == keys@[i]@ && old(self)@.value(keys@[i]@) == Some(
                        e@.value,
                    ),
                    None => old(self)@.value(keys@[i]@) is None,
                },
    {
        let mut found: Vec<Option<Entry>> = Vec::with_capacity(keys.len());
        let ghost all = seqs(keys@);
        let mut i: usize = 0;
        while i < keys.len()
            invariant
                i <= keys@.len(),
                all == seqs(keys@),
                self.wf(),
                self.budget() == old(self).budget(),
                self@ == old(self)@.read_all(all.take(i as int)),
                forall|k: Seq<u8>| #[trigger] self@.value(k) == old(self)@.value(k),
                found@.len() == i,
                forall|j: int|
                    0 <= j < i ==> match #[trigger] found@[j] {
                        Some(e) => e.wf() && e@.key == keys@[j]@ && old(self)@.value(keys@[j]@)
                            == Some(e@.value),
                        None => old(self)@.value(keys@[j]@) is None,
                    },
            decreases keys@.len() - i,
        {
            let ghost before = self@;
            let e = self.get(keys[i]);
            proof {
                assert(all.take(i + 1).drop_last() =~= all.take(i as int));
                assert(all.take(i + 1).last() == keys@[i as int]@);
                assert forall|k: Seq<u8>| #[trigger] self@.value(k) == old(self)@.value(k) by {
                    a_read_changes_no_value(before, keys@[i as int]@, k);
                    assert(before.value(k) == old(self)@.value(k));
                }
            }
            found.push(e);
            i = i + 1;
        }
        assert(all.take(keys@.len() as int) =~= all);
        found
    }

    /// Store many entries. An entry that could never fit its shard fails the
    /// whole batch before anything is written.
    pub fn set_many(&mut self, entries: &[(&[u8], &[u8])]) -> (r: Result<(), TooLarge>)
        requires
            old(self).wf(),
            forall|i: int|
                0 <= i < entries@.len() ==> s3fifo::addressable(
                    s3fifo::entry_cost((#[trigger] entries@[i]).0@, entries@[i].1@),
                ),
        ensures
            final(self).wf(),
            final(self).budget() == old(self).budget(),
            match r {
                Ok(_) => {
                    &&& forall|i: int|
                        0 <= i < entries@.len() ==> old(self)@.fits(
                            (#[trigger] entries@[i]).0@,
                            entries@[i].1@,
                        )
                    &&& final(self)@ == old(self)@.set_all(pairs(entries@))
                },
                Err(e) => {
                    &&& exists|i: int|
                        0 <= i < entries@.len() && !old(self)@.fits(
                            (#[trigger] entries@[i]).0@,
                            entries@[i].1@,
                        ) && e.cost == s3fifo::entry_cost(entries@[i].0@, entries@[i].1@)
                            && e.capacity == old(self)@.shard_capacity() && forall|j: int|
                            0 <= j < i ==> old(self)@.fits(
                                (#[trigger] entries@[j]).0@,
                                entries@[j].1@,
                            )
                    &&& final(self)@ == old(self)@
                },
            },
    {
        assert(self@.shards[0] == self.shards@[0]@);
        let mut i: usize = 0;
        while i < entries.len()
            invariant
                i <= entries@.len(),
                *self == *old(self),
                self.wf(),
                self@.shards[0] == self.shards@[0]@,
                forall|j: int|
                    0 <= j < entries@.len() ==> s3fifo::addressable(
                        s3fifo::entry_cost((#[trigger] entries@[j]).0@, entries@[j].1@),
                    ),
                forall|j: int|
                    0 <= j < i ==> self@.fits((#[trigger] entries@[j]).0@, entries@[j].1@),
            decreases entries@.len() - i,
        {
            let (k, v) = entries[i];
            assert(entries@[i as int].0@ == k@);
            match self.shards[0].check_fits(k, v) {
                Ok(()) => {},
                Err(e) => return Err(e),
            }
            i = i + 1;
        }
        let ghost all = pairs(entries@);
        let mut i: usize = 0;
        while i < entries.len()
            invariant
                i <= entries@.len(),
                all == pairs(entries@),
                self.wf(),
                self.budget() == old(self).budget(),
                self@.shard_capacity() == old(self)@.shard_capacity(),
                forall|j: int|
                    0 <= j < entries@.len() ==> s3fifo::addressable(
                        s3fifo::entry_cost((#[trigger] entries@[j]).0@, entries@[j].1@),
                    ),
                forall|j: int|
                    0 <= j < entries@.len() ==> old(self)@.fits(
                        (#[trigger] entries@[j]).0@,
                        entries@[j].1@,
                    ),
                self@ == old(self)@.set_all(all.take(i as int)),
            decreases entries@.len() - i,
        {
            let (k, v) = entries[i];
            assert(entries@[i as int].0@ == k@);
            let ghost before = self@;
            self.put(k, v);
            proof {
                assert(all.take(i + 1).drop_last() =~= all.take(i as int));
                assert(all.take(i + 1).last() == (k@, v@));
                set_keeps_capacity(before, k@, v@);
            }
            i = i + 1;
        }
        assert(all.take(entries@.len() as int) =~= all);
        Ok(())
    }

    /// Delete many keys, reporting for each whether it was there.
    pub fn del_many(&mut self, keys: &[&[u8]]) -> (found: Vec<bool>)
        requires
            old(self).wf(),
        ensures
            final(self).wf(),
            final(self).budget() == old(self).budget(),
            final(self)@ == old(self)@.del_all(seqs(keys@)),
            found@.len() == keys@.len(),
            forall|i: int|
                0 <= i < keys@.len() ==> #[trigger] found@[i] == (old(self)@.del_all(
                    seqs(keys@).take(i),
                ).value(keys@[i]@) is Some),
    {
        let mut found: Vec<bool> = Vec::with_capacity(keys.len());
        let ghost all = seqs(keys@);
        let mut i: usize = 0;
        while i < keys.len()
            invariant
                i <= keys@.len(),
                all == seqs(keys@),
                self.wf(),
                self.budget() == old(self).budget(),
                self@ == old(self)@.del_all(all.take(i as int)),
                found@.len() == i,
                forall|j: int|
                    0 <= j < i ==> #[trigger] found@[j] == (old(self)@.del_all(all.take(j)).value(
                        keys@[j]@,
                    ) is Some),
            decreases keys@.len() - i,
        {
            let hit = self.del(keys[i]);
            proof {
                assert(all.take(i + 1).drop_last() =~= all.take(i as int));
                assert(all.take(i + 1).last() == keys@[i as int]@);
            }
            found.push(hit);
            i = i + 1;
        }
        assert(all.take(keys@.len() as int) =~= all);
        found
    }

    /// How many shards there are.
    pub fn shard_count(&self) -> (n: usize)
        ensures
            n == self@.shards.len(),
    {
        self.shards.len()
    }

    /// How many entries shard `i` holds.
    pub fn shard_len(&self, i: usize) -> (n: usize)
        requires
            self.wf(),
            i < self@.shards.len(),
        ensures
            n == self@.shards[i as int].count(),
    {
        self.shards[i].len()
    }

    /// How many entries there are.
    pub fn len(&self) -> (n: usize)
        requires
            self.wf(),
        ensures
            n == self@.count(),
    {
        let mut sum: usize = 0;
        let mut i: usize = 0;
        let ghost w = |s: State| s.count();
        while i < self.shards.len()
            invariant
                i <= self.shards@.len(),
                self.wf(),
                w == (|s: State| s.count()),
                sum == total(self@.shards.take(i as int), w),
                sum <= i * self@.shard_capacity(),
            decreases self.shards@.len() - i,
        {
            proof {
                self.step(i as int, w);
            }
            sum = sum + self.shards[i].len();
            i = i + 1;
        }
        assert(self@.shards.take(self.shards@.len() as int) =~= self@.shards);
        sum
    }

    pub fn is_empty(&self) -> (r: bool)
        requires
            self.wf(),
        ensures
            r == (self@.count() == 0),
    {
        self.len() == 0
    }

    /// Bytes held by cached entries, bookkeeping included.
    pub fn used_bytes(&self) -> (n: usize)
        requires
            self.wf(),
        ensures
            n == self@.used(),
            n <= self.budget(),
    {
        let mut sum: usize = 0;
        let mut i: usize = 0;
        let ghost w = |s: State| s.used();
        while i < self.shards.len()
            invariant
                i <= self.shards@.len(),
                self.wf(),
                w == (|s: State| s.used()),
                sum == total(self@.shards.take(i as int), w),
                sum <= i * self@.shard_capacity(),
            decreases self.shards@.len() - i,
        {
            proof {
                self.step(i as int, w);
            }
            sum = sum + self.shards[i].used_bytes();
            i = i + 1;
        }
        assert(self@.shards.take(self.shards@.len() as int) =~= self@.shards);
        sum
    }

    /// Numbers describing the cache, summed over its shards.
    pub fn stats(&self) -> (s: Stats)
        requires
            self.wf(),
        ensures
            self@.described_by(s),
            s.capacity == self.budget(),
    {
        let mut sum = Counts {
            get_hits: 0,
            get_misses: 0,
            del_hits: 0,
            del_misses: 0,
            evictions: 0,
        };
        let mut i: usize = 0;
        let ghost all = self@.shards;
        let ghost gh = |s: State| s.counts.get_hits as nat;
        let ghost gm = |s: State| s.counts.get_misses as nat;
        let ghost dh = |s: State| s.counts.del_hits as nat;
        let ghost dm = |s: State| s.counts.del_misses as nat;
        let ghost ev = |s: State| s.counts.evictions as nat;
        while i < self.shards.len()
            invariant
                i <= self.shards@.len(),
                self.wf(),
                all == self@.shards,
                gh == (|s: State| s.counts.get_hits as nat),
                gm == (|s: State| s.counts.get_misses as nat),
                dh == (|s: State| s.counts.del_hits as nat),
                dm == (|s: State| s.counts.del_misses as nat),
                ev == (|s: State| s.counts.evictions as nat),
                sum.get_hits == total(all.take(i as int), gh) % 0x1_0000_0000_0000_0000,
                sum.get_misses == total(all.take(i as int), gm) % 0x1_0000_0000_0000_0000,
                sum.del_hits == total(all.take(i as int), dh) % 0x1_0000_0000_0000_0000,
                sum.del_misses == total(all.take(i as int), dm) % 0x1_0000_0000_0000_0000,
                sum.evictions == total(all.take(i as int), ev) % 0x1_0000_0000_0000_0000,
            decreases self.shards@.len() - i,
        {
            proof {
                self.step(i as int, gh);
                self.step(i as int, gm);
                self.step(i as int, dh);
                self.step(i as int, dm);
                self.step(i as int, ev);
            }
            let c = self.shards[i].counts();
            proof {
                wrapping_once(total(all.take(i as int), gh), c.get_hits);
                wrapping_once(total(all.take(i as int), gm), c.get_misses);
                wrapping_once(total(all.take(i as int), dh), c.del_hits);
                wrapping_once(total(all.take(i as int), dm), c.del_misses);
                wrapping_once(total(all.take(i as int), ev), c.evictions);
            }
            sum = together(sum, c);
            i = i + 1;
        }
        assert(all.take(all.len() as int) =~= all);
        Stats {
            get_hits: sum.get_hits,
            get_misses: sum.get_misses,
            del_hits: sum.del_hits,
            del_misses: sum.del_misses,
            evictions: sum.evictions,
            used_bytes: self.used_bytes(),
            capacity: self.capacity,
            items: self.len(),
        }
    }

    /// One more shard adds what it holds, which its share of the budget bounds.
    proof fn step(&self, i: int, w: spec_fn(State) -> nat)
        requires
            self.wf(),
            0 <= i < self.shards@.len(),
        ensures
            total(self@.shards.take(i + 1), w) == total(self@.shards.take(i), w) + w(
                self.shards@[i]@,
            ),
            self.shards@[i]@.used() <= self@.shard_capacity(),
            self.shards@[i]@.count() <= self@.shard_capacity(),
            (i + 1) * self@.shard_capacity() == i * self@.shard_capacity() + self@.shard_capacity(),
            (i + 1) * self@.shard_capacity() <= self.capacity,
    {
        let s = self@.shards[i];
        let per = self@.shard_capacity() as int;
        let n = self.shards@.len() as int;
        assert(s == self.shards@[i]@);
        assert(self@.shards.take(i + 1).drop_last() =~= self@.shards.take(i));
        policy::total_bound(s.small);
        policy::total_bound(s.main);
        assert((i + 1) * per == i * per + per) by (nonlinear_arith);
        assert((i + 1) * per <= n * per) by (nonlinear_arith)
            requires
                i + 1 <= n,
                per >= 0,
        ;
    }
}

/// A write leaves the budget of the shards as it is.
pub proof fn set_keeps_capacity(c: CacheState, key: Seq<u8>, value: Seq<u8>)
    requires
        c.valid(),
    ensures
        c.set(key, value).shard_capacity() == c.shard_capacity(),
{
    a_write_is_read_back(c, key, value);
    shard_of_is_a_shard(c.shards.len(), c.hash(key));
    let h = c.home(key);
    laws::the_budget_is_kept(c.shards[h], key, value, c.hash(key));
    assert(c.shards[h].capacity == c.shard_capacity());
}

/// A read leaves the budget of the shards as it is.
pub proof fn read_keeps_capacity(c: CacheState, key: Seq<u8>)
    requires
        c.valid(),
    ensures
        c.read(key).shard_capacity() == c.shard_capacity(),
{
    shard_of_is_a_shard(c.shards.len(), c.hash(key));
    assert(c.shards[c.home(key)].capacity == c.shard_capacity());
}

/// A delete leaves the budget of the shards as it is.
pub proof fn del_keeps_capacity(c: CacheState, key: Seq<u8>)
    requires
        c.valid(),
    ensures
        c.del(key).shard_capacity() == c.shard_capacity(),
{
    shard_of_is_a_shard(c.shards.len(), c.hash(key));
    assert(c.shards[c.home(key)].capacity == c.shard_capacity());
}

// Laws of the counters

/// The sum over shards of which one changed.
proof fn total_update(shards: Seq<State>, i: int, t: State, w: spec_fn(State) -> nat)
    requires
        0 <= i < shards.len(),
    ensures
        total(shards.update(i, t), w) + w(shards[i]) == total(shards, w) + w(t),
    decreases shards.len(),
{
    let after = shards.update(i, t);
    if i == shards.len() - 1 {
        assert(after.drop_last() =~= shards.drop_last());
    } else {
        assert(after.drop_last() =~= shards.drop_last().update(i, t));
        total_update(shards.drop_last(), i, t, w);
    }
}

/// A counter that steps in one shard steps in the sum, modulo 2^64.
proof fn counter_steps(c: CacheState, i: int, t: State, w: spec_fn(State) -> nat, by: nat)
    requires
        0 <= i < c.shards.len(),
        w(t) == (w(c.shards[i]) + by) % 0x1_0000_0000_0000_0000,
        w(c.shards[i]) < 0x1_0000_0000_0000_0000,
        by <= 1,
    ensures
        (CacheState { shards: c.shards.update(i, t), ..c }).counted(w) == (c.counted(w) + by)
            % 0x1_0000_0000_0000_0000,
{
    total_update(c.shards, i, t, w);
    let before = total(c.shards, w) as int;
    let after = total(c.shards.update(i, t), w) as int;
    let m = 0x1_0000_0000_0000_0000int;
    if w(c.shards[i]) + by < m {
        assert(after == before + by);
    } else {
        assert(after == before + by - m);
    }
}

/// The numbers of a cache after one of its shards changed: each of the five
/// counters by what it changed there, and the bytes and entries held.
proof fn numbers_step(
    c: CacheState,
    i: int,
    t: State,
    before: Stats,
    after: Stats,
    hits: nat,
    misses: nat,
    del_hits: nat,
    del_misses: nat,
)
    requires
        0 <= i < c.shards.len(),
        c.described_by(before),
        (CacheState { shards: c.shards.update(i, t), ..c }).described_by(after),
        hits <= 1,
        misses <= 1,
        del_hits <= 1,
        del_misses <= 1,
        t.counts.get_hits == (c.shards[i].counts.get_hits + hits) % 0x1_0000_0000_0000_0000,
        t.counts.get_misses == (c.shards[i].counts.get_misses + misses) % 0x1_0000_0000_0000_0000,
        t.counts.del_hits == (c.shards[i].counts.del_hits + del_hits) % 0x1_0000_0000_0000_0000,
        t.counts.del_misses == (c.shards[i].counts.del_misses + del_misses)
            % 0x1_0000_0000_0000_0000,
        t.counts.evictions == c.shards[i].counts.evictions,
    ensures
        after.get_hits == (before.get_hits + hits) % 0x1_0000_0000_0000_0000,
        after.get_misses == (before.get_misses + misses) % 0x1_0000_0000_0000_0000,
        after.del_hits == (before.del_hits + del_hits) % 0x1_0000_0000_0000_0000,
        after.del_misses == (before.del_misses + del_misses) % 0x1_0000_0000_0000_0000,
        after.evictions == before.evictions,
        after.used_bytes + c.shards[i].used() == before.used_bytes + t.used(),
        after.items + c.shards[i].count() == before.items + t.count(),
{
    counter_steps(c, i, t, |s: State| s.counts.get_hits as nat, hits);
    counter_steps(c, i, t, |s: State| s.counts.get_misses as nat, misses);
    counter_steps(c, i, t, |s: State| s.counts.del_hits as nat, del_hits);
    counter_steps(c, i, t, |s: State| s.counts.del_misses as nat, del_misses);
    counter_steps(c, i, t, |s: State| s.counts.evictions as nat, 0);
    total_update(c.shards, i, t, |s: State| s.used());
    total_update(c.shards, i, t, |s: State| s.count());
}

/// `n`, one more: the counters count modulo 2^64.
pub open spec fn one_more(n: u64) -> u64 {
    if n == u64::MAX {
        0
    } else {
        (n + 1) as u64
    }
}

/// A read that finds a value is one more hit, one that does not is one more
/// miss, and no other number of the cache changes.
pub proof fn reads_are_counted(c: CacheState, key: Seq<u8>, before: Stats, after: Stats)
    requires
        c.valid(),
        c.described_by(before),
        c.read(key).described_by(after),
    ensures
        c.value(key) is Some ==> after == (Stats {
            get_hits: one_more(before.get_hits),
            capacity: after.capacity,
            ..before
        }),
        c.value(key) is None ==> after == (Stats {
            get_misses: one_more(before.get_misses),
            capacity: after.capacity,
            ..before
        }),
{
    shard_of_is_a_shard(c.shards.len(), c.hash(key));
    let h = c.home(key);
    let s = c.shards[h];
    laws::a_read_is_to_an_entrys_credit(s, key);
    laws::a_read_changes_no_value(s, key, key);
    let found = s.contains(key);
    numbers_step(
        c,
        h,
        s.read(key),
        before,
        after,
        if found {
            1
        } else {
            0
        },
        if found {
            0
        } else {
            1
        },
        0,
        0,
    );
}

/// A delete that removes an entry is one more hit, one that finds none is one
/// more miss. Of the other numbers only those of what is held change, by the
/// entry that is gone.
pub proof fn deletes_are_counted(c: CacheState, key: Seq<u8>, before: Stats, after: Stats)
    requires
        c.valid(),
        c.described_by(before),
        c.del(key).described_by(after),
    ensures
        c.value(key) matches Some(v) ==> after == (Stats {
            del_hits: one_more(before.del_hits),
            items: (before.items - 1) as usize,
            used_bytes: (before.used_bytes - key.len() - v.len() - 128) as usize,
            capacity: after.capacity,
            ..before
        }),
        c.value(key) is None ==> after == (Stats {
            del_misses: one_more(before.del_misses),
            capacity: after.capacity,
            ..before
        }),
{
    shard_of_is_a_shard(c.shards.len(), c.hash(key));
    let h = c.home(key);
    let s = c.shards[h];
    laws::deletes_are_counted(s, key);
    laws::a_delete_takes_one_key(s, key, key);
    let found = s.contains(key);
    if found {
        let i = choose|i: int| policy::at(s.all(), key, i);
        assert(policy::at(s.all(), key, i));
    }
    numbers_step(
        c,
        h,
        s.del(key),
        before,
        after,
        0,
        0,
        if found {
            1
        } else {
            0
        },
        if found {
            0
        } else {
            1
        },
    );
}

/// A write changes no count of reads and deletes.
pub proof fn a_write_is_neither_read_nor_delete(
    c: CacheState,
    key: Seq<u8>,
    value: Seq<u8>,
    before: Stats,
    after: Stats,
)
    requires
        c.valid(),
        c.described_by(before),
        c.set(key, value).described_by(after),
    ensures
        after.get_hits == before.get_hits,
        after.get_misses == before.get_misses,
        after.del_hits == before.del_hits,
        after.del_misses == before.del_misses,
{
    shard_of_is_a_shard(c.shards.len(), c.hash(key));
    if c.fits(key, value) {
        let h = c.home(key);
        let s = c.shards[h];
        let t = s.set(key, value, c.hash(key));
        laws::evictions_are_counted(s, key, value, c.hash(key));
        other_counters_stay(c, h, t, before, after);
    }
}

/// The counters of a cache of which a shard changed, but not in those.
proof fn other_counters_stay(c: CacheState, i: int, t: State, before: Stats, after: Stats)
    requires
        0 <= i < c.shards.len(),
        c.described_by(before),
        (CacheState { shards: c.shards.update(i, t), ..c }).described_by(after),
        t.counts.get_hits == c.shards[i].counts.get_hits,
        t.counts.get_misses == c.shards[i].counts.get_misses,
        t.counts.del_hits == c.shards[i].counts.del_hits,
        t.counts.del_misses == c.shards[i].counts.del_misses,
    ensures
        after.get_hits == before.get_hits,
        after.get_misses == before.get_misses,
        after.del_hits == before.del_hits,
        after.del_misses == before.del_misses,
{
    counter_steps(c, i, t, |s: State| s.counts.get_hits as nat, 0);
    counter_steps(c, i, t, |s: State| s.counts.get_misses as nat, 0);
    counter_steps(c, i, t, |s: State| s.counts.del_hits as nat, 0);
    counter_steps(c, i, t, |s: State| s.counts.del_misses as nat, 0);
}

/// Whatever a write costs is counted: each entry that is gone after it, but for
/// the one it replaces, is one more eviction.
pub proof fn what_a_write_costs_is_counted(
    c: CacheState,
    key: Seq<u8>,
    value: Seq<u8>,
    before: Stats,
    after: Stats,
)
    requires
        c.valid(),
        c.fits(key, value),
        c.described_by(before),
        c.set(key, value).described_by(after),
    ensures
        ({
            let others = before.items - (if c.value(key) is Some {
                1int
            } else {
                0
            });
            &&& after.items <= others + 1
            &&& after.evictions == (before.evictions + others + 1 - after.items)
                % 0x1_0000_0000_0000_0000
        }),
{
    shard_of_is_a_shard(c.shards.len(), c.hash(key));
    let h = c.home(key);
    let s = c.shards[h];
    let t = s.set(key, value, c.hash(key));
    laws::evictions_are_counted(s, key, value, c.hash(key));
    let gone = s.count() - (if s.contains(key) {
        1int
    } else {
        0
    }) + 1 - t.count();
    evictions_step(c, h, t, before, after, gone as nat);
}

proof fn evictions_step(c: CacheState, i: int, t: State, before: Stats, after: Stats, gone: nat)
    requires
        0 <= i < c.shards.len(),
        c.described_by(before),
        (CacheState { shards: c.shards.update(i, t), ..c }).described_by(after),
        t.counts.evictions == (c.shards[i].counts.evictions + gone) % 0x1_0000_0000_0000_0000,
    ensures
        after.evictions == (before.evictions + gone) % 0x1_0000_0000_0000_0000,
        after.items + c.shards[i].count() == before.items + t.count(),
{
    let w = |s: State| s.counts.evictions as nat;
    total_update(c.shards, i, t, w);
    total_update(c.shards, i, t, |s: State| s.count());
    let m = 0x1_0000_0000_0000_0000int;
    let a = total(c.shards, w) as int;
    let b = total(c.shards.update(i, t), w) as int;
    let x = c.shards[i].counts.evictions + gone;
    vstd::arithmetic::div_mod::lemma_fundamental_div_mod(x, m);
    assert(b == m * (-(x / m)) + (a + gone)) by (nonlinear_arith)
        requires
            b == a + gone - m * (x / m),
    ;
    vstd::arithmetic::div_mod::lemma_mod_multiples_vanish(-(x / m), a + gone, m);
    vstd::arithmetic::div_mod::lemma_add_mod_noop_right(gone as int, a, m);
}

/// An entry is refused, and nothing changes, exactly where its key, its value
/// and 128 bytes more exceed the budget of a shard.
pub proof fn what_could_never_fit_is_refused(c: CacheState, key: Seq<u8>, value: Seq<u8>)
    ensures
        c.fits(key, value) <==> key.len() + value.len() + 128 <= c.shard_capacity(),
        !c.fits(key, value) ==> c.set(key, value) == c,
{
}

/// The shard of a hash is given by its top bits: twice as many shards split each
/// in two, higher hashes are in no lower shard, and every shard has hashes.
pub proof fn the_top_bits_pick_the_shard(n: nat, g: u64, h: u64)
    requires
        n > 0,
    ensures
        0 <= shard_of(n, h) < n,
        shard_of(2 * n, h) / 2 == shard_of(n, h),
        g <= h ==> shard_of(n, g) <= shard_of(n, h),
        shard_of(n, 0) == 0,
        n <= 0x1_0000_0000_0000_0000 ==> shard_of(n, u64::MAX) == n - 1,
{
    shard_of_is_a_shard(n, h);
    let m = 0x1_0000_0000_0000_0000int;
    let (a, b) = (g as int, h as int);
    let k = n as int;
    assert(b * (2 * k) == 2 * (b * k)) by (nonlinear_arith);
    let x = b * k;
    assert((2 * x) / 0x1_0000_0000_0000_0000int / 2 == x / 0x1_0000_0000_0000_0000int);
    if g <= h {
        assert(a * k <= b * k) by (nonlinear_arith)
            requires
                a <= b,
                k > 0,
        ;
    }
    if n <= 0x1_0000_0000_0000_0000 {
        let top = u64::MAX as int;
        assert(top * k == m * k - k) by (nonlinear_arith)
            requires
                top == m - 1,
        ;
        assert((m * k - k) / m == k - 1) by {
            assert(m * k - k == m * (k - 1) + (m - k)) by (nonlinear_arith);
        }
    }
}

/// A new cache has a power of two of shards, the least that is no fewer than
/// asked for, and all of the budget but what does not divide is shared out.
pub proof fn the_budget_is_shared_out(capacity: nat, shards: nat)
    ensures
        ({
            let made = empty_shards(capacity, shards);
            let n = made.len();
            &&& n >= 1
            &&& n >= shards
            &&& n == 1 || n < 2 * shards
            &&& exists|k: nat| n == #[trigger] vstd::arithmetic::power2::pow2(k)
            &&& forall|i: int|
                0 <= i < n ==> (#[trigger] made[i]).capacity * n <= capacity && capacity < (
                made[i].capacity + 1) * n && made[i].count() == 0 && made[i].used() == 0
                    && made[i].remembered.len() == 0
        }),
{
    vstd::arithmetic::power2::lemma2_to64();
    power_from_is_least(0, shards);
    let n = power_from(1, shards);
    vstd::arithmetic::div_mod::lemma_fundamental_div_mod(capacity as int, n as int);
    vstd::arithmetic::div_mod::lemma_mod_bound(capacity as int, n as int);
    let q = (capacity / n) as int;
    assert(q * n == n * q) by (nonlinear_arith);
    assert((q + 1) * n == n * q + n) by (nonlinear_arith);
}

proof fn power_from_is_least(k: nat, n: nat)
    requires
        k == 0 || vstd::arithmetic::power2::pow2((k - 1) as nat) < n,
    ensures
        ({
            let p = power_from(vstd::arithmetic::power2::pow2(k), n);
            &&& p >= 1
            &&& p >= n
            &&& p == 1 || p < 2 * n
            &&& exists|j: nat| p == #[trigger] vstd::arithmetic::power2::pow2(j)
        }),
    decreases
            (if n > vstd::arithmetic::power2::pow2(k) {
                n - vstd::arithmetic::power2::pow2(k)
            } else {
                0
            }),
{
    let p = vstd::arithmetic::power2::pow2(k);
    vstd::arithmetic::power2::lemma_pow2_pos(k);
    vstd::arithmetic::power2::lemma_pow2_unfold(k + 1);
    if p < n {
        power_from_is_least(k + 1, n);
    } else if k > 0 {
        vstd::arithmetic::power2::lemma_pow2_unfold(k);
    } else {
        vstd::arithmetic::power2::lemma2_to64();
    }
}

// Laws of many keys at once

/// Of many writes the last one is read back, whatever the others were.
pub proof fn the_last_of_many_writes_is_read_back(
    c: CacheState,
    entries: Seq<(Seq<u8>, Seq<u8>)>,
)
    requires
        c.valid(),
        entries.len() > 0,
        c.fits(entries.last().0, entries.last().1),
    ensures
        c.set_all(entries).valid(),
        c.set_all(entries).value(entries.last().0) == Some(entries.last().1),
{
    many_writes_keep(c, entries.drop_last());
    let t = c.set_all(entries.drop_last());
    a_write_is_read_back(t, entries.last().0, entries.last().1);
}

proof fn many_writes_keep(c: CacheState, entries: Seq<(Seq<u8>, Seq<u8>)>)
    requires
        c.valid(),
    ensures
        c.set_all(entries).valid(),
        c.set_all(entries).shard_capacity() == c.shard_capacity(),
    decreases entries.len(),
{
    if entries.len() > 0 {
        many_writes_keep(c, entries.drop_last());
        let t = c.set_all(entries.drop_last());
        a_write_is_read_back(t, entries.last().0, entries.last().1);
        set_keeps_capacity(t, entries.last().0, entries.last().1);
    }
}

/// Of many writes, a key reads back as one of them stored it or as it was
/// before, or was evicted.
pub proof fn many_writes_store_no_other_value(
    c: CacheState,
    entries: Seq<(Seq<u8>, Seq<u8>)>,
    key: Seq<u8>,
)
    requires
        c.valid(),
    ensures
        c.set_all(entries).value(key) matches Some(v) ==> Some(v) == c.value(key)
            || entries.contains((key, v)),
    decreases entries.len(),
{
    if entries.len() > 0 {
        let head = entries.drop_last();
        let (k, v) = entries.last();
        many_writes_keep(c, head);
        many_writes_store_no_other_value(c, head, key);
        let t = c.set_all(head);
        a_write_is_read_back(t, k, v);
        if key != k {
            a_write_leaves_other_keys(t, k, v, key);
        }
        assert(entries[entries.len() - 1] == (k, v));
        if c.set_all(entries).value(key) is Some {
            let w = c.set_all(entries).value(key)->Some_0;
            if head.contains((key, w)) {
                let i = choose|i: int| 0 <= i < head.len() && head[i] == (key, w);
                assert(entries[i] == (key, w));
            }
        }
    }
}

/// Deleting many keys takes just those.
pub proof fn many_deletes_take_their_keys(c: CacheState, keys: Seq<Seq<u8>>, key: Seq<u8>)
    requires
        c.valid(),
    ensures
        c.del_all(keys).valid(),
        c.del_all(keys).value(key) == if keys.contains(key) {
            None
        } else {
            c.value(key)
        },
    decreases keys.len(),
{
    if keys.len() > 0 {
        let head = keys.drop_last();
        many_deletes_take_their_keys(c, head, key);
        let t = c.del_all(head);
        a_delete_takes_one_key(t, keys.last(), key);
        assert(keys[keys.len() - 1] == keys.last());
        if head.contains(key) {
            let i = choose|i: int| 0 <= i < head.len() && head[i] == key;
            assert(keys[i] == key);
        }
        if keys.contains(key) && key != keys.last() {
            let i = choose|i: int| 0 <= i < keys.len() && keys[i] == key;
            assert(head[i] == key);
        }
    }
}

/// Reading many keys changes no value.
pub proof fn many_reads_change_no_value(c: CacheState, keys: Seq<Seq<u8>>, key: Seq<u8>)
    requires
        c.valid(),
    ensures
        c.read_all(keys).valid(),
        c.read_all(keys).value(key) == c.value(key),
    decreases keys.len(),
{
    if keys.len() > 0 {
        many_reads_change_no_value(c, keys.drop_last(), key);
        a_read_changes_no_value(c.read_all(keys.drop_last()), keys.last(), key);
    }
}

} // verus!
