//! Per-shard cuckoo hash index.
//!
//! Each bucket has eight slots; a slot packs a 16-bit hash tag with the 48-bit
//! id of an entry. A key has two candidate buckets, both derived from its hash
//! alone, so a lookup is `bucket -> entry`: two dependent memory accesses. Tags
//! reject absent keys without touching any entry, which makes the table its
//! own filter.

use super::heap::{Entry, Heap, Item, ID_END};
use super::key::same_bytes;
use vstd::prelude::*;

verus! {

/// Slots in a bucket.
pub const SLOTS: usize = 8;

/// Fewest buckets in a table.
pub const MIN_BUCKETS: usize = 64;

/// Grow when the table is this full (in eighths).
pub const MAX_LOAD_EIGHTHS: usize = 7;

const MAX_KICKS: usize = 256;

/// Retries of the displacement walk before growing.
const MAX_WALKS: usize = 4;

/// Most slots that one allocation can hold.
const MAX_WORDS: usize = usize::MAX / 16;

// Slot words

/// The tag of a hash, its upper 16 bits.
pub open spec fn tag_of(hash: u64) -> u64 {
    hash / ID_END
}

/// The word of a slot that holds an entry.
pub open spec fn word_of(tag: u64, id: u64) -> u64 {
    (tag * ID_END + id) as u64
}

/// The id in a slot word; zero, which is no id, when the slot is empty.
pub open spec fn id_of(w: u64) -> u64 {
    w % ID_END
}

/// The slot word of an entry held under `id`.
pub open spec fn entry_word(heap: Map<u64, Item>, id: u64) -> u64 {
    word_of(tag_of(heap[id].hash), id)
}

/// A slot word gives back the tag and the id it was made from, and is not
/// taken for an empty slot.
proof fn word_roundtrip(hash: u64, id: u64)
    requires
        1 <= id < ID_END,
    ensures
        word_of(tag_of(hash), id) != 0,
        tag_of(word_of(tag_of(hash), id)) == tag_of(hash),
        id_of(word_of(tag_of(hash), id)) == id,
{
}

#[inline]
fn word(tag: u64, id: u64) -> (w: u64)
    requires
        tag < 0x1_0000,
        id < ID_END,
    ensures
        w == word_of(tag, id),
{
    tag * ID_END + id
}

// Buckets

/// The first bucket for a hash.
pub open spec fn home_of(mask: u64, hash: u64) -> u64 {
    hash & mask
}

/// Partial-key cuckoo: the other bucket depends only on one bucket and the
/// tag, so it can be recomputed from a slot word.
pub open spec fn alt_of(mask: u64, bucket: u64, tag: u64) -> u64 {
    (bucket ^ ((tag * 0x9E37_79B9) as u64 | 1)) & mask
}

/// Whether an entry with `hash` may lie in `bucket`.
pub open spec fn candidate(mask: u64, hash: u64, bucket: u64) -> bool {
    bucket == home_of(mask, hash) || bucket == alt_of(mask, home_of(mask, hash), tag_of(hash))
}

/// The other bucket's other bucket is the first: an entry moved to its other
/// bucket can still be found.
pub proof fn a_moved_entry_can_be_found(mask: u64, hash: u64, bucket: u64)
    requires
        candidate(mask, hash, bucket),
    ensures
        candidate(mask, hash, alt_of(mask, bucket, tag_of(hash))),
{
    let h = (tag_of(hash) * 0x9E37_79B9) as u64 | 1;
    assert(((((hash & mask) ^ h) & mask) ^ h) & mask == hash & mask) by (bit_vector);
}

/// Whether `n` is a power of two.
pub open spec fn power_of_two(n: u64) -> bool {
    n != 0 && n & ((n - 1) as u64) == 0
}

/// A key's two buckets differ, and each is found from the other and the tag.
pub proof fn a_key_has_two_buckets(mask: u64, bucket: u64, tag: u64)
    requires
        1 <= mask < u64::MAX,
        power_of_two((mask + 1) as u64),
        bucket <= mask,
    ensures
        alt_of(mask, bucket, tag) <= mask,
        alt_of(mask, bucket, tag) != bucket,
        alt_of(mask, alt_of(mask, bucket, tag), tag) == bucket,
{
    let n = (mask + 1) as u64;
    let k = (tag * 0x9E37_79B9) as u64;
    assert((bucket ^ (k | 1)) & mask <= mask && (bucket ^ (k | 1)) & mask != bucket && (((bucket ^ (
    k | 1)) & mask) ^ (k | 1)) & mask == bucket) by (bit_vector)
        requires
            n & mask == 0,
            n == mask + 1,
            1 <= mask,
            bucket <= mask,
    ;
}

/// Twice a power of two is one.
proof fn doubled(n: u64)
    requires
        power_of_two(n),
        n < 0x4000_0000_0000_0000,
    ensures
        power_of_two((2 * n) as u64),
{
    assert((2 * n) as u64 & (2 * n - 1) as u64 == 0 && (2 * n) as u64 != 0) by (bit_vector)
        requires
            n & (n - 1) as u64 == 0,
            n != 0,
            n < 0x4000_0000_0000_0000,
    ;
}

/// Every slot is empty or holds the word of an entry that may lie there.
spec fn sound(words: Seq<u64>, mask: u64, heap: Map<u64, Item>) -> bool {
    forall|p: int|
        0 <= p < words.len() && words[p] != 0 ==> {
            let w = #[trigger] words[p];
            &&& heap.contains_key(id_of(w))
            &&& 1 <= id_of(w)
            &&& w == entry_word(heap, id_of(w))
            &&& candidate(mask, heap[id_of(w)].hash, (p / 8) as u64)
        }
}

/// No word lies in two slots.
spec fn distinct(words: Seq<u64>) -> bool {
    forall|p: int, q: int|
        0 <= p < q < words.len() && words[p] != 0 ==> #[trigger] words[p] != #[trigger] words[q]
}

/// Whether a word lies in some slot.
spec fn in_table(words: Seq<u64>, w: u64) -> bool {
    exists|p: int| 0 <= p < words.len() && #[trigger] words[p] == w
}

/// Writing a word into an empty slot adds just that word.
proof fn filled(words: Seq<u64>, p: int, w: u64)
    requires
        distinct(words),
        0 <= p < words.len(),
        words[p] == 0,
        w != 0,
        !in_table(words, w),
    ensures
        distinct(words.update(p, w)),
        forall|x: u64|
            x != 0 ==> (#[trigger] in_table(words.update(p, w), x) <==> in_table(words, x) || x
                == w),
{
    let after = words.update(p, w);
    assert forall|x: u64| x != 0 implies (#[trigger] in_table(after, x) <==> in_table(words, x) || x
        == w) by {
        if in_table(words, x) {
            let q = choose|q: int| 0 <= q < words.len() && #[trigger] words[q] == x;
            assert(after[q] == x);
        }
        if x == w {
            assert(after[p] == w);
        }
        if in_table(after, x) && x != w {
            let q = choose|q: int| 0 <= q < after.len() && #[trigger] after[q] == x;
            assert(words[q] == x);
        }
    }
    assert forall|a: int, b: int|
        0 <= a < b < after.len() && after[a] != 0 implies #[trigger] after[a]
        != #[trigger] after[b] by {
        if a == p {
            assert(words[b] == after[b]);
            assert(in_table(words, words[b]));
        } else if b == p {
            assert(words[a] == after[a]);
            assert(in_table(words, words[a]));
        } else {
            assert(words[a] != words[b]);
        }
    }
}

/// Emptying a slot takes away just its word.
proof fn emptied(words: Seq<u64>, p: int)
    requires
        distinct(words),
        0 <= p < words.len(),
        words[p] != 0,
    ensures
        distinct(words.update(p, 0)),
        forall|x: u64|
            x != 0 ==> (#[trigger] in_table(words.update(p, 0), x) <==> in_table(words, x) && x
                != words[p]),
{
    let after = words.update(p, 0);
    assert forall|x: u64| x != 0 implies (#[trigger] in_table(after, x) <==> in_table(words, x) && x
        != words[p]) by {
        if in_table(words, x) && x != words[p] {
            let q = choose|q: int| 0 <= q < words.len() && #[trigger] words[q] == x;
            assert(after[q] == x);
        }
        if in_table(after, x) {
            let q = choose|q: int| 0 <= q < after.len() && #[trigger] after[q] == x;
            assert(words[q] == x);
            assert(words[p] == words[p]);
        }
    }
}

/// Replacing a word by one that is nowhere takes away the one and adds the other.
proof fn replaced(words: Seq<u64>, p: int, w: u64)
    requires
        distinct(words),
        0 <= p < words.len(),
        words[p] != 0,
        w != 0,
        !in_table(words, w),
    ensures
        distinct(words.update(p, w)),
        forall|x: u64|
            x != 0 ==> (#[trigger] in_table(words.update(p, w), x) <==> in_table(words, x) && x
                != words[p] || x == w),
{
    emptied(words, p);
    let between = words.update(p, 0);
    assert(!in_table(between, w));
    filled(between, p, w);
    assert(between.update(p, w) =~= words.update(p, w));
    assert forall|x: u64| x != 0 implies (#[trigger] in_table(words.update(p, w), x) <==> in_table(
        words,
        x,
    ) && x != words[p] || x == w) by {
        assert(in_table(between, x) <==> in_table(words, x) && x != words[p]);
    }
}

/// Taking a slot out of a list takes away just its word.
proof fn taken_out(words: Seq<u64>, p: int)
    requires
        distinct(words),
        0 <= p < words.len(),
        words[p] != 0,
    ensures
        distinct(words.remove(p)),
        forall|x: u64|
            x != 0 ==> (#[trigger] in_table(words.remove(p), x) <==> in_table(words, x) && x
                != words[p]),
{
    let after = words.remove(p);
    assert forall|x: u64| x != 0 implies (#[trigger] in_table(after, x) <==> in_table(words, x) && x
        != words[p]) by {
        if in_table(words, x) && x != words[p] {
            let q = choose|q: int| 0 <= q < words.len() && #[trigger] words[q] == x;
            if q < p {
                assert(after[q] == x);
            } else {
                assert(after[q - 1] == x);
            }
        }
        if in_table(after, x) {
            let q = choose|q: int| 0 <= q < after.len() && #[trigger] after[q] == x;
            if q < p {
                assert(words[q] == x);
            } else {
                assert(words[q + 1] == x);
            }
            assert(words[p] == words[p]);
        }
    }
    assert forall|a: int, b: int|
        0 <= a < b < after.len() && after[a] != 0 implies #[trigger] after[a]
        != #[trigger] after[b] by {
        let c = if a < p {
            a
        } else {
            a + 1
        };
        let d = if b < p {
            b
        } else {
            b + 1
        };
        assert(words[c] != words[d]);
    }
}

/// Adding a slot to a list adds just its word.
proof fn added(words: Seq<u64>, w: u64)
    requires
        distinct(words),
        w != 0,
        !in_table(words, w),
    ensures
        distinct(words.push(w)),
        forall|x: u64|
            x != 0 ==> (#[trigger] in_table(words.push(w), x) <==> in_table(words, x) || x == w),
{
    let longer = words.push(0);
    assert(distinct(longer));
    assert forall|x: u64| x != 0 implies (#[trigger] in_table(longer, x) <==> in_table(
        words,
        x,
    )) by {
        if in_table(words, x) {
            let q = choose|q: int| 0 <= q < words.len() && #[trigger] words[q] == x;
            assert(longer[q] == x);
        }
        if in_table(longer, x) {
            let q = choose|q: int| 0 <= q < longer.len() && #[trigger] longer[q] == x;
            assert(words[q] == x);
        }
    }
    assert(!in_table(longer, w));
    filled(longer, words.len() as int, w);
    assert(longer.update(words.len() as int, w) =~= words.push(w));
    assert forall|x: u64| x != 0 implies (#[trigger] in_table(words.push(w), x) <==> in_table(
        words,
        x,
    ) || x == w) by {
        assert(in_table(longer, x) <==> in_table(words, x));
    }
}

// Making room

/// The first empty slot of a bucket, looked for from its slot `i` on.
spec fn first_empty(words: Seq<u64>, bucket: u64, i: nat) -> Option<usize>
    decreases 8 - i,
{
    if i >= 8 {
        None
    } else if words[8 * bucket + i] == 0 {
        Some((8 * bucket + i) as usize)
    } else {
        first_empty(words, bucket, i + 1)
    }
}

/// The generator of the walks, one step on.
spec fn stirred(seed: u64) -> u64 {
    seed.wrapping_mul(6364136223846793005).wrapping_add(1442695040888963407)
}

/// The slot of a bucket that the generator picks.
spec fn picked(bucket: u64, seed: u64) -> usize {
    (8 * bucket + (seed / 0x2_0000_0000) % 8) as usize
}

/// Where a walk of `kicks` more hops leads that has come from `path` to
/// `bucket`: the slots to move along and the empty slot behind them, or nothing
/// where it would come back to a slot or ends among full buckets. Also the
/// generator behind it.
spec fn walked(
    words: Seq<u64>,
    mask: u64,
    bucket: u64,
    path: Seq<usize>,
    seed: u64,
    kicks: nat,
) -> (Option<(Seq<usize>, usize)>, u64)
    decreases kicks,
{
    if kicks == 0 {
        (None, seed)
    } else {
        let s = stirred(seed);
        let p = picked(bucket, s);
        let next = alt_of(mask, bucket, tag_of(words[p as int]));
        if path.contains(p) {
            (None, s)
        } else {
            match first_empty(words, next, 0) {
                Some(dest) => (Some((path.push(p), dest)), s),
                None => walked(words, mask, next, path.push(p), s, (kicks - 1) as nat),
            }
        }
    }
}

/// What the first of `walks` walks that leads anywhere leads to. Each starts in
/// one of two buckets, as the generator stands.
spec fn path_found(
    words: Seq<u64>,
    mask: u64,
    b1: u64,
    b2: u64,
    seed: u64,
    walks: nat,
) -> (Option<(Seq<usize>, usize)>, u64)
    decreases walks,
{
    if walks == 0 {
        (None, seed)
    } else {
        let b = if seed % 2 == 0 {
            b1
        } else {
            b2
        };
        let (found, s) = walked(words, mask, b, Seq::empty(), seed, MAX_KICKS as nat);
        if found is Some {
            (found, s)
        } else {
            path_found(words, mask, b1, b2, s, (walks - 1) as nat)
        }
    }
}

/// The words with each of `path` moved to the next slot, the last one to `hole`,
/// and `w` where the first one was.
spec fn shifted(words: Seq<u64>, path: Seq<usize>, hole: usize, w: u64) -> Seq<u64>
    decreases path.len(),
{
    if path.len() == 0 {
        words.update(hole as int, w)
    } else {
        shifted(
            words.update(hole as int, words[path.last() as int]),
            path.drop_last(),
            path.last(),
            w,
        )
    }
}

/// The words with a fresh one placed: in an empty slot of its first bucket, else
/// of its other bucket, else where entries make room for it; nothing where no
/// walk finds a way. Also the generator behind it.
spec fn with_placed(words: Seq<u64>, mask: u64, hash: u64, w: u64, seed: u64) -> (
    Option<Seq<u64>>,
    u64,
) {
    let b1 = home_of(mask, hash);
    let b2 = alt_of(mask, b1, tag_of(hash));
    match (first_empty(words, b1, 0), first_empty(words, b2, 0)) {
        (Some(p), _) => (Some(words.update(p as int, w)), seed),
        (None, Some(p)) => (Some(words.update(p as int, w)), seed),
        (None, None) => match path_found(words, mask, b1, b2, seed, MAX_WALKS as nat) {
            (Some((path, dest)), s) => (Some(shifted(words, path, dest, w)), s),
            (None, s) => (None, s),
        },
    }
}

/// The slots of a fresh table of `buckets` buckets into which the words of
/// another were placed, in their order; nothing where one finds no place. Also
/// the generator behind it.
spec fn refilled(words: Seq<u64>, heap: Map<u64, Item>, buckets: nat, seed: u64) -> (
    Option<Seq<u64>>,
    u64,
)
    decreases words.len(),
{
    if words.len() == 0 {
        (Some(Seq::new(8 * buckets, |i: int| 0u64)), seed)
    } else {
        match refilled(words.drop_last(), heap, buckets, seed) {
            (None, s) => (None, s),
            (Some(t), s) => if words.last() == 0 {
                (Some(t), s)
            } else {
                with_placed(
                    t,
                    (buckets - 1) as u64,
                    heap[id_of(words.last())].hash,
                    words.last(),
                    s,
                )
            },
        }
    }
}

/// A word that finds no place ends it, whatever words come behind.
proof fn refilled_stops(words: Seq<u64>, heap: Map<u64, Item>, buckets: nat, seed: u64, n: int)
    requires
        0 <= n <= words.len(),
        refilled(words.take(n), heap, buckets, seed).0 is None,
    ensures
        refilled(words, heap, buckets, seed) == refilled(words.take(n), heap, buckets, seed),
    decreases words.len(),
{
    if n == words.len() {
        assert(words.take(n) =~= words);
    } else {
        assert(words.drop_last().take(n) =~= words.take(n));
        refilled_stops(words.drop_last(), heap, buckets, seed, n);
    }
}

/// The slots of the smallest larger table that takes all words, by doubling one
/// of `n` slots. Nothing where none does that can be allocated: a table that has
/// 64 slots for each of `len` keys and one more is not doubled again. Also the
/// generator behind it.
spec fn grown(words: Seq<u64>, heap: Map<u64, Item>, len: nat, n: nat, seed: u64) -> (
    Option<Seq<u64>>,
    u64,
)
    decreases MAX_WORDS - n,
{
    if 0 < n <= MAX_WORDS / 2 && n / 64 <= len {
        match refilled(words, heap, 2 * n / 8, seed) {
            (Some(t), s) => (Some(t), s),
            (None, s) => grown(words, heap, len, 2 * n, s),
        }
    } else {
        (None, seed)
    }
}

/// A table of slots.
pub struct Table {
    /// The slots of bucket `b` start at `8 * b`.
    words: Vec<u64>,
    /// One less than the number of buckets.
    mask: u64,
}

impl Table {
    spec fn wf(&self) -> bool {
        &&& self.words@.len() == 8 * (self.mask + 1)
        &&& 512 <= self.words@.len() <= MAX_WORDS
        &&& power_of_two((self.mask + 1) as u64)
    }

    fn new(buckets: usize) -> (t: Self)
        requires
            64 <= buckets <= MAX_WORDS / 8,
            power_of_two(buckets as u64),
        ensures
            t.wf(),
            t.words@.len() == 8 * buckets,
            forall|p: int| 0 <= p < t.words@.len() ==> t.words@[p] == 0,
    {
        Table { words: vec![0u64; buckets * SLOTS], mask: (buckets - 1) as u64 }
    }

    #[inline]
    fn home(&self, hash: u64) -> (b: u64)
        ensures
            b == home_of(self.mask, hash) <= self.mask,
    {
        let mask = self.mask;
        assert(hash & mask <= mask) by (bit_vector);
        hash & self.mask
    }

    #[inline]
    fn alt(&self, bucket: u64, tag: u64) -> (b: u64)
        requires
            tag < 0x1_0000,
        ensures
            b == alt_of(self.mask, bucket, tag) <= self.mask,
    {
        let mask = self.mask;
        let h: u64 = (tag * 0x9E37_79B9) | 1;
        assert((bucket ^ h) & mask <= mask) by (bit_vector);
        (bucket ^ h) & self.mask
    }

    /// The slot of an entry for `key`, searched in `bucket`.
    #[inline]
    fn find_in(&self, heap: &Heap, bucket: u64, tag: u64, key: &[u8]) -> (r: Option<usize>)
        requires
            self.wf(),
            heap.wf(),
            sound(self.words@, self.mask, heap@),
            bucket <= self.mask,
        ensures
            match r {
                Some(p) => p < self.words@.len() && self.words@[p as int] != 0
                    && heap@[id_of(self.words@[p as int])].key == key@,
                None => forall|p: int|
                    8 * bucket <= p < 8 * bucket + 8 && self.words@[p] != 0 && tag_of(
                        #[trigger] self.words@[p],
                    ) == tag ==> heap@[id_of(self.words@[p])].key != key@,
            },
    {
        let base: usize = bucket as usize * SLOTS;
        let mut i: usize = 0;
        while i < SLOTS
            invariant
                i <= 8,
                self.wf(),
                heap.wf(),
                sound(self.words@, self.mask, heap@),
                bucket <= self.mask,
                base == 8 * bucket,
                forall|p: int|
                    8 * bucket <= p < 8 * bucket + i && self.words@[p] != 0 && tag_of(
                        #[trigger] self.words@[p],
                    ) == tag ==> heap@[id_of(self.words@[p])].key != key@,
            decreases 8 - i,
        {
            let w: u64 = self.words[base + i];
            if w != 0 && w / ID_END == tag {
                if same_bytes(heap.get(w % ID_END).key(), key) {
                    return Some(base + i);
                }
            }
            i = i + 1;
        }
        None
    }

    /// The slot of the entry for `key`, which is stored under `hash` if it is stored.
    fn find(&self, heap: &Heap, hash: u64, key: &[u8]) -> (r: Option<usize>)
        requires
            self.wf(),
            heap.wf(),
            sound(self.words@, self.mask, heap@),
        ensures
            match r {
                Some(p) => p < self.words@.len() && self.words@[p as int] != 0
                    && heap@[id_of(self.words@[p as int])].key == key@,
                None => forall|p: int|
                    0 <= p < self.words@.len() && #[trigger] self.words@[p] != 0
                        && heap@[id_of(self.words@[p])].hash == hash
                        ==> heap@[id_of(self.words@[p])].key != key@,
            },
    {
        let tag: u64 = hash / ID_END;
        let b1: u64 = self.home(hash);
        let b2: u64 = self.alt(b1, tag);
        let first = self.find_in(heap, b1, tag, key);
        if first.is_some() {
            return first;
        }
        let second = self.find_in(heap, b2, tag, key);
        if second.is_some() {
            return second;
        }
        proof {
            assert forall|p: int|
                0 <= p < self.words@.len() && #[trigger] self.words@[p] != 0
                    && heap@[id_of(self.words@[p])].hash == hash implies heap@[id_of(
                self.words@[p],
            )].key != key@ by {
                let w = self.words@[p];
                word_roundtrip(hash, id_of(w));
                assert(candidate(self.mask, hash, (p / 8) as u64));
                let b = p / 8;
                assert(8 * b <= p < 8 * b + 8);
            }
        }
        None
    }

    /// An empty slot of a bucket.
    #[inline]
    fn empty_slot(&self, bucket: u64) -> (r: Option<usize>)
        requires
            self.wf(),
            bucket <= self.mask,
        ensures
            match r {
                Some(p) => p < self.words@.len() && self.words@[p as int] == 0 && p / 8 == bucket,
                None => self.full(bucket),
            },
            r == first_empty(self.words@, bucket, 0),
    {
        let base: usize = bucket as usize * SLOTS;
        let mut i: usize = 0;
        while i < SLOTS
            invariant
                i <= 8,
                self.wf(),
                bucket <= self.mask,
                base == 8 * bucket,
                forall|p: int|
                    8 * bucket <= p < 8 * bucket + i ==> #[trigger] self.words@[p] != 0,
                first_empty(self.words@, bucket, 0) == first_empty(self.words@, bucket, i as nat),
            decreases 8 - i,
        {
            if self.words[base + i] == 0 {
                return Some(base + i);
            }
            i = i + 1;
        }
        None
    }

    /// No slot of a bucket is empty.
    spec fn full(&self, bucket: u64) -> bool {
        forall|p: int| 8 * bucket <= p < 8 * bucket + 8 ==> #[trigger] self.words@[p] != 0
    }

    /// A way to make room: the entry in each slot of `path` may move to the
    /// next one, and that in the last to `dest`, which is empty. No slot is
    /// visited twice: moving entries along would then overwrite one that has
    /// not been moved.
    spec fn path_ok(&self, bucket: u64, path: Seq<usize>, dest: usize) -> bool {
        &&& path.len() > 0
        &&& path[0] / 8 == bucket
        &&& path.no_duplicates()
        &&& forall|k: int|
            0 <= k < path.len() ==> (#[trigger] path[k]) < self.words@.len()
                && self.words@[path[k] as int] != 0
        &&& forall|k: int|
            0 <= k < path.len() - 1 ==> path[k + 1] / 8 == self.after(#[trigger] path[k])
        &&& dest < self.words@.len()
        &&& self.words@[dest as int] == 0
        &&& dest / 8 == self.after(path.last())
    }

    /// The other bucket for the entry in slot `p`.
    spec fn after(&self, p: usize) -> u64 {
        alt_of(self.mask, (p / 8) as u64, tag_of(self.words@[p as int]))
    }

    /// One random walk from `bucket` to a bucket with an empty slot. A walk
    /// that loops or runs too long is given up.
    fn walk(&self, bucket: u64, seed: &mut u64) -> (r: Option<(Vec<usize>, usize)>)
        requires
            self.wf(),
            bucket <= self.mask,
            self.full(bucket),
        ensures
            r matches Some((path, dest)) ==> self.path_ok(bucket, path@, dest),
            (way(r), *final(seed)) == walked(
                self.words@,
                self.mask,
                bucket,
                Seq::empty(),
                *old(seed),
                MAX_KICKS as nat,
            ),
    {
        let mut path: Vec<usize> = Vec::with_capacity(16);
        let mut b: u64 = bucket;
        let mut kicks: usize = 0;
        while kicks < MAX_KICKS
            invariant
                kicks <= MAX_KICKS,
                walked(
                    self.words@,
                    self.mask,
                    bucket,
                    Seq::empty(),
                    *old(seed),
                    MAX_KICKS as nat,
                ) == walked(
                    self.words@,
                    self.mask,
                    b,
                    path@,
                    *seed,
                    (MAX_KICKS - kicks) as nat,
                ),
                self.wf(),
                b <= self.mask,
                self.full(b),
                path@.len() == 0 ==> b == bucket,
                path@.len() > 0 ==> path@[0] / 8 == bucket && b == self.after(path@.last()),
                path@.no_duplicates(),
                forall|k: int|
                    0 <= k < path@.len() ==> (#[trigger] path@[k]) < self.words@.len()
                        && self.words@[path@[k] as int] != 0,
                forall|k: int|
                    0 <= k < path@.len() - 1 ==> path@[k + 1] / 8 == self.after(
                        #[trigger] path@[k],
                    ),
            decreases MAX_KICKS - kicks,
        {
            *seed = seed.wrapping_mul(6364136223846793005).wrapping_add(1442695040888963407);
            let i: usize = ((*seed / 0x2_0000_0000) % 8) as usize;
            let p: usize = b as usize * SLOTS + i;
            assert(p == picked(b, *seed));
            if contains(&path, p) {
                return None;
            }
            let w: u64 = self.words[p];
            let ghost before = path@;
            path.push(p);
            assert(path@.drop_last() =~= before);
            assert(before.len() > 0 ==> path@[before.len() - 1] == before.last());
            let next: u64 = self.alt(b, w / ID_END);
            if let Some(dest) = self.empty_slot(next) {
                return Some((path, dest));
            }
            b = next;
            kicks = kicks + 1;
        }
        None
    }

    /// A way to make room in one of two full buckets.
    fn find_path(&self, b1: u64, b2: u64, seed: &mut u64) -> (r: Option<(Vec<usize>, usize)>)
        requires
            self.wf(),
            b1 <= self.mask,
            b2 <= self.mask,
            self.full(b1),
            self.full(b2),
        ensures
            r matches Some((path, dest)) ==> self.path_ok(b1, path@, dest) || self.path_ok(
                b2,
                path@,
                dest,
            ),
            (way(r), *final(seed)) == path_found(
                self.words@,
                self.mask,
                b1,
                b2,
                *old(seed),
                MAX_WALKS as nat,
            ),
    {
        let mut walks: usize = 0;
        while walks < MAX_WALKS
            invariant
                walks <= MAX_WALKS,
                path_found(self.words@, self.mask, b1, b2, *old(seed), MAX_WALKS as nat)
                    == path_found(
                    self.words@,
                    self.mask,
                    b1,
                    b2,
                    *seed,
                    (MAX_WALKS - walks) as nat,
                ),
                self.wf(),
                b1 <= self.mask,
                b2 <= self.mask,
                self.full(b1),
                self.full(b2),
            decreases MAX_WALKS - walks,
        {
            let b: u64 = if *seed % 2 == 0 {
                b1
            } else {
                b2
            };
            let found = self.walk(b, seed);
            if found.is_some() {
                return found;
            }
            walks = walks + 1;
        }
        None
    }

    /// Cuckoo placement of a fresh word. Every move copies to the destination
    /// before the source is overwritten.
    fn place(&mut self, heap: Ghost<Map<u64, Item>>, hash: u64, w: u64, seed: &mut u64) -> (r: bool)
        requires
            old(self).wf(),
            sound(old(self).words@, old(self).mask, heap@),
            distinct(old(self).words@),
            w != 0,
            heap@.contains_key(id_of(w)),
            1 <= id_of(w),
            w == entry_word(heap@, id_of(w)),
            heap@[id_of(w)].hash == hash,
            !in_table(old(self).words@, w),
        ensures
            final(self).wf(),
            final(self).mask == old(self).mask,
            final(self).words@.len() == old(self).words@.len(),
            sound(final(self).words@, final(self).mask, heap@),
            distinct(final(self).words@),
            r ==> forall|x: u64|
                x != 0 ==> (#[trigger] in_table(final(self).words@, x) <==> in_table(old(self).words@, x) || x == w),
            !r ==> final(self).words@ == old(self).words@,
            (
                if r {
                    Some(final(self).words@)
                } else {
                    None
                },
                *final(seed),
            ) == with_placed(old(self).words@, old(self).mask, hash, w, *old(seed)),
    {
        let tag: u64 = hash / ID_END;
        let b1: u64 = self.home(hash);
        let b2: u64 = self.alt(b1, tag);
        if let Some(p) = self.empty_slot(b1) {
            self.words.set(p, w);
            proof {
                filled(old(self).words@, p as int, w);
            }
            return true;
        }
        if let Some(p) = self.empty_slot(b2) {
            self.words.set(p, w);
            proof {
                filled(old(self).words@, p as int, w);
            }
            return true;
        }
        let (path, dest) = match self.find_path(b1, b2, seed) {
            Some(found) => found,
            None => return false,
        };
        // Apply the path backwards, last hop first, so every slot is copied
        // out before it is overwritten. `hole` is the slot whose word already
        // lies elsewhere, if it had one.
        let mut hole: usize = dest;
        let mut k: usize = path.len();
        let ghost start = *self;
        let ghost bucket = (path@[0] / 8) as u64;
        assert(self.words@.update(hole as int, 0) =~= self.words@);
        assert(path@.take(k as int) =~= path@);
        while k > 0
            invariant
                shifted(self.words@, path@.take(k as int), hole, w) == shifted(
                    start.words@,
                    path@,
                    dest,
                    w,
                ),
                k <= path@.len(),
                start.path_ok(bucket, path@, dest),
                self.wf(),
                self.mask == start.mask,
                self.words@.len() == start.words@.len(),
                hole < self.words@.len(),
                k == path@.len() ==> hole == dest,
                k < path@.len() ==> hole == path@[k as int],
                forall|j: int|
                    0 <= j < k ==> self.words@[#[trigger] path@[j] as int]
                        == start.words@[path@[j] as int],
                sound(self.words@.update(hole as int, 0), self.mask, heap@),
                distinct(self.words@.update(hole as int, 0)),
                forall|x: u64|
                    x != 0 ==> (#[trigger] in_table(self.words@.update(hole as int, 0), x) <==> in_table(
                        start.words@,
                        x,
                    )),
            decreases k,
        {
            k = k - 1;
            let p: usize = path[k];
            assert(path@.take(k + 1).drop_last() =~= path@.take(k as int));
            let ghost kept = self.words@.update(hole as int, 0);
            assert(p != hole) by {
                if k + 1 == path@.len() {
                    assert(start.words@[p as int] != 0);
                }
            }
            let x: u64 = self.words[p];
            self.words.set(hole, x);
            proof {
                assert(x == start.words@[p as int]);
                assert(kept[p as int] == x && x != 0);
                let h = heap@[id_of(x)].hash;
                word_roundtrip(h, id_of(x));
                assert(start.after(p) == alt_of(self.mask, (p / 8) as u64, tag_of(h)));
                assert(hole / 8 == start.after(p)) by {
                    if k + 1 < path@.len() {
                        assert(path@[k + 1] / 8 == start.after(path@[k as int]));
                    } else {
                        assert(path@.last() == p);
                    }
                }
                a_moved_entry_can_be_found(self.mask, h, (p / 8) as u64);
                moved(kept, self.mask, hole as int, p as int, heap@);
                assert(self.words@.update(p as int, 0) =~= kept.update(p as int, 0).update(
                    hole as int,
                    x,
                ));
            }
            hole = p;
        }
        let ghost kept = self.words@.update(hole as int, 0);
        self.words.set(hole, w);
        proof {
            assert(self.words@ =~= kept.update(hole as int, w));
            assert(!in_table(kept, w)) by {
                assert(in_table(kept, w) <==> in_table(start.words@, w));
            }
            filled(kept, hole as int, w);
        }
        true
    }
}

/// Moving the word in slot `p` to an empty slot of its other bucket keeps all words.
proof fn moved(words: Seq<u64>, mask: u64, hole: int, p: int, heap: Map<u64, Item>)
    requires
        sound(words, mask, heap),
        distinct(words),
        0 <= p < words.len(),
        0 <= hole < words.len(),
        words[hole] == 0,
        words[p] != 0,
        candidate(mask, heap[id_of(words[p])].hash, (hole / 8) as u64),
    ensures
        ({
            let after = words.update(p, 0).update(hole, words[p]);
            &&& sound(after, mask, heap)
            &&& distinct(after)
            &&& forall|x: u64| x != 0 ==> (#[trigger] in_table(after, x) <==> in_table(words, x))
        }),
{
    emptied(words, p);
    let between = words.update(p, 0);
    let w = words[p];
    assert(in_table(words, w));
    assert(!in_table(between, w));
    filled(between, hole, w);
    let after = between.update(hole, w);
    assert forall|x: u64| x != 0 implies (#[trigger] in_table(after, x) <==> in_table(words, x)) by {
        assert(in_table(between, x) <==> in_table(words, x) && x != w);
    }
}

/// The slots to move along and the empty slot behind them.
spec fn way(found: Option<(Vec<usize>, usize)>) -> Option<(Seq<usize>, usize)> {
    match found {
        Some((path, dest)) => Some((path@, dest)),
        None => None,
    }
}

/// Whether `p` is in the list.
fn contains(list: &Vec<usize>, p: usize) -> (r: bool)
    ensures
        r == list@.contains(p),
{
    let mut i: usize = 0;
    while i < list.len()
        invariant
            i <= list@.len(),
            forall|j: int| 0 <= j < i ==> list@[j] != p,
        decreases list@.len() - i,
    {
        if list[i] == p {
            assert(list@[i as int] == p);
            return true;
        }
        i = i + 1;
    }
    false
}

/// Finds an entry by its key: the ids of entries by key, in two candidate
/// buckets each. A word for which no table within reason has room, because too
/// many keys share both buckets, is kept in a list of its own.
pub struct Index {
    table: Table,
    overflow: Vec<u64>,
    len: usize,
    kick_seed: u64,
    items: Ghost<Map<Seq<u8>, u64>>,
}

impl View for Index {
    type V = Map<Seq<u8>, u64>;

    /// The id under which each key's entry is held.
    closed spec fn view(&self) -> Map<Seq<u8>, u64> {
        self.items@
    }
}

/// Every word is that of an entry whose key maps to it.
spec fn listed(stored: Set<u64>, heap: Map<u64, Item>, items: Map<Seq<u8>, u64>) -> bool {
    forall|w: u64| #[trigger]
        stored.contains(w) ==> {
            &&& heap.contains_key(id_of(w))
            &&& 1 <= id_of(w)
            &&& w == entry_word(heap, id_of(w))
            &&& items.contains_key(heap[id_of(w)].key)
            &&& items[heap[id_of(w)].key] == id_of(w)
        }
}

/// Every key maps to an entry with that key, whose word is stored.
spec fn reachable(stored: Set<u64>, heap: Map<u64, Item>, items: Map<Seq<u8>, u64>) -> bool {
    forall|k: Seq<u8>| #[trigger]
        items.contains_key(k) ==> {
            &&& 1 <= items[k] < ID_END
            &&& heap.contains_key(items[k])
            &&& heap[items[k]].key == k
            &&& stored.contains(entry_word(heap, items[k]))
        }
}

/// The words in slots and in a list beside them.
spec fn stored_words(words: Seq<u64>, overflow: Seq<u64>) -> Set<u64> {
    Set::new(|x: u64| x != 0 && (in_table(words, x) || in_table(overflow, x)))
}

/// Storing the word of an entry with a new key maps that key.
proof fn stored_one(stored: Set<u64>, heap: Map<u64, Item>, items: Map<Seq<u8>, u64>, id: u64)
    requires
        listed(stored, heap, items),
        reachable(stored, heap, items),
        heap.contains_key(id),
        1 <= id < ID_END,
        !items.contains_key(heap[id].key),
    ensures
        listed(stored.insert(entry_word(heap, id)), heap, items.insert(heap[id].key, id)),
        reachable(stored.insert(entry_word(heap, id)), heap, items.insert(heap[id].key, id)),
{
    word_roundtrip(heap[id].hash, id);
}

/// Dropping the word of a key's entry unmaps that key.
proof fn dropped_one(
    stored: Set<u64>,
    heap: Map<u64, Item>,
    items: Map<Seq<u8>, u64>,
    key: Seq<u8>,
)
    requires
        listed(stored, heap, items),
        reachable(stored, heap, items),
        items.contains_key(key),
    ensures
        listed(stored.remove(entry_word(heap, items[key])), heap, items.remove(key)),
        reachable(stored.remove(entry_word(heap, items[key])), heap, items.remove(key)),
{
    let w = entry_word(heap, items[key]);
    word_roundtrip(heap[items[key]].hash, items[key]);
    assert forall|x: u64| #[trigger] stored.remove(w).contains(x) implies heap[id_of(x)].key
        != key by {
        if heap[id_of(x)].key == key {
            assert(id_of(x) == items[key]);
        }
    }
    assert forall|k: Seq<u8>| #[trigger] items.remove(key).contains_key(k) implies entry_word(
        heap,
        items[k],
    ) != w by {
        word_roundtrip(heap[items[k]].hash, items[k]);
    }
}

/// Mapping a key to an entry leaves every other key as it is, and adds one to
/// their number just where the key was not mapped.
pub proof fn an_insert_maps_one_key(
    items: Map<Seq<u8>, u64>,
    key: Seq<u8>,
    id: u64,
    other: Seq<u8>,
)
    requires
        items.dom().finite(),
        other != key,
    ensures
        items.insert(key, id).contains_key(key),
        items.insert(key, id)[key] == id,
        items.insert(key, id).contains_key(other) == items.contains_key(other),
        items.contains_key(other) ==> items.insert(key, id)[other] == items[other],
        items.insert(key, id).dom().len() == items.dom().len() + (if items.contains_key(key) {
            0nat
        } else {
            1
        }),
{
    if items.contains_key(key) {
        assert(items.insert(key, id).dom() =~= items.dom());
    } else {
        assert(items.insert(key, id).dom() =~= items.dom().insert(key));
    }
}

impl Index {
    spec fn stored(&self) -> Set<u64> {
        stored_words(self.table.words@, self.overflow@)
    }

    pub closed spec fn wf(&self, heap: Map<u64, Item>) -> bool {
        &&& self.table.wf()
        &&& sound(self.table.words@, self.table.mask, heap)
        &&& distinct(self.table.words@)
        &&& distinct(self.overflow@)
        &&& forall|j: int| 0 <= j < self.overflow@.len() ==> #[trigger] self.overflow@[j] != 0
        &&& forall|x: u64|
            x != 0 && #[trigger] in_table(self.table.words@, x) ==> !in_table(self.overflow@, x)
        &&& listed(self.stored(), heap, self.items@)
        &&& reachable(self.stored(), heap, self.items@)
        &&& self.items@.dom().finite()
        &&& self.len == self.items@.dom().len()
    }

    /// What the index relies on of the entries it lists is their keys and
    /// hashes: other changes to the heap leave it sound.
    pub proof fn heap_changed(&self, before: Map<u64, Item>, after: Map<u64, Item>)
        requires
            self.wf(before),
            forall|k: Seq<u8>| #[trigger]
                self@.contains_key(k) ==> after.contains_key(self@[k]) && after[self@[k]].key
                    == before[self@[k]].key && after[self@[k]].hash == before[self@[k]].hash,
        ensures
            self.wf(after),
    {
        let words = self.table.words@;
        assert forall|w: u64| #[trigger] self.stored().contains(w) implies {
            &&& after.contains_key(id_of(w))
            &&& after[id_of(w)].key == before[id_of(w)].key
            &&& after[id_of(w)].hash == before[id_of(w)].hash
        } by {
            assert(self@.contains_key(before[id_of(w)].key));
        }
        assert forall|p: int| 0 <= p < words.len() && words[p] != 0 implies self.stored().contains(
            #[trigger] words[p],
        ) by {
            assert(in_table(words, words[p]));
        }
    }

    /// Every key maps to the id of an entry with that key.
    pub proof fn maps_keys(&self, heap: Map<u64, Item>)
        requires
            self.wf(heap),
        ensures
            self@.dom().finite(),
            forall|k: Seq<u8>| #[trigger]
                self@.contains_key(k) ==> heap.contains_key(self@[k]) && heap[self@[k]].key == k
                    && 1 <= self@[k] < ID_END,
    {
    }

    pub fn new() -> (r: Self)
        ensures
            r.wf(Map::empty()),
            r@ == Map::<Seq<u8>, u64>::empty(),
    {
        assert(64u64 & 63u64 == 0) by (bit_vector);
        Index {
            table: Table::new(MIN_BUCKETS),
            overflow: Vec::new(),
            len: 0,
            kick_seed: 1,
            items: Ghost(Map::empty()),
        }
    }

    /// How many keys there are.
    pub fn len(&self, heap: &Heap) -> (n: usize)
        requires
            self.wf(heap@),
        ensures
            n == self@.dom().len(),
    {
        self.len
    }

    /// Where the word of the entry for `key` lies in the overflow list.
    fn find_overflow(&self, heap: &Heap, key: &[u8]) -> (r: Option<usize>)
        requires
            heap.wf(),
            self.wf(heap@),
        ensures
            match r {
                Some(j) => j < self.overflow@.len() && heap@[id_of(self.overflow@[j as int])].key
                    == key@,
                None => forall|j: int|
                    0 <= j < self.overflow@.len() ==> heap@[id_of(
                        #[trigger] self.overflow@[j],
                    )].key != key@,
            },
    {
        let mut j: usize = 0;
        while j < self.overflow.len()
            invariant
                j <= self.overflow@.len(),
                heap.wf(),
                self.wf(heap@),
                forall|i: int|
                    0 <= i < j ==> heap@[id_of(#[trigger] self.overflow@[i])].key != key@,
            decreases self.overflow@.len() - j,
        {
            let w: u64 = self.overflow[j];
            assert(in_table(self.overflow@, w));
            assert(self.stored().contains(w));
            if same_bytes(heap.get(w % ID_END).key(), key) {
                return Some(j);
            }
            j = j + 1;
        }
        None
    }

    /// The id of the entry for `key`, which is stored under `hash` if it is stored.
    #[inline]
    pub fn get(&self, heap: &Heap, hash: u64, key: &[u8]) -> (r: Option<u64>)
        requires
            heap.wf(),
            self.wf(heap@),
            self@.contains_key(key@) ==> heap@[self@[key@]].hash == hash,
        ensures
            r == if self@.contains_key(key@) {
                Some(self@[key@])
            } else {
                None
            },
    {
        if let Some(p) = self.table.find(heap, hash, key) {
            let w: u64 = self.table.words[p];
            assert(in_table(self.table.words@, w));
            assert(self.stored().contains(w));
            return Some(w % ID_END);
        }
        if let Some(j) = self.find_overflow(heap, key) {
            let w: u64 = self.overflow[j];
            assert(in_table(self.overflow@, w));
            assert(self.stored().contains(w));
            return Some(w % ID_END);
        }
        proof {
            self.found_nowhere(heap@, hash, key@);
        }
        None
    }

    /// A key that a search did not find is not there.
    proof fn found_nowhere(&self, heap: Map<u64, Item>, hash: u64, key: Seq<u8>)
        requires
            self.wf(heap),
            self@.contains_key(key) ==> heap[self@[key]].hash == hash,
            forall|p: int|
                0 <= p < self.table.words@.len() && #[trigger] self.table.words@[p] != 0
                    && heap[id_of(self.table.words@[p])].hash == hash ==> heap[id_of(
                    self.table.words@[p],
                )].key != key,
            forall|j: int|
                0 <= j < self.overflow@.len() ==> heap[id_of(#[trigger] self.overflow@[j])].key
                    != key,
        ensures
            !self@.contains_key(key),
    {
        if self@.contains_key(key) {
            let id = self@[key];
            let w = entry_word(heap, id);
            word_roundtrip(hash, id);
            assert(self.stored().contains(w));
            if in_table(self.table.words@, w) {
                let p = choose|p: int|
                    0 <= p < self.table.words@.len() && #[trigger] self.table.words@[p] == w;
                assert(heap[id_of(self.table.words@[p])].key != key);
            } else {
                let j = choose|j: int|
                    0 <= j < self.overflow@.len() && #[trigger] self.overflow@[j] == w;
                assert(heap[id_of(self.overflow@[j])].key != key);
            }
        }
    }

    /// Doubles the table until every word in it has a place. Gives up, and
    /// leaves the table as it is, where more room is not what is missing.
    fn grow(&mut self, heap: &Heap) -> (r: bool)
        requires
            heap.wf(),
            old(self).wf(heap@),
        ensures
            final(self).wf(heap@),
            final(self)@ == old(self)@,
            final(self).len == old(self).len,
            final(self).overflow@ == old(self).overflow@,
            r ==> final(self).table.words@.len() > old(self).table.words@.len(),
            !r ==> final(self).table == old(self).table,
            final(self).stored() == old(self).stored(),
            (
                if r {
                    Some(final(self).table.words@)
                } else {
                    None
                },
                final(self).kick_seed,
            ) == grown(
                old(self).table.words@,
                heap@,
                old(self).len as nat,
                old(self).table.words@.len(),
                old(self).kick_seed,
            ),
    {
        let mut n: usize = self.table.words.len();
        while n <= MAX_WORDS / 2 && n / 64 <= self.len
            invariant
                heap.wf(),
                self.wf(heap@),
                self@ == old(self)@,
                self.len == old(self).len,
                self.overflow@ == old(self).overflow@,
                self.table == old(self).table,
                old(self).table.words@.len() <= n <= MAX_WORDS,
                n % 8 == 0,
                512 <= n,
                power_of_two((n / 8) as u64),
                grown(
                    old(self).table.words@,
                    heap@,
                    old(self).len as nat,
                    old(self).table.words@.len(),
                    old(self).kick_seed,
                ) == grown(
                    old(self).table.words@,
                    heap@,
                    self.len as nat,
                    n as nat,
                    self.kick_seed,
                ),
            decreases MAX_WORDS - n,
        {
            proof {
                doubled((n / 8) as u64);
            }
            n = n * 2;
            if let Some(fresh) = self.rehash(heap, n / SLOTS) {
                self.table = fresh;
                assert(self.stored() =~= old(self).stored());
                return true;
            }
        }
        false
    }

    /// The words of the table in a fresh one, if they all have a place there.
    fn rehash(&mut self, heap: &Heap, buckets: usize) -> (r: Option<Table>)
        requires
            heap.wf(),
            old(self).wf(heap@),
            64 <= buckets <= MAX_WORDS / 8,
            power_of_two(buckets as u64),
        ensures
            final(self).wf(heap@),
            final(self).table == old(self).table,
            final(self).overflow == old(self).overflow,
            final(self).len == old(self).len,
            final(self).items == old(self).items,
            (
                match r {
                    Some(fresh) => Some(fresh.words@),
                    None => None,
                },
                final(self).kick_seed,
            ) == refilled(old(self).table.words@, heap@, buckets as nat, old(self).kick_seed),
            r matches Some(fresh) ==> {
                &&& fresh.wf()
                &&& fresh.words@.len() == 8 * buckets
                &&& sound(fresh.words@, fresh.mask, heap@)
                &&& distinct(fresh.words@)
                &&& forall|x: u64|
                    x != 0 ==> (#[trigger] in_table(fresh.words@, x) <==> in_table(
                        old(self).table.words@,
                        x,
                    ))
            },
    {
        let mut fresh = Table::new(buckets);
        let mut seed: u64 = self.kick_seed;
        let mut p: usize = 0;
        let ghost words = self.table.words@;
        assert(fresh.words@ =~= Seq::new(8 * buckets as nat, |i: int| 0u64));
        while p < self.table.words.len()
            invariant
                p <= words.len(),
                words == self.table.words@,
                heap.wf(),
                self.wf(heap@),
                *self == *old(self),
                fresh.wf(),
                refilled(words.take(p as int), heap@, buckets as nat, old(self).kick_seed) == (
                    Some(fresh.words@),
                    seed,
                ),
                fresh.words@.len() == 8 * buckets,
                sound(fresh.words@, fresh.mask, heap@),
                distinct(fresh.words@),
                forall|x: u64|
                    x != 0 ==> (#[trigger] in_table(fresh.words@, x) <==> in_table(
                        words.take(p as int),
                        x,
                    )),
            decreases words.len() - p,
        {
            let w: u64 = self.table.words[p];
            let ghost head = words.take(p as int);
            assert(words.take(p + 1) =~= head.push(w));
            assert(words.take(p + 1).drop_last() =~= head);
            if w != 0 {
                let hash: u64 = heap.get(w % ID_END).hash();
                proof {
                    if in_table(head, w) {
                        let q = choose|q: int| 0 <= q < head.len() && #[trigger] head[q] == w;
                        assert(words[q] == w && words[p as int] == w);
                    }
                    added(head, w);
                }
                if !fresh.place(Ghost(heap@), hash, w, &mut seed) {
                    self.kick_seed = seed;
                    proof {
                        refilled_stops(words, heap@, buckets as nat, old(self).kick_seed, p + 1);
                    }
                    return None;
                }
            } else {
                proof {
                    assert forall|x: u64| x != 0 implies (#[trigger] in_table(head.push(w), x)
                        <==> in_table(head, x)) by {
                        let longer = head.push(w);
                        if in_table(head, x) {
                            let q = choose|q: int| 0 <= q < head.len() && #[trigger] head[q] == x;
                            assert(longer[q] == x);
                        }
                        if in_table(longer, x) {
                            let q = choose|q: int|
                                0 <= q < longer.len() && #[trigger] longer[q] == x;
                            assert(head[q] == x);
                        }
                    }
                }
            }
            p = p + 1;
        }
        self.kick_seed = seed;
        assert(words.take(p as int) =~= words);
        Some(fresh)
    }

    /// The word of an entry that no key maps to lies nowhere.
    proof fn word_is_new(&self, heap: Map<u64, Item>, id: u64)
        requires
            self.wf(heap),
            heap.contains_key(id),
            1 <= id < ID_END,
            forall|k: Seq<u8>| #[trigger] self@.contains_key(k) ==> self@[k] != id,
        ensures
            entry_word(heap, id) != 0,
            !self.stored().contains(entry_word(heap, id)),
            !in_table(self.table.words@, entry_word(heap, id)),
            !in_table(self.overflow@, entry_word(heap, id)),
    {
        let w = entry_word(heap, id);
        word_roundtrip(heap[id].hash, id);
        if self.stored().contains(w) {
            assert(self@.contains_key(heap[id_of(w)].key));
        }
    }

    /// Insert or replace the entry for the key of `id`. Returns the id of the
    /// entry it replaces, if any.
    pub fn insert(&mut self, heap: &Heap, id: u64) -> (r: Option<u64>)
        requires
            heap.wf(),
            old(self).wf(heap@),
            heap@.contains_key(id),
            1 <= id < ID_END,
            forall|k: Seq<u8>| #[trigger] old(self)@.contains_key(k) ==> old(self)@[k] != id,
            old(self)@.contains_key(heap@[id].key) ==> heap@[old(self)@[heap@[id].key]].hash
                == heap@[id].hash,
            old(self)@.dom().len() < usize::MAX,
        ensures
            final(self).wf(heap@),
            final(self)@ == old(self)@.insert(heap@[id].key, id),
            final(self)@.dom().len() == old(self)@.dom().len() + (if r is None {
                1nat
            } else {
                0
            }),
            r == if old(self)@.contains_key(heap@[id].key) {
                Some(old(self)@[heap@[id].key])
            } else {
                None
            },
    {
        let e = heap.get(id);
        let hash: u64 = e.hash();
        let w: u64 = word(hash / ID_END, id);
        let ghost key = e@.key;
        let ghost before = *self;
        proof {
            word_roundtrip(hash, id);
            self.word_is_new(heap@, id);
        }
        if let Some(p) = self.table.find(heap, hash, e.key()) {
            let x: u64 = self.table.words[p];
            self.table.words.set(p, w);
            proof {
                let words = before.table.words@;
                assert(in_table(words, x));
                assert(before.stored().contains(x));
                replaced(words, p as int, w);
                self.items@ = before.items@.insert(key, id);
                self.replaced_one(before, heap@, x, id);
            }
            return Some(x % ID_END);
        }
        if let Some(j) = self.find_overflow(heap, e.key()) {
            let x: u64 = self.overflow[j];
            self.overflow.set(j, w);
            proof {
                let over = before.overflow@;
                assert(in_table(over, x));
                assert(before.stored().contains(x));
                replaced(over, j as int, w);
                self.items@ = before.items@.insert(key, id);
                self.replaced_one(before, heap@, x, id);
            }
            return Some(x % ID_END);
        }
        proof {
            self.found_nowhere(heap@, hash, key);
        }
        if self.len >= self.table.words.len() / 8 * MAX_LOAD_EIGHTHS {
            self.grow(heap);
        }
        self.insert_new(heap, hash, w, id);
        None
    }

    /// With one stored word replaced by that of another entry for its key, the
    /// key maps to the other entry.
    proof fn replaced_one(&self, before: Index, heap: Map<u64, Item>, x: u64, id: u64)
        requires
            before.wf(heap),
            heap.contains_key(id),
            1 <= id < ID_END,
            before.stored().contains(x),
            heap[id_of(x)].key == heap[id].key,
            !before.stored().contains(entry_word(heap, id)),
            entry_word(heap, id) != 0,
            self.items@ == before.items@.insert(heap[id].key, id),
            forall|y: u64|
                y != 0 ==> (#[trigger] self.stored().contains(y) <==> before.stored().contains(y)
                    && y != x || y == entry_word(heap, id)),
        ensures
            listed(self.stored(), heap, self.items@),
            reachable(self.stored(), heap, self.items@),
            self.items@.dom() == before.items@.dom(),
            id_of(x) == before.items@[heap[id].key],
    {
        let key = heap[id].key;
        dropped_one(before.stored(), heap, before.items@, key);
        let between = before.stored().remove(x);
        stored_one(between, heap, before.items@.remove(key), id);
        assert(before.items@.remove(key).insert(key, id) =~= self.items@);
        assert(between.insert(entry_word(heap, id)) =~= self.stored());
        assert(self.items@.dom() =~= before.items@.dom());
    }

    /// Stores the word of an entry whose key is not mapped yet.
    fn insert_new(&mut self, heap: &Heap, hash: u64, w: u64, id: u64)
        requires
            heap.wf(),
            old(self).wf(heap@),
            heap@.contains_key(id),
            1 <= id < ID_END,
            heap@[id].hash == hash,
            w == entry_word(heap@, id),
            w != 0,
            id_of(w) == id,
            !old(self)@.contains_key(heap@[id].key),
            !old(self).stored().contains(w),
            old(self)@.dom().len() < usize::MAX,
        ensures
            final(self).wf(heap@),
            final(self)@ == old(self)@.insert(heap@[id].key, id),
    {
        let mut seed: u64 = self.kick_seed;
        let mut placed: bool = self.table.place(Ghost(heap@), hash, w, &mut seed);
        let mut more: bool = true;
        while !placed && more
            invariant
                heap.wf(),
                heap@.contains_key(id),
                1 <= id < ID_END,
                heap@[id].hash == hash,
                w == entry_word(heap@, id),
                w != 0,
                id_of(w) == id,
                !old(self).stored().contains(w),
                old(self).wf(heap@),
                self.items@ == old(self).items@,
                self.len == old(self).len,
                self.overflow@ == old(self).overflow@,
                self.table.wf(),
                sound(self.table.words@, self.table.mask, heap@),
                distinct(self.table.words@),
                !placed ==> self.wf(heap@) && self.stored() == old(self).stored(),
                placed ==> forall|x: u64|
                    x != 0 ==> (#[trigger] stored_words(
                        self.table.words@,
                        self.overflow@,
                    ).contains(x) <==> old(self).stored().contains(x) || x == w),
                placed ==> forall|x: u64|
                    x != 0 && #[trigger] in_table(self.table.words@, x) ==> !in_table(
                        self.overflow@,
                        x,
                    ),
            decreases MAX_WORDS - self.table.words@.len(), more as int,
        {
            self.kick_seed = seed;
            more = self.grow(heap);
            seed = self.kick_seed;
            if more {
                placed = self.table.place(Ghost(heap@), hash, w, &mut seed);
            }
        }
        self.kick_seed = seed;
        if !placed {
            let ghost before = *self;
            self.overflow.push(w);
            proof {
                added(before.overflow@, w);
                assert forall|x: u64| x != 0 implies (#[trigger] stored_words(
                    self.table.words@,
                    self.overflow@,
                ).contains(x) <==> old(self).stored().contains(x) || x == w) by {
                    assert(before.stored().contains(x) <==> old(self).stored().contains(x));
                    assert(in_table(self.overflow@, x) <==> in_table(before.overflow@, x) || x
                        == w);
                }
            }
        }
        let ghost stored = self.stored();
        assert(stored =~= old(self).stored().insert(w));
        self.len = self.len + 1;
        proof {
            let key = heap@[id].key;
            stored_one(old(self).stored(), heap@, old(self).items@, id);
            assert(self.stored() == stored);
            self.items@ = self.items@.insert(key, id);
        }
    }

    /// Remove `key`, returning its entry's id.
    pub fn remove(&mut self, heap: &Heap, hash: u64, key: &[u8]) -> (r: Option<u64>)
        requires
            heap.wf(),
            old(self).wf(heap@),
            old(self)@.contains_key(key@) ==> heap@[old(self)@[key@]].hash == hash,
        ensures
            final(self).wf(heap@),
            final(self)@ == old(self)@.remove(key@),
            r == if old(self)@.contains_key(key@) {
                Some(old(self)@[key@])
            } else {
                None
            },
    {
        if let Some(p) = self.table.find(heap, hash, key) {
            let x: u64 = self.table.words[p];
            self.clear(heap, p);
            return Some(x % ID_END);
        }
        if let Some(j) = self.find_overflow(heap, key) {
            let x: u64 = self.overflow[j];
            self.clear_overflow(heap, j);
            return Some(x % ID_END);
        }
        proof {
            self.found_nowhere(heap@, hash, key@);
            assert(self.items@.remove(key@) =~= self.items@);
        }
        None
    }

    /// Remove the key of `id` only if it still maps to exactly that entry.
    pub fn remove_if_same(&mut self, heap: &Heap, id: u64) -> (r: bool)
        requires
            heap.wf(),
            old(self).wf(heap@),
            heap@.contains_key(id),
            old(self)@.contains_key(heap@[id].key) ==> heap@[old(self)@[heap@[id].key]].hash
                == heap@[id].hash,
        ensures
            final(self).wf(heap@),
            r == (old(self)@.contains_key(heap@[id].key) && old(self)@[heap@[id].key] == id),
            final(self)@ == if r {
                old(self)@.remove(heap@[id].key)
            } else {
                old(self)@
            },
    {
        let e = heap.get(id);
        let hash: u64 = e.hash();
        if let Some(p) = self.table.find(heap, hash, e.key()) {
            let x: u64 = self.table.words[p];
            assert(in_table(self.table.words@, x));
            assert(self.stored().contains(x));
            if x % ID_END != id {
                return false;
            }
            self.clear(heap, p);
            return true;
        }
        if let Some(j) = self.find_overflow(heap, e.key()) {
            let x: u64 = self.overflow[j];
            assert(in_table(self.overflow@, x));
            assert(self.stored().contains(x));
            if x % ID_END != id {
                return false;
            }
            self.clear_overflow(heap, j);
            return true;
        }
        proof {
            self.found_nowhere(heap@, hash, e@.key);
        }
        false
    }

    /// Empties a slot of the table, unmapping the key it was for.
    fn clear(&mut self, heap: &Heap, p: usize)
        requires
            old(self).wf(heap@),
            p < old(self).table.words@.len(),
            old(self).table.words@[p as int] != 0,
        ensures
            final(self).wf(heap@),
            ({
                let id = id_of(old(self).table.words@[p as int]);
                &&& old(self)@.contains_key(heap@[id].key)
                &&& old(self)@[heap@[id].key] == id
                &&& final(self)@ == old(self)@.remove(heap@[id].key)
            }),
    {
        let ghost words = self.table.words@;
        let ghost x = words[p as int];
        proof {
            assert(in_table(words, x));
            assert(self.stored().contains(x));
            emptied(words, p as int);
            dropped_one(self.stored(), heap@, self.items@, heap@[id_of(x)].key);
        }
        self.table.words.set(p, 0);
        self.len = self.len - 1;
        proof {
            assert(self.stored() =~= old(self).stored().remove(x));
            self.items@ = self.items@.remove(heap@[id_of(x)].key);
        }
    }

    /// Takes a word out of the overflow list, unmapping the key it was for.
    fn clear_overflow(&mut self, heap: &Heap, j: usize)
        requires
            old(self).wf(heap@),
            j < old(self).overflow@.len(),
        ensures
            final(self).wf(heap@),
            ({
                let id = id_of(old(self).overflow@[j as int]);
                &&& old(self)@.contains_key(heap@[id].key)
                &&& old(self)@[heap@[id].key] == id
                &&& final(self)@ == old(self)@.remove(heap@[id].key)
            }),
    {
        let ghost over = self.overflow@;
        let ghost x = over[j as int];
        proof {
            assert(in_table(over, x));
            assert(self.stored().contains(x));
            taken_out(over, j as int);
            dropped_one(self.stored(), heap@, self.items@, heap@[id_of(x)].key);
        }
        self.overflow.remove(j);
        self.len = self.len - 1;
        proof {
            assert(self.stored() =~= old(self).stored().remove(x));
            self.items@ = self.items@.remove(heap@[id_of(x)].key);
        }
    }
}

} // verus!
