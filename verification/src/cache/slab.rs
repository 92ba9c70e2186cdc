//! Size-class bookkeeping for entry allocations: which addresses are handed
//! out, and which are free.
//!
//! Entries are allocated on one worker thread and freed on whichever thread
//! lets go of them last, so the free lists are shared, one per class, fronted
//! by a magazine per thread that refills and flushes in batches of about
//! [`BATCH_BYTES`]. Chunks are carved from [`REGION`]-sized mappings, and every
//! class size is a multiple of 64, so chunks are cache-line aligned for free.
//!
//! Sizes above [`MAX_SLAB`] are not served. Memory is never given back: a cache
//! is bounded by its byte budget, so the slab holds its high-water mark.
//!
//! Mapping memory, and reading and writing it, belong to the program around
//! the library; what is settled here is that no two chunks that are in use
//! overlap.

use vstd::prelude::*;

verus! {

/// Largest chunk the slab serves.
pub const MAX_SLAB: usize = 65536;

/// Sizes up to this are classed in 64-byte steps; beyond it, four classes per
/// doubling (at most a quarter of a chunk is padding).
pub const LINEAR_MAX: usize = 1024;

/// Classes in 64-byte steps.
pub const LINEAR: usize = 16;

/// Total classes: 16 linear plus 4 per doubling from 1 KiB to 64 KiB.
pub const CLASSES: usize = 40;

/// A magazine refill or flush moves about this many bytes of chunks, so that
/// going to the shared lists amortises over many operations for every class.
pub const BATCH_BYTES: usize = 65536;

/// Bytes carved at a time.
pub const REGION: usize = 8388608;

/// 1 KiB doubled `j` times.
pub open spec fn doubled(j: nat) -> nat
    decreases j,
{
    if j == 0 {
        1024
    } else {
        2 * doubled((j - 1) as nat)
    }
}

/// The doublings that classes need.
spec fn written_out(j: int) -> int {
    if j == 0 {
        1024
    } else if j == 1 {
        2048
    } else if j == 2 {
        4096
    } else if j == 3 {
        8192
    } else if j == 4 {
        16384
    } else {
        32768
    }
}

/// Chunk size of a class.
pub open spec fn size_of_class(class: nat) -> nat {
    if class < LINEAR {
        (class + 1) * 64
    } else {
        quarters(doubled(((class - LINEAR) / 4) as nat), (class - LINEAR) % 4)
    }
}

/// `base` and `r + 1` quarters of it.
pub open spec fn quarters(base: nat, r: int) -> nat {
    let quarter = base / 4;
    base + if r == 0 {
        quarter
    } else if r == 1 {
        2 * quarter
    } else if r == 2 {
        3 * quarter
    } else {
        4 * quarter
    }
}

/// A class size in numbers: base, and a quarter of it.
proof fn class_size_is(class: nat)
    requires
        LINEAR <= class < CLASSES,
    ensures
        ({
            let j = ((class - LINEAR) / 4) as nat;
            &&& j < 6
            &&& doubled(j) == written_out(j as int)
        }),
{
    reveal_with_fuel(doubled, 7);
}

/// The sizes of two classes in a row.
proof fn sizes_step(class: nat)
    requires
        0 < class < CLASSES,
    ensures
        size_of_class((class - 1) as nat) < size_of_class(class) <= MAX_SLAB,
        size_of_class(class) % 64 == 0,
        class >= LINEAR ==> 4 * (size_of_class(class) - size_of_class((class - 1) as nat)) <= size_of_class(
            (class - 1) as nat,
        ),
        class < LINEAR ==> size_of_class(class) - size_of_class((class - 1) as nat) == 64,
{
    if class >= LINEAR {
        class_size_is(class);
        let j = ((class - LINEAR) / 4) as nat;
        let r = (class - LINEAR) % 4;
        if class > LINEAR {
            class_size_is((class - 1) as nat);
            if r == 0 {
                assert(((class - 1 - LINEAR) / 4) == j - 1);
                assert((class - 1 - LINEAR) % 4 == 3);
            } else {
                assert(((class - 1 - LINEAR) / 4) == j);
                assert((class - 1 - LINEAR) % 4 == r - 1);
            }
        }
    }
}

/// Class sizes increase, are multiples of 64, and end with the largest chunk
/// there is.
pub proof fn class_sizes_increase(a: nat, b: nat)
    requires
        a < b < CLASSES,
    ensures
        64 <= size_of_class(a) < size_of_class(b) <= MAX_SLAB,
        size_of_class(a) % 64 == 0,
        size_of_class(b) % 64 == 0,
        size_of_class(0) == 64,
        size_of_class((CLASSES - 1) as nat) == MAX_SLAB,
    decreases b,
{
    sizes_step(b);
    class_size_is((CLASSES - 1) as nat);
    if a + 1 < b {
        class_sizes_increase(a, (b - 1) as nat);
    } else if a > 0 {
        class_sizes_increase(0, a);
    }
}

/// Whether `class` is the tightest that serves `size`.
pub open spec fn serves(class: nat, size: nat) -> bool {
    &&& class < CLASSES
    &&& size <= size_of_class(class)
    &&& class > 0 ==> size_of_class((class - 1) as nat) < size
}

/// Serving a size wastes less than a quarter of it and one 64-byte step.
pub proof fn little_is_wasted(class: nat, size: nat)
    requires
        size > 0,
        serves(class, size),
    ensures
        size_of_class(class) - size < size / 4 + 64,
{
    if class > 0 {
        sizes_step(class);
    }
}

/// Each size has one class, and a class serves its own size.
pub proof fn a_size_has_one_class(a: nat, b: nat, size: nat)
    requires
        serves(a, size),
        serves(b, size),
    ensures
        a == b,
        serves(a, size_of_class(a)),
{
    if a < b {
        class_sizes_increase(a, b);
        if a < b - 1 {
            class_sizes_increase(a, (b - 1) as nat);
        }
    } else if b < a {
        class_sizes_increase(b, a);
        if b < a - 1 {
            class_sizes_increase(b, (a - 1) as nat);
        }
    }
    if a > 0 {
        sizes_step(a);
    }
}

/// The class serving `size` bytes, or `None` above [`MAX_SLAB`].
pub fn class_of(size: usize) -> (r: Option<usize>)
    requires
        size > 0,
    ensures
        match r {
            Some(class) => size <= MAX_SLAB && serves(class as nat, size as nat),
            None => size > MAX_SLAB,
        },
{
    if size <= LINEAR_MAX {
        return Some((size - 1) / 64);
    }
    if size > MAX_SLAB {
        return None;
    }
    // For a size above a base and up to twice that, classes step by a quarter
    // of the base.
    let mut base: usize = LINEAR_MAX;
    let mut class: usize = LINEAR;
    let ghost mut j: nat = 0;
    while size > 2 * base
        invariant
            base < size <= MAX_SLAB,
            base == doubled(j),
            class == LINEAR + 4 * j,
            j < 6,
            base == written_out(j as int),
        decreases MAX_SLAB - base,
    {
        base = 2 * base;
        class = class + 4;
        proof {
            j = j + 1;
        }
    }
    let step: usize = base / 4;
    let over: usize = size - base - 1;
    let sub: usize = if over < step {
        0
    } else if over < 2 * step {
        1
    } else if over < 3 * step {
        2
    } else {
        3
    };
    proof {
        let c = (class + sub) as nat;
        assert((c - LINEAR) / 4 == j && (c - LINEAR) % 4 == sub);
        if sub == 0 && j > 0 {
            assert((c - 1 - LINEAR) / 4 == j - 1 && (c - 1 - LINEAR) % 4 == 3);
        } else if sub > 0 {
            assert((c - 1 - LINEAR) / 4 == j && (c - 1 - LINEAR) % 4 == sub - 1);
        }
    }
    Some(class + sub)
}

/// Chunk size of `class`; always a multiple of 64.
pub fn class_size(class: usize) -> (size: usize)
    requires
        class < CLASSES,
    ensures
        size == size_of_class(class as nat),
{
    if class < LINEAR {
        return (class + 1) * 64;
    }
    let g: usize = class - LINEAR;
    let mut base: usize = LINEAR_MAX;
    let mut j: usize = 0;
    while j < g / 4
        invariant
            j <= g / 4,
            g < 24,
            base == doubled(j as nat),
            base <= 32768,
            base == written_out(j as int),
        decreases g / 4 - j,
    {
        base = 2 * base;
        j = j + 1;
    }
    let r: usize = g % 4;
    if r == 0 {
        base + base / 4
    } else if r == 1 {
        base + 2 * (base / 4)
    } else if r == 2 {
        base + 3 * (base / 4)
    } else {
        base + 4 * (base / 4)
    }
}

/// Chunks a magazine moves per refill or flush.
pub open spec fn batch_of(class: nat) -> nat {
    let n = BATCH_BYTES as nat / size_of_class(class);
    if n > 32 {
        32
    } else {
        n
    }
}

fn batch(class: usize) -> (n: usize)
    requires
        class < CLASSES,
    ensures
        n == batch_of(class as nat),
        1 <= n <= 32,
        n * size_of_class(class as nat) <= BATCH_BYTES,
{
    let size: usize = class_size(class);
    proof {
        class_size_bounds(class as nat);
    }
    let n: usize = BATCH_BYTES / size;
    proof {
        assert(1 <= n && n * size <= 65536) by (nonlinear_arith)
            requires
                n == 65536usize / size,
                64 <= size <= 65536,
        ;
    }
    if n > 32 {
        assert(32 * size <= n * size) by (nonlinear_arith)
            requires
                n > 32,
        ;
        32
    } else {
        n
    }
}

proof fn class_size_bounds(class: nat)
    requires
        class < CLASSES,
    ensures
        64 <= size_of_class(class) <= MAX_SLAB,
        size_of_class(class) % 64 == 0,
{
    if class > 0 {
        class_sizes_increase(0, class);
    }
}

/// What is known of a chunk: its class, and the list it is on unless it is in
/// use.
pub struct Chunk {
    pub class: nat,
    pub at: Option<int>,
}

/// Whether two runs of bytes do not overlap.
pub open spec fn apart(a: int, n: int, b: int, m: int) -> bool {
    a + n <= b || b + m <= a
}

/// A list holds the chunks that are on it, each once.
spec fn list_is(list: Seq<usize>, chunks: Map<usize, Chunk>, i: int) -> bool {
    &&& list.no_duplicates()
    &&& forall|a: usize| #[trigger]
        list.contains(a) <==> chunks.dom().contains(a) && chunks[a].at == Some(i)
}

/// The chunks with those in `moved` put somewhere else.
spec fn relabeled(chunks: Map<usize, Chunk>, moved: Seq<usize>, to: Option<int>) -> Map<
    usize,
    Chunk,
> {
    Map::new(
        |a: usize| chunks.dom().contains(a),
        |a: usize|
            if moved.contains(a) {
                Chunk { class: chunks[a].class, at: to }
            } else {
                chunks[a]
            },
    )
}

proof fn tail_is_taken(
    list: Seq<usize>,
    chunks: Map<usize, Chunk>,
    i: int,
    keep: int,
    to: Option<int>,
)
    requires
        list_is(list, chunks, i),
        0 <= keep <= list.len(),
        to != Some(i),
    ensures
        list_is(list.take(keep), relabeled(chunks, list.skip(keep), to), i),
{
    let head = list.take(keep);
    let tail = list.skip(keep);
    let after = relabeled(chunks, tail, to);
    assert forall|a: usize| #[trigger]
        head.contains(a) <==> after.dom().contains(a) && after[a].at == Some(i) by {
        if head.contains(a) {
            let k = choose|k: int| 0 <= k < head.len() && head[k] == a;
            assert(list[k] == a);
            assert(list.contains(a));
            if tail.contains(a) {
                let m = choose|m: int| 0 <= m < tail.len() && tail[m] == a;
                assert(list[m + keep] == a);
            }
        }
        if after.dom().contains(a) && after[a].at == Some(i) {
            assert(!tail.contains(a));
            assert(list.contains(a));
            let k = choose|k: int| 0 <= k < list.len() && list[k] == a;
            if k >= keep {
                assert(tail[k - keep] == a);
            }
            assert(head[k] == a);
        }
    }
}

proof fn tail_is_put(
    list: Seq<usize>,
    chunks: Map<usize, Chunk>,
    i: int,
    keep: int,
    other: Seq<usize>,
    j: int,
)
    requires
        list_is(list, chunks, i),
        list_is(other, chunks, j),
        0 <= keep <= list.len(),
        i != j,
    ensures
        list_is(other + list.skip(keep), relabeled(chunks, list.skip(keep), Some(j)), j),
{
    let tail = list.skip(keep);
    let both = other + tail;
    let after = relabeled(chunks, tail, Some(j));
    assert forall|a: usize| #[trigger] tail.contains(a) implies list.contains(a) by {
        let k = choose|k: int| 0 <= k < tail.len() && tail[k] == a;
        assert(list[k + keep] == a);
    }
    assert forall|a: usize| #[trigger]
        both.contains(a) <==> after.dom().contains(a) && after[a].at == Some(j) by {
        if both.contains(a) {
            let k = choose|k: int| 0 <= k < both.len() && both[k] == a;
            if k < other.len() {
                assert(other[k] == a);
                assert(other.contains(a));
            } else {
                assert(tail[k - other.len()] == a);
                assert(tail.contains(a));
                assert(list.contains(a));
            }
        }
        if after.dom().contains(a) && after[a].at == Some(j) {
            if tail.contains(a) {
                let k = choose|k: int| 0 <= k < tail.len() && tail[k] == a;
                assert(both[k + other.len()] == a);
            } else {
                assert(other.contains(a));
                let k = choose|k: int| 0 <= k < other.len() && other[k] == a;
                assert(both[k] == a);
            }
        }
    }
    assert forall|x: int, y: int| 0 <= x < both.len() && 0 <= y < both.len() && x
        != y implies both[x] != both[y] by {
        if x < other.len() && y >= other.len() {
            assert(other.contains(both[x]));
            assert(tail[y - other.len()] == both[y]);
            assert(list.contains(both[y]));
        } else if y < other.len() && x >= other.len() {
            assert(other.contains(both[y]));
            assert(tail[x - other.len()] == both[x]);
            assert(list.contains(both[x]));
        } else if x >= other.len() {
            assert(list[x - other.len() + keep] == both[x]);
            assert(list[y - other.len() + keep] == both[y]);
        }
    }
}

proof fn others_stay(
    list: Seq<usize>,
    chunks: Map<usize, Chunk>,
    i: int,
    keep: int,
    to: Option<int>,
    other: Seq<usize>,
    j: int,
)
    requires
        list_is(list, chunks, i),
        list_is(other, chunks, j),
        0 <= keep <= list.len(),
        i != j,
        to != Some(j),
    ensures
        list_is(other, relabeled(chunks, list.skip(keep), to), j),
{
    let tail = list.skip(keep);
    let after = relabeled(chunks, tail, to);
    assert forall|a: usize| #[trigger]
        other.contains(a) <==> after.dom().contains(a) && after[a].at == Some(j) by {
        if tail.contains(a) {
            let k = choose|k: int| 0 <= k < tail.len() && tail[k] == a;
            assert(list[k + keep] == a);
            assert(list.contains(a));
        }
    }
}

/// Which addresses are handed out, and which are free.
pub struct Slab {
    /// The shared lists of the classes, then the magazines of the threads.
    lists: Vec<Vec<usize>>,
    /// What is left of the region being carved.
    bump: usize,
    end: usize,
    regions: Vec<usize>,
    chunks: Ghost<Map<usize, Chunk>>,
}

/// What an allocation comes to.
#[derive(Clone, Copy, Debug, PartialEq, Eq, Structural)]
pub enum Alloc {
    /// A chunk, and its class.
    Chunk(usize, usize),
    /// Nothing is free: add a region and ask again.
    Region,
    /// The slab does not serve the size.
    TooLarge,
}

/// Whether each chunk is of a class, aligned, within a region, and on a list
/// of its class if it is on one.
spec fn chunks_are(chunks: Map<usize, Chunk>, lists: int, regions: Seq<usize>) -> bool {
    forall|a: usize| #[trigger]
        chunks.dom().contains(a) ==> {
            &&& chunks[a].class < CLASSES
            &&& a % 64 == 0
            &&& within_one(a as int, size_of_class(chunks[a].class) as int, regions)
            &&& chunks[a].at matches Some(i) ==> 0 <= i < lists && i % (CLASSES as int)
                == chunks[a].class
        }
}

/// Whether the run of bytes lies in one of the regions.
spec fn within_one(a: int, n: int, regions: Seq<usize>) -> bool {
    exists|r: int|
        0 <= r < regions.len() && (#[trigger] regions[r]) <= a && a + n <= regions[r] + REGION
}

/// Whether no two chunks overlap.
spec fn chunks_apart(chunks: Map<usize, Chunk>) -> bool {
    forall|a: usize, b: usize|
        #![trigger chunks.dom().contains(a), chunks.dom().contains(b)]
        chunks.dom().contains(a) && chunks.dom().contains(b) && a != b ==> apart(
            a as int,
            size_of_class(chunks[a].class) as int,
            b as int,
            size_of_class(chunks[b].class) as int,
        )
}

/// Whether no chunk overlaps what is left to carve.
spec fn carved(chunks: Map<usize, Chunk>, bump: int, end: int) -> bool {
    forall|a: usize| #[trigger]
        chunks.dom().contains(a) ==> apart(
            a as int,
            size_of_class(chunks[a].class) as int,
            bump,
            end - bump,
        )
}

impl Slab {
    pub closed spec fn wf(&self) -> bool {
        &&& self.lists@.len() >= CLASSES
        &&& self.lists@.len() % (CLASSES as nat) == 0
        &&& self.lists_are()
        &&& chunks_are(self.chunks@, self.lists@.len() as int, self.regions@)
        &&& chunks_apart(self.chunks@)
        &&& carved(self.chunks@, self.bump as int, self.end as int)
        &&& self.bump <= self.end
        &&& self.bump % 64 == 0
        &&& self.bump < self.end ==> within_one(
            self.bump as int,
            self.end - self.bump,
            self.regions@,
        )
        &&& forall|r: int|
            0 <= r < self.regions@.len() ==> 0 < (#[trigger] self.regions@[r]) && self.regions@[r]
                + REGION <= usize::MAX
    }

    spec fn lists_are(&self) -> bool {
        forall|i: int|
            0 <= i < self.lists@.len() ==> list_is((#[trigger] self.lists@[i])@, self.chunks@, i)
    }

    /// How many threads have magazines.
    pub closed spec fn threads(&self) -> nat {
        (self.lists@.len() / (CLASSES as nat) - 1) as nat
    }

    /// The chunks in use, and their classes.
    pub closed spec fn in_use(&self) -> Map<usize, nat> {
        let chunks = self.chunks@;
        Map::new(
            |a: usize| chunks.dom().contains(a) && chunks[a].at is None,
            |a: usize| chunks[a].class,
        )
    }

    /// Where the regions that chunks are carved from start.
    pub closed spec fn mapped(&self) -> Seq<usize> {
        self.regions@
    }

    /// Whether a chunk of the class can be had without another region.
    pub closed spec fn ready(&self, thread: nat, class: nat) -> bool {
        ||| self.lists@[magazine(thread, class)]@.len() > 0
        ||| self.lists@[class as int]@.len() > 0
        ||| self.end - self.bump >= batch_of(class) * size_of_class(class)
    }

    /// Nothing mapped yet, with magazines for `threads` threads.
    pub fn new(threads: usize) -> (s: Self)
        requires
            (threads + 1) * CLASSES <= usize::MAX,
        ensures
            s.wf(),
            s.threads() == threads,
            s.in_use() == Map::<usize, nat>::empty(),
            s.mapped() == Seq::<usize>::empty(),
    {
        let n: usize = (threads + 1) * CLASSES;
        let mut lists: Vec<Vec<usize>> = Vec::new();
        let ghost chunks = Map::<usize, Chunk>::empty();
        let mut i: usize = 0;
        while i < n
            invariant
                i <= n,
                lists@.len() == i,
                chunks == Map::<usize, Chunk>::empty(),
                forall|j: int| 0 <= j < i ==> list_is((#[trigger] lists@[j])@, chunks, j),
            decreases n - i,
        {
            lists.push(Vec::new());
            assert(list_is(lists@[i as int]@, chunks, i as int));
            i += 1;
        }
        let s = Slab { lists, bump: 0, end: 0, regions: Vec::new(), chunks: Ghost(chunks) };
        proof {
            assert(s.lists@.len() == (threads + 1) * 40);
            assert(s.in_use() =~= Map::<usize, nat>::empty());
        }
        s
    }

    /// Moves what is on list `from` behind the first `keep` onto list `to`.
    fn shift(&mut self, from: usize, keep: usize, to: usize)
        requires
            old(self).wf(),
            from < old(self).lists@.len(),
            to < old(self).lists@.len(),
            from != to,
            from % CLASSES == to % CLASSES,
            keep <= old(self).lists@[from as int]@.len(),
        ensures
            final(self).wf(),
            final(self).in_use() == old(self).in_use(),
            final(self).mapped() == old(self).mapped(),
            final(self).bump == old(self).bump,
            final(self).end == old(self).end,
            final(self).lists@.len() == old(self).lists@.len(),
            final(self).lists@[from as int]@ == old(self).lists@[from as int]@.take(keep as int),
            final(self).lists@[to as int]@ == old(self).lists@[to as int]@ + old(
                self).lists@[from as int]@.skip(keep as int),
            forall|i: int|
                0 <= i < old(self).lists@.len() && i != from && i != to ==> #[trigger] final(
                    self).lists@[i] == old(self).lists@[i],
    {
        let ghost lists = self.lists@;
        let ghost chunks = self.chunks@;
        let ghost tail = lists[from as int]@.skip(keep as int);
        let mut moved = self.lists[from].split_off(keep);
        self.lists[to].append(&mut moved);
        proof {
            let after = relabeled(chunks, tail, Some(to as int));
            self.chunks@ = after;
            assert forall|i: int| 0 <= i < self.lists@.len() implies list_is(
                (#[trigger] self.lists@[i])@,
                after,
                i,
            ) by {
                assert(list_is(lists[from as int]@, chunks, from as int));
                assert(list_is(lists[i]@, chunks, i));
                if i == from {
                    tail_is_taken(
                        lists[i]@,
                        chunks,
                        i,
                        keep as int,
                        Some(to as int),
                    );
                } else if i == to {
                    tail_is_put(
                        lists[from as int]@,
                        chunks,
                        from as int,
                        keep as int,
                        lists[i]@,
                        i,
                    );
                } else {
                    others_stay(
                        lists[from as int]@,
                        chunks,
                        from as int,
                        keep as int,
                        Some(to as int),
                        lists[i]@,
                        i,
                    );
                }
            }
            assert forall|a: usize| tail.contains(a) implies chunks.dom().contains(a)
                && chunks[a].at == Some(from as int) by {
                let k = choose|k: int| 0 <= k < tail.len() && tail[k] == a;
                assert(lists[from as int]@[k + keep] == a);
                assert(list_is(lists[from as int]@, chunks, from as int));
                assert(lists[from as int]@.contains(a));
            }
            assert(chunks.dom() =~= after.dom());
            same_classes(chunks, after);
            assert(self.in_use() =~= old(self).in_use());
        }
    }
}

impl Slab {
    /// Takes the last chunk off list `from` into use.
    fn take(&mut self, from: usize) -> (a: usize)
        requires
            old(self).wf(),
            from < old(self).lists@.len(),
            old(self).lists@[from as int]@.len() > 0,
        ensures
            final(self).wf(),
            final(self).lists@.len() == old(self).lists@.len(),
            final(self).mapped() == old(self).mapped(),
            a % 64 == 0,
            a > 0,
            !old(self).in_use().dom().contains(a),
            final(self).in_use() == old(self).in_use().insert(
                a,
                (from % CLASSES) as nat,
            ),
            forall|b: usize| #[trigger]
                old(self).in_use().dom().contains(b) ==> apart(
                    a as int,
                    size_of_class((from % CLASSES) as nat) as int,
                    b as int,
                    size_of_class(old(self).in_use()[b]) as int,
                ),
    {
        let ghost lists = self.lists@;
        let ghost chunks = self.chunks@;
        let ghost list = lists[from as int]@;
        let ghost keep = list.len() - 1;
        let ghost tail = list.skip(keep);
        let n: usize = self.lists[from].len();
        let a: usize = self.lists[from][n - 1];
        self.lists[from].truncate(n - 1);
        proof {
            assert(list_is(list, chunks, from as int));
            assert(list.contains(a));
            let after = relabeled(chunks, tail, None);
            self.chunks@ = after;
            assert forall|b: usize| tail.contains(b) <==> b == a by {
                if b == a {
                    assert(tail[0] == a);
                }
            }
            assert forall|i: int| 0 <= i < self.lists@.len() implies list_is(
                (#[trigger] self.lists@[i])@,
                after,
                i,
            ) by {
                assert(list_is(lists[i]@, chunks, i));
                if i == from {
                    tail_is_taken(list, chunks, i, keep, None);
                } else {
                    others_stay(list, chunks, from as int, keep, None, lists[i]@, i);
                }
            }
            assert(chunks.dom() =~= after.dom());
            same_classes(chunks, after);
            assert(self.in_use() =~= old(self).in_use().insert(a, (from % CLASSES) as nat));
            assert(within_one(a as int, size_of_class(chunks[a].class) as int, self.regions@));
        }
        a
    }

    /// Carves one chunk of `class` onto list `to`.
    fn carve(&mut self, class: usize, to: usize)
        requires
            old(self).wf(),
            class < CLASSES,
            to < old(self).lists@.len(),
            to % CLASSES == class,
            old(self).end - old(self).bump >= size_of_class(class as nat),
        ensures
            final(self).wf(),
            final(self).in_use() == old(self).in_use(),
            final(self).mapped() == old(self).mapped(),
            final(self).bump == old(self).bump + size_of_class(class as nat),
            final(self).end == old(self).end,
            final(self).lists@.len() == old(self).lists@.len(),
            final(self).lists@[to as int]@.len() == old(self).lists@[to as int]@.len() + 1,
    {
        let ghost lists = self.lists@;
        let ghost chunks = self.chunks@;
        let a: usize = self.bump;
        let size: usize = class_size(class);
        proof {
            class_size_bounds(class as nat);
            if chunks.dom().contains(a) {
                class_size_bounds(chunks[a].class);
                assert(apart(
                    a as int,
                    size_of_class(chunks[a].class) as int,
                    a as int,
                    self.end - self.bump,
                ));
            }
        }
        self.lists[to].push(a);
        self.bump = a + size;
        proof {
            let chunk = Chunk { class: class as nat, at: Some(to as int) };
            let after = chunks.insert(a, chunk);
            self.chunks@ = after;
            assert forall|i: int| 0 <= i < self.lists@.len() implies list_is(
                (#[trigger] self.lists@[i])@,
                after,
                i,
            ) by {
                let before = lists[i]@;
                assert(list_is(before, chunks, i));
                assert(!before.contains(a));
                if i == to {
                    let now = self.lists@[i]@;
                    assert(now == before.push(a));
                    assert forall|b: usize| #[trigger]
                        now.contains(b) <==> after.dom().contains(b) && after[b].at == Some(i) by {
                        if before.contains(b) {
                            let k = choose|k: int| 0 <= k < before.len() && before[k] == b;
                            assert(now[k] == b);
                        }
                        if b == a {
                            assert(now[before.len() as int] == b);
                        }
                        if now.contains(b) && b != a {
                            let k = choose|k: int| 0 <= k < now.len() && now[k] == b;
                            assert(before[k] == b);
                        }
                    }
                }
            }
            assert(self.in_use() =~= old(self).in_use());
            assert forall|b: usize| #[trigger] after.dom().contains(b) implies apart(
                b as int,
                size_of_class(after[b].class) as int,
                self.bump as int,
                self.end - self.bump,
            ) by {
                if b != a {
                    assert(chunks.dom().contains(b));
                }
            }
            let r = choose|r: int|
                0 <= r < self.regions@.len() && (#[trigger] self.regions@[r]) <= a && a + (self.end
                    - a) <= self.regions@[r] + REGION;
            assert(self.regions@[r] <= a && a + size <= self.regions@[r] + REGION);
            assert(within_one(a as int, size as int, self.regions@));
            assert forall|b: usize, c: usize|
                #![trigger after.dom().contains(b), after.dom().contains(c)]
                after.dom().contains(b) && after.dom().contains(c) && b != c implies apart(
                b as int,
                size_of_class(after[b].class) as int,
                c as int,
                size_of_class(after[c].class) as int,
            ) by {
                if b != a {
                    assert(chunks.dom().contains(b));
                }
                if c != a {
                    assert(chunks.dom().contains(c));
                }
            }
        }
    }

    /// A 64-byte-aligned chunk of at least `size` bytes and the class that
    /// [`free`](Self::free) takes back, for a caller on `thread`. A magazine
    /// that is empty is refilled first, from the shared list if that has any,
    /// else carved fresh from the region.
    pub fn allocate(&mut self, thread: usize, size: usize) -> (r: Alloc)
        requires
            old(self).wf(),
            thread < old(self).threads(),
            size > 0,
        ensures
            final(self).wf(),
            final(self).threads() == old(self).threads(),
            final(self).mapped() == old(self).mapped(),
            match r {
                Alloc::Chunk(a, class) => {
                    &&& serves(class as nat, size as nat)
                    &&& old(self).ready(thread as nat, class as nat)
                    &&& a % 64 == 0
                    &&& a > 0
                    &&& !old(self).in_use().dom().contains(a)
                    &&& final(self).in_use() == old(self).in_use().insert(a, class as nat)
                    &&& forall|b: usize| #[trigger]
                        old(self).in_use().dom().contains(b) ==> apart(
                            a as int,
                            size_of_class(class as nat) as int,
                            b as int,
                            size_of_class(old(self).in_use()[b]) as int,
                        )
                },
                Alloc::Region => {
                    &&& final(self).in_use() == old(self).in_use()
                    &&& exists|class: nat|
                        serves(class, size as nat) && !#[trigger] old(self).ready(
                            thread as nat,
                            class,
                        ) && !final(self).ready(thread as nat, class)
                },
                Alloc::TooLarge => size > MAX_SLAB && final(self).in_use() == old(self).in_use(),
            },
    {
        let class: usize = match class_of(size) {
            Some(class) => class,
            None => return Alloc::TooLarge,
        };
        let m: usize = self.magazine_index(thread, class);
        let n: usize = batch(class);
        if self.lists[m].len() == 0 {
            let shared: usize = self.lists[class].len();
            if shared > 0 {
                let keep: usize = if shared < n {
                    0
                } else {
                    shared - n
                };
                self.shift(class, keep, m);
            } else {
                let need: usize = n * class_size(class);
                if self.end - self.bump < need {
                    assert(!self.ready(thread as nat, class as nat));
                    return Alloc::Region;
                }
                let mut i: usize = 0;
                while i < n
                    invariant
                        i <= n,
                        n >= 1,
                        self.wf(),
                        self.in_use() == old(self).in_use(),
                        self.mapped() == old(self).mapped(),
                        self.lists@.len() == old(self).lists@.len(),
                        class < CLASSES,
                        m < self.lists@.len(),
                        m % CLASSES == class,
                        self.lists@[m as int]@.len() == i,
                        self.end - self.bump >= (n - i) * size_of_class(class as nat),
                    decreases n - i,
                {
                    let ghost size = size_of_class(class as nat) as int;
                    assert((n - i) * size == (n - i - 1) * size + size) by (nonlinear_arith);
                    assert((n - i - 1) * size >= 0) by (nonlinear_arith)
                        requires
                            n - i - 1 >= 0,
                            size >= 0,
                    ;
                    self.carve(class, m);
                    i += 1;
                }
            }
        }
        let a: usize = self.take(m);
        Alloc::Chunk(a, class)
    }

    /// The list that is the magazine of `thread` for `class`.
    fn magazine_index(&self, thread: usize, class: usize) -> (m: usize)
        requires
            self.wf(),
            thread < self.threads(),
            class < CLASSES,
        ensures
            m == magazine(thread as nat, class as nat),
            CLASSES <= m < self.lists@.len(),
            m % CLASSES == class,
    {
        // The lists are in memory, so an index into them fits.
        let _n: usize = self.lists.len();
        proof {
            let n = self.lists@.len() as int;
            assert(n == (n / 40) * 40);
            assert(40 * (thread + 1) + class < n);
        }
        CLASSES * (thread + 1) + class
    }

    /// Return a chunk to its class, for a caller on `thread`. A magazine that
    /// has grown to more than two batches keeps one and gives the rest back to
    /// the shared list.
    pub fn free(&mut self, thread: usize, a: usize, class: usize)
        requires
            old(self).wf(),
            thread < old(self).threads(),
            class < CLASSES,
            old(self).in_use().dom().contains(a),
            old(self).in_use()[a] == class,
        ensures
            final(self).wf(),
            final(self).threads() == old(self).threads(),
            final(self).mapped() == old(self).mapped(),
            final(self).in_use() == old(self).in_use().remove(a),
            final(self).ready(thread as nat, class as nat),
    {
        let m: usize = self.magazine_index(thread, class);
        let ghost lists = self.lists@;
        let ghost chunks = self.chunks@;
        self.lists[m].push(a);
        proof {
            let after = chunks.insert(a, Chunk { class: class as nat, at: Some(m as int) });
            self.chunks@ = after;
            assert forall|i: int| 0 <= i < self.lists@.len() implies list_is(
                (#[trigger] self.lists@[i])@,
                after,
                i,
            ) by {
                let before = lists[i]@;
                assert(list_is(before, chunks, i));
                assert(!before.contains(a));
                if i == m {
                    let now = self.lists@[i]@;
                    assert(now == before.push(a));
                    assert forall|b: usize| #[trigger]
                        now.contains(b) <==> after.dom().contains(b) && after[b].at == Some(i) by {
                        if before.contains(b) {
                            let k = choose|k: int| 0 <= k < before.len() && before[k] == b;
                            assert(now[k] == b);
                        }
                        if b == a {
                            assert(now[before.len() as int] == b);
                        }
                        if now.contains(b) && b != a {
                            let k = choose|k: int| 0 <= k < now.len() && now[k] == b;
                            assert(before[k] == b);
                        }
                    }
                }
            }
            assert(chunks.dom() =~= after.dom());
            same_classes(chunks, after);
            assert(self.in_use() =~= old(self).in_use().remove(a));
        }
        let n: usize = batch(class);
        if self.lists[m].len() > 2 * n {
            self.shift(m, n, class);
        }
    }

    /// Give everything in the magazines of a thread that ends back to the
    /// shared lists.
    pub fn exit(&mut self, thread: usize)
        requires
            old(self).wf(),
            thread < old(self).threads(),
        ensures
            final(self).wf(),
            final(self).threads() == old(self).threads(),
            final(self).mapped() == old(self).mapped(),
            final(self).in_use() == old(self).in_use(),
            forall|class: nat|
                class < CLASSES ==> #[trigger] final(self).kept(thread as nat, class) == 0,
    {
        let mut class: usize = 0;
        while class < CLASSES
            invariant
                class <= CLASSES,
                self.wf(),
                self.threads() == old(self).threads(),
                thread < self.threads(),
                self.mapped() == old(self).mapped(),
                self.in_use() == old(self).in_use(),
                forall|c: nat| c < class ==> #[trigger] self.kept(thread as nat, c) == 0,
            decreases CLASSES - class,
        {
            let ghost before = *self;
            let m: usize = self.magazine_index(thread, class);
            if self.lists[m].len() > 0 {
                self.shift(m, 0, class);
            }
            proof {
                assert forall|c: nat| c < class + 1 implies #[trigger] self.kept(
                    thread as nat,
                    c,
                ) == 0 by {
                    let i = magazine(thread as nat, c);
                    if c < class {
                        assert(before.kept(thread as nat, c) == 0);
                        assert(CLASSES <= i < m);
                        assert(self.lists@[i] == before.lists@[i]);
                    }
                }
            }
            class += 1;
        }
    }

    /// Chunks in the magazine of a thread for a class.
    pub closed spec fn kept(&self, thread: nat, class: nat) -> nat {
        self.lists@[magazine(thread, class)]@.len()
    }

    /// A region to carve chunks from, [`REGION`] bytes at `base`. What is left
    /// of the one before is wasted: under 1 % of a region.
    pub fn add_region(&mut self, base: usize)
        requires
            old(self).wf(),
            base > 0,
            base % 64 == 0,
            base + REGION <= usize::MAX,
            forall|r: int|
                0 <= r < old(self).mapped().len() ==> apart(
                    base as int,
                    REGION as int,
                    (#[trigger] old(self).mapped()[r]) as int,
                    REGION as int,
                ),
        ensures
            final(self).wf(),
            final(self).threads() == old(self).threads(),
            final(self).mapped() == old(self).mapped().push(base),
            final(self).in_use() == old(self).in_use(),
            forall|thread: nat, class: nat|
                class < CLASSES ==> #[trigger] final(self).ready(thread, class),
    {
        let ghost regions = self.regions@;
        let ghost chunks = self.chunks@;
        self.regions.push(base);
        self.bump = base;
        self.end = base + REGION;
        proof {
            assert forall|a: usize| #[trigger] chunks.dom().contains(a) implies within_one(
                a as int,
                size_of_class(chunks[a].class) as int,
                self.regions@,
            ) && apart(
                a as int,
                size_of_class(chunks[a].class) as int,
                base as int,
                REGION as int,
            ) by {
                let n = size_of_class(chunks[a].class) as int;
                let r = choose|r: int|
                    0 <= r < regions.len() && (#[trigger] regions[r]) <= a && a + n <= regions[r]
                        + REGION;
                assert(self.regions@[r] == regions[r]);
                assert(old(self).mapped()[r] == regions[r]);
            }
            assert(self.regions@[regions.len() as int] == base);
            assert(within_one(base as int, REGION as int, self.regions@));
            assert(self.in_use() =~= old(self).in_use());
            assert forall|thread: nat, class: nat| class < CLASSES implies #[trigger] self.ready(
                thread,
                class,
            ) by {
                batch_fits(class);
            }
        }
    }
}

proof fn batch_fits(class: nat)
    requires
        class < CLASSES,
    ensures
        batch_of(class) * size_of_class(class) <= BATCH_BYTES,
{
    class_size_bounds(class);
    let size = size_of_class(class) as int;
    let n = batch_of(class) as int;
    assert(n * size <= 65536) by (nonlinear_arith)
        requires
            n <= 65536int / size,
            64 <= size <= 65536,
    ;
}

// Laws

/// Chunks that are in use at the same time never overlap, whatever was
/// allocated and freed before.
pub proof fn chunks_in_use_never_overlap(s: Slab, a: usize, b: usize)
    requires
        s.wf(),
        s.in_use().dom().contains(a),
        s.in_use().dom().contains(b),
        a != b,
    ensures
        apart(
            a as int,
            size_of_class(s.in_use()[a]) as int,
            b as int,
            size_of_class(s.in_use()[b]) as int,
        ),
        a % 64 == 0,
        s.in_use()[a] < CLASSES,
{
    assert(s.chunks@.dom().contains(a) && s.chunks@.dom().contains(b));
}

/// Where the magazine of a thread for a class stands among the lists.
pub open spec fn magazine(thread: nat, class: nat) -> int {
    CLASSES * (thread + 1) + class
}

/// Overlap depends on where chunks are and of which class, not on their lists.
proof fn same_classes(chunks: Map<usize, Chunk>, after: Map<usize, Chunk>)
    requires
        chunks.dom() == after.dom(),
        forall|a: usize| #[trigger]
            chunks.dom().contains(a) ==> chunks[a].class == after[a].class,
    ensures
        chunks_apart(chunks) ==> chunks_apart(after),
        forall|bump: int, end: int| carved(chunks, bump, end) ==> #[trigger] carved(after, bump, end),
{
}

/// No byte belongs to two chunks that are in use.
pub proof fn no_byte_is_in_two_chunks(s: Slab, a: usize, b: usize, x: int)
    requires
        s.wf(),
        s.in_use().dom().contains(a),
        s.in_use().dom().contains(b),
        a <= x < a + size_of_class(s.in_use()[a]),
        b <= x < b + size_of_class(s.in_use()[b]),
    ensures
        a == b,
{
    if a != b {
        chunks_in_use_never_overlap(s, a, b);
    }
}

/// The classes in numbers: sixteen steps of 64 bytes up to 1 KiB, then steps of
/// 256 bytes up to 2 KiB, and from there each class is twice the size of the one
/// four before it, up to 64 KiB.
pub proof fn class_sizes_in_numbers(class: nat)
    requires
        class < 40,
    ensures
        class < 16 ==> size_of_class(class) == 64 * (class + 1),
        16 <= class < 20 ==> size_of_class(class) == 1024 + 256 * (class - 15),
        class >= 20 ==> size_of_class(class) == 2 * size_of_class((class - 4) as nat),
        size_of_class(39) == 65536,
{
    class_size_is(39);
    if class >= 16 {
        class_size_is(class);
    }
    if class >= 20 {
        class_size_is((class - 4) as nat);
        let j = ((class - 4 - LINEAR) / 4) as nat;
        assert((class - LINEAR) / 4 == j + 1 && (class - LINEAR) % 4 == (class - 4 - LINEAR) % 4);
        assert(j == 0 || j == 1 || j == 2 || j == 3 || j == 4);
    }
}

/// A magazine moves as many chunks at once as 64 KiB hold, and 32 at the most.
pub proof fn a_batch_is_what_64_kib_hold(class: nat)
    requires
        class < 40,
    ensures
        1 <= batch_of(class) <= 32,
        batch_of(class) * size_of_class(class) <= 65536,
        batch_of(class) < 32 ==> (batch_of(class) + 1) * size_of_class(class) > 65536,
{
    class_size_bounds(class);
    batch_fits(class);
    let size = size_of_class(class) as int;
    let q = 65536int / size;
    assert(q >= 1 && (q + 1) * size > 65536) by (nonlinear_arith)
        requires
            q == 65536int / size,
            64 <= size <= 65536,
    ;
}

} // verus!
