use oxicache::cache::slab::{class_of, class_size, Alloc, Slab, CLASSES, MAX_SLAB, REGION};

/// Every size maps to a class whose chunk fits it, wastes at most a quarter
/// (plus the 64-byte step), and is cache-line granular.
#[test]
fn classes_cover_all_sizes() {
    let mut prev = 0;
    for c in 0..CLASSES {
        let s = class_size(c);
        assert!(s > prev, "sizes must increase");
        assert_eq!(s % 64, 0);
        assert_eq!(class_of(s), Some(c), "a class serves its own size");
        prev = s;
    }
    assert_eq!(class_size(0), 64);
    assert_eq!(class_size(CLASSES - 1), MAX_SLAB);
    for size in 1..=MAX_SLAB {
        let c = class_of(size).expect("in range");
        let s = class_size(c);
        assert!(s >= size);
        assert!(s - size < size / 4 + 64, "waste at {size}: {}", s - size);
        if c > 0 {
            assert!(class_size(c - 1) < size, "not the tightest class");
        }
    }
    assert_eq!(class_of(MAX_SLAB + 1), None);
}

/// A slab over made-up addresses, which maps a region whenever one is asked
/// for.
struct Mapped {
    slab: Slab,
    next: usize,
}

impl Mapped {
    fn new(threads: usize) -> Self {
        Mapped {
            slab: Slab::new(threads),
            next: 1 << 30,
        }
    }

    fn chunk(&mut self, thread: usize, size: usize) -> Option<(usize, usize)> {
        match self.slab.allocate(thread, size) {
            Alloc::Chunk(a, class) => Some((a, class)),
            Alloc::TooLarge => None,
            Alloc::Region => {
                self.slab.add_region(self.next);
                self.next += REGION;
                match self.slab.allocate(thread, size) {
                    Alloc::Chunk(a, class) => Some((a, class)),
                    other => panic!("{other:?}"),
                }
            }
        }
    }
}

#[test]
fn chunks_are_aligned_distinct_and_writable() {
    let mut m = Mapped::new(1);
    let mut held = Vec::new();
    for size in [1, 64, 65, 240, 1024, 1088, 4160, MAX_SLAB] {
        for _ in 0..10 {
            let (p, c) = m.chunk(0, size).expect("slab size");
            assert_eq!(p % 64, 0);
            assert!(class_size(c) >= size);
            held.push((p, c));
        }
    }
    let mut addrs: Vec<(usize, usize)> = held.iter().map(|&(p, c)| (p, class_size(c))).collect();
    addrs.sort_unstable();
    for pair in addrs.windows(2) {
        assert!(
            pair[0].0 + pair[0].1 <= pair[1].0,
            "live chunks never overlap"
        );
    }
    assert_eq!(addrs.len(), held.len());
    for (p, c) in held {
        m.slab.free(0, p, c);
    }
}

/// Chunks freed on another thread are reusable everywhere afterwards; a thread
/// that ends drains its magazines back to the shared lists.
#[test]
fn chunks_freed_elsewhere_are_used_again() {
    let mut m = Mapped::new(2);
    for round in 0..1000 {
        let size = 64 + (round % 32) * 40;
        let (p, c) = m.chunk(0, size).unwrap();
        m.slab.free(1, p, c);
    }
    let regions = m.next;
    m.slab.exit(1);
    for round in 0..1000 {
        let size = 64 + (round % 32) * 40;
        let (p, c) = m.chunk(0, size).unwrap();
        m.slab.free(0, p, c);
    }
    assert_eq!(m.next, regions, "no more memory was needed");
}

#[test]
fn sizes_over_the_largest_chunk_are_not_served() {
    let mut m = Mapped::new(1);
    assert_eq!(m.chunk(0, MAX_SLAB + 1), None);
    assert!(matches!(m.slab.allocate(0, 1), Alloc::Region));
    let (p, c) = m.chunk(0, MAX_SLAB).unwrap();
    assert_eq!(c, CLASSES - 1);
    m.slab.free(0, p, c);
    assert_eq!(
        m.chunk(0, MAX_SLAB),
        Some((p, c)),
        "the last chunk freed is the next one used"
    );
}
