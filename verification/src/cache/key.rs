//! Key that keeps short keys inline, so comparing one during a lookup never
//! chases a pointer into a separate allocation.

use vstd::prelude::*;
use vstd::slice::{slice_subrange, slice_to_vec};
use vstd::std_specs::cmp::PartialEqSpecImpl;

verus! {

/// Longest key kept inline.
pub const INLINE: usize = 30;

/// A key: its bytes inline when they fit, else on the heap.
#[derive(Debug)]
pub enum Key {
    Inline(u8, [u8; 30]),
    Heap(Vec<u8>),
}

impl View for Key {
    type V = Seq<u8>;

    /// The bytes of the key.
    open spec fn view(&self) -> Seq<u8> {
        match self {
            Key::Inline(len, buf) => buf@.take(*len as int),
            Key::Heap(b) => b@,
        }
    }
}

impl Key {
    /// An inline key is no longer than the room it has.
    pub open spec fn wf(&self) -> bool {
        self matches Key::Inline(len, _) ==> len <= INLINE
    }

    #[inline]
    pub fn new(k: &[u8]) -> (key: Self)
        ensures
            key.wf(),
            key@ == k@,
            key is Inline <==> k@.len() <= INLINE,
            key matches Key::Inline(len, _) ==> len == k@.len(),
    {
        if k.len() <= INLINE {
            let mut buf: [u8; 30] = [0; 30];
            let mut i: usize = 0;
            while i < k.len()
                invariant
                    i <= k@.len() <= INLINE,
                    forall|j: int| 0 <= j < i ==> buf@[j] == k@[j],
                decreases k@.len() - i,
            {
                buf[i] = k[i];
                i = i + 1;
            }
            let key = Key::Inline(k.len() as u8, buf);
            assert(key@ =~= k@);
            key
        } else {
            Key::Heap(slice_to_vec(k))
        }
    }

    #[inline]
    pub fn as_slice(&self) -> (s: &[u8])
        requires
            self.wf(),
        ensures
            s@ == self@,
    {
        match self {
            Key::Inline(len, buf) => slice_subrange(buf.as_slice(), 0, *len as usize),
            Key::Heap(b) => b.as_slice(),
        }
    }

    fn in_bounds(&self) -> (r: bool)
        ensures
            r == self.wf(),
    {
        match self {
            Key::Inline(len, _) => *len as usize <= INLINE,
            Key::Heap(_) => true,
        }
    }

    /// Whether the key's bytes are `k`.
    #[inline]
    pub fn is(&self, k: &[u8]) -> (r: bool)
        requires
            self.wf(),
        ensures
            r == (self@ == k@),
    {
        same_bytes(self.as_slice(), k)
    }
}

impl Clone for Key {
    fn clone(&self) -> (key: Self)
        ensures
            key@ == self@,
            self.wf() ==> key.wf(),
    {
        match self {
            Key::Inline(len, buf) => Key::Inline(*len, *buf),
            Key::Heap(b) => Key::Heap(slice_to_vec(b.as_slice())),
        }
    }
}

/// Two keys are equal when their bytes are, wherever those are kept.
impl PartialEq for Key {
    #[inline]
    fn eq(&self, other: &Self) -> (r: bool) {
        if self.in_bounds() && other.in_bounds() {
            same_bytes(self.as_slice(), other.as_slice())
        } else {
            false
        }
    }
}

impl PartialEqSpecImpl for Key {
    open spec fn obeys_eq_spec() -> bool {
        true
    }

    open spec fn eq_spec(&self, other: &Self) -> bool {
        self.wf() && other.wf() && self@ == other@
    }
}

/// Whether two byte strings are equal.
pub fn same_bytes(a: &[u8], b: &[u8]) -> (r: bool)
    ensures
        r == (a@ == b@),
{
    if a.len() != b.len() {
        return false;
    }
    let mut i: usize = 0;
    while i < a.len()
        invariant
            i <= a@.len() == b@.len(),
            a@.take(i as int) == b@.take(i as int),
        decreases a@.len() - i,
    {
        if a[i] != b[i] {
            return false;
        }
        proof {
            assert(a@.take(i + 1) =~= a@.take(i as int).push(a@[i as int]));
            assert(b@.take(i + 1) =~= b@.take(i as int).push(b@[i as int]));
        }
        i = i + 1;
    }
    assert(a@.take(a@.len() as int) =~= a@);
    assert(b@.take(b@.len() as int) =~= b@);
    true
}

} // verus!
