//! The writer's priority cache: remembers the hashes of values already written, so
//! that a repeated value can be written as a reference to its first occurrence.

use vstd::prelude::*;
use std::collections::hash_map::DefaultHasher;
use std::hash::{Hash, Hasher};

verus! {

/// The hash that a fresh `DefaultHasher` gives a string.
pub uninterp spec fn default_hash_of(s: Seq<char>) -> u64;

/// Hashes `s` with a fresh `std::collections::hash_map::DefaultHasher` (`new`, then
/// `Hash::hash`, then `finish`). `DefaultHasher::new` is unseeded, so the hash is a
/// function of the string alone; what value it takes is not stated.
#[verifier::external_body]
pub(crate) fn default_hash(s: &str) -> (h: u64)
    ensures
        h == default_hash_of(s@),
{
    let mut hasher = DefaultHasher::new();
    s.hash(&mut hasher);
    hasher.finish()
}

pub struct Cache {
    hashes: Vec<u64>,
}

/// `h` first occurs in `hashes` at index `i`.
pub open spec fn first_occurrence(hashes: Seq<u64>, h: u64, i: int) -> bool {
    &&& 0 <= i < hashes.len()
    &&& hashes[i] == h
    &&& forall|j: int| 0 <= j < i ==> hashes[j] != h
}

impl Cache {
    /// The hashes interned so far, in order.
    pub closed spec fn hashes(&self) -> Seq<u64> {
        self.hashes@
    }

    pub fn new() -> (c: Self)
        ensures
            c.hashes() == Seq::<u64>::empty(),
    {
        Cache { hashes: Vec::new() }
    }

    /// The index at which `h` first occurs, if it occurs.
    fn test_hash(&self, h: u64) -> (r: Option<usize>)
        ensures
            r matches Some(i) ==> first_occurrence(self.hashes(), h, i as int),
            r is None ==> !self.hashes().contains(h),
    {
        let mut i: usize = 0;
        while i < self.hashes.len()
            invariant
                i <= self.hashes@.len(),
                forall|j: int| 0 <= j < i ==> self.hashes@[j] != h,
            decreases self.hashes@.len() - i,
        {
            if self.hashes[i] == h {
                return Some(i);
            }
            i = i + 1;
        }
        None
    }

    /// Forgets every interned value.
    pub fn reset(&mut self)
        ensures
            final(self).hashes() == Seq::<u64>::empty(),
    {
        self.hashes.clear();
    }

    /// Returns the index of `h` if it was interned before; otherwise interns it and
    /// returns `None`.
    pub fn intern_hash(&mut self, h: u64) -> (r: Option<usize>)
        ensures
            old(self).hashes().contains(h) ==> {
                &&& r matches Some(i) && first_occurrence(old(self).hashes(), h, i as int)
                &&& final(self).hashes() == old(self).hashes()
            },
            !old(self).hashes().contains(h) ==> {
                &&& r is None
                &&& final(self).hashes() == old(self).hashes().push(h)
            },
    {
        let test = self.test_hash(h);
        match test {
            Some(i) => Some(i),
            None => {
                self.hashes.push(h);
                None
            },
        }
    }

    /// `intern_hash` of the hash of `s`.
    pub fn intern(&mut self, s: &str) -> (r: Option<usize>)
        ensures
            old(self).hashes().contains(default_hash_of(s@)) ==> {
                &&& r matches Some(i) && first_occurrence(
                    old(self).hashes(),
                    default_hash_of(s@),
                    i as int,
                )
                &&& final(self).hashes() == old(self).hashes()
            },
            !old(self).hashes().contains(default_hash_of(s@)) ==> {
                &&& r is None
                &&& final(self).hashes() == old(self).hashes().push(default_hash_of(s@))
            },
    {
        let h = default_hash(s);
        self.intern_hash(h)
    }
}

} // verus!
