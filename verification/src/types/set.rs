//! Sets. A `BTreeSet` or a `HashSet` on its own is written as a list of its items; wrapped
//! in `SET` or `HASHSET` it is written as a Fressian set: the `SET` code, then that list.

use vstd::prelude::*;
use std::collections::{BTreeSet, HashSet};
use std::hash::Hash;
use crate::error::Result;
use crate::imp::codes;
use crate::imp::io::IWriteBytes;
use crate::ser::{Encode, Serializer, list_header, list_encodes, seq_encodes, appends, lemma_appended, lemma_header_then};
use vstd::std_specs::btree::{spec_btree_keys_iter, key_obeys_cmp_spec, increasing_seq};
use vstd::std_specs::hash::{spec_hash_keys_iter, obeys_key_model};
use vstd::std_specs::iter::IteratorSpec;

verus! {

broadcast use {vstd::std_specs::btree::group_btree_axioms, vstd::std_specs::hash::group_hash_axioms};

/// A `BTreeSet` is written as a list of its items, in ascending order.
impl<T: Encode + Ord> Encode for BTreeSet<T> {
    open spec fn encodable(&self) -> bool {
        &&& key_obeys_cmp_spec::<T>()
        &&& forall|x: T| self@.contains(x) ==> #[trigger] x.encodable()
    }

    open spec fn encodes(&self, cache: Seq<u64>, bytes: Seq<u8>, after: Seq<u64>) -> bool {
        exists|walk: Seq<&T>|
            #![trigger list_encodes(walk.unref(), cache, bytes, after)]
            walk.unref().to_set() == self@ && walk.unref().no_duplicates() && walk.len() == self@.len()
                && increasing_seq(walk) && list_encodes(walk.unref(), cache, bytes, after)
    }

    fn encode<W: IWriteBytes>(&self, ser: &mut Serializer<W>) -> (r: Result<()>) {
        let ghost start = ser.written();
        let ghost cache0 = ser.cache();
        let ghost q = spec_btree_keys_iter(self).remaining().unref();
        ser.write_list_header(self.len())?;
        let ghost mid = ser.written();
        proof {
            lemma_appended(start, list_header(self@.len() as usize));
            assert(mid.take(mid.len() as int) =~= mid);
            assert(mid.skip(mid.len() as int) =~= Seq::<u8>::empty());
            assert(q.take(0) =~= Seq::<T>::empty());
        }
        for x in it: self.iter()
            invariant
                ser.wf(),
                q == spec_btree_keys_iter(self).remaining().unref(),
                it.seq().unref() == q,
                forall|y: T| self@.contains(y) ==> #[trigger] y.encodable(),
                appends(mid, ser.written()),
                seq_encodes(q.take(it.index()), cache0, ser.written().skip(mid.len() as int), ser.cache()),
        {
            let ghost n = it.index();
            let ghost before = ser.written();
            let ghost cache_before = ser.cache();
            assert(*x == q[n]);
            assert(q.contains(q[n]));
            assert(self@.contains(*x));
            x.encode(ser)?;
            proof {
                crate::ser::lemma_appends_step(mid, before, ser.written());
                let t = q.take(n + 1);
                let bytes = ser.written().skip(mid.len() as int);
                let k = before.len() - mid.len();
                assert(t.drop_last() =~= q.take(n));
                assert(t.last() == q[n]);
                assert(bytes.take(k) == before.skip(mid.len() as int));
                assert(bytes.skip(k) == ser.written().skip(before.len() as int));
                assert(seq_encodes(t.drop_last(), cache0, bytes.take(k), cache_before));
                assert(x.encodes(cache_before, ser.written().skip(before.len() as int), ser.cache()));
                assert(t.last().encodes(cache_before, bytes.skip(k), ser.cache()));
                assert(seq_encodes(t, cache0, bytes, ser.cache()));
            }
        }
        proof {
            assert(q.take(q.len() as int) =~= q);
            lemma_header_then(start, mid, ser.written(), list_header(self@.len() as usize));
            assert(list_encodes(q, cache0, ser.written().skip(start.len() as int), ser.cache()));
            assert(q.to_set() == self@);
            assert(q.no_duplicates());
            assert(q.len() == self@.len());
            assert(increasing_seq(spec_btree_keys_iter(self).remaining()));
        }
        Ok(())
    }
}

/// A `HashSet` is written as a list of its items, in the order in which it is walked.
/// That order is not stated: vstd gives it only as a prophetic value, which a spec
/// function of the crate cannot hold, so any order of the items is admitted.
impl<T: Encode + Eq + Hash> Encode for HashSet<T> {
    open spec fn encodable(&self) -> bool {
        &&& obeys_key_model::<T>()
        &&& forall|x: T| self@.contains(x) ==> #[trigger] x.encodable()
    }

    open spec fn encodes(&self, cache: Seq<u64>, bytes: Seq<u8>, after: Seq<u64>) -> bool {
        exists|q: Seq<T>|
            #![trigger list_encodes(q, cache, bytes, after)]
            q.to_set() == self@ && q.no_duplicates() && q.len() == self@.len() && list_encodes(q, cache, bytes, after)
    }

    fn encode<W: IWriteBytes>(&self, ser: &mut Serializer<W>) -> (r: Result<()>) {
        let ghost start = ser.written();
        let ghost cache0 = ser.cache();
        let ghost q = spec_hash_keys_iter(self).remaining().unref();
        ser.write_list_header(self.len())?;
        let ghost mid = ser.written();
        proof {
            lemma_appended(start, list_header(self@.len() as usize));
            assert(mid.take(mid.len() as int) =~= mid);
            assert(mid.skip(mid.len() as int) =~= Seq::<u8>::empty());
            assert(q.take(0) =~= Seq::<T>::empty());
        }
        for x in it: self.iter()
            invariant
                ser.wf(),
                q == spec_hash_keys_iter(self).remaining().unref(),
                it.seq().unref() == q,
                forall|y: T| self@.contains(y) ==> #[trigger] y.encodable(),
                appends(mid, ser.written()),
                seq_encodes(q.take(it.index()), cache0, ser.written().skip(mid.len() as int), ser.cache()),
        {
            let ghost n = it.index();
            let ghost before = ser.written();
            let ghost cache_before = ser.cache();
            assert(*x == q[n]);
            assert(q.contains(q[n]));
            assert(self@.contains(*x));
            x.encode(ser)?;
            proof {
                crate::ser::lemma_appends_step(mid, before, ser.written());
                let t = q.take(n + 1);
                let bytes = ser.written().skip(mid.len() as int);
                let k = before.len() - mid.len();
                assert(t.drop_last() =~= q.take(n));
                assert(t.last() == q[n]);
                assert(bytes.take(k) == before.skip(mid.len() as int));
                assert(bytes.skip(k) == ser.written().skip(before.len() as int));
                assert(seq_encodes(t.drop_last(), cache0, bytes.take(k), cache_before));
                assert(x.encodes(cache_before, ser.written().skip(before.len() as int), ser.cache()));
                assert(t.last().encodes(cache_before, bytes.skip(k), ser.cache()));
                assert(seq_encodes(t, cache0, bytes, ser.cache()));
            }
        }
        proof {
            assert(q.take(q.len() as int) =~= q);
            lemma_header_then(start, mid, ser.written(), list_header(self@.len() as usize));
            assert(list_encodes(q, cache0, ser.written().skip(start.len() as int), ser.cache()));
            assert(q.to_set() == self@);
            assert(q.no_duplicates());
            assert(q.len() == self@.len());
        }
        Ok(())
    }
}

/// A Fressian set held in a `BTreeSet`.
#[derive(Clone, Debug, PartialEq, Eq, Hash, PartialOrd, Ord)]
pub struct SET<T: Ord>(BTreeSet<T>);

impl<T: Ord> SET<T> {
    /// The set held.
    pub closed spec fn inner(&self) -> BTreeSet<T> {
        self.0
    }

    pub fn from(val: BTreeSet<T>) -> (r: Self)
        ensures
            r.inner() == val,
    {
        SET(val)
    }

    pub fn into_inner(self) -> (r: BTreeSet<T>)
        ensures
            r == self.inner(),
    {
        self.0
    }
}

/// A `SET` is written as `SET`, then its items as a list.
impl<T: Encode + Ord> Encode for SET<T> {
    open spec fn encodable(&self) -> bool {
        self.inner().encodable()
    }

    open spec fn encodes(&self, cache: Seq<u64>, bytes: Seq<u8>, after: Seq<u64>) -> bool {
        &&& bytes.len() >= 1
        &&& bytes[0] == codes::SET
        &&& self.inner().encodes(cache, bytes.skip(1), after)
    }

    fn encode<W: IWriteBytes>(&self, ser: &mut Serializer<W>) -> (r: Result<()>) {
        let ghost start = ser.written();
        ser.write_code(codes::SET)?;
        let ghost mid = ser.written();
        self.0.encode(ser)?;
        proof {
            assert(mid =~= start + seq![codes::SET]);
            lemma_header_then(start, mid, ser.written(), seq![codes::SET]);
            assert(ser.written().skip(start.len() as int)[0] == codes::SET) by {
                assert(ser.written().skip(start.len() as int).take(1)[0] == seq![codes::SET][0]);
            }
        }
        Ok(())
    }
}

/// A Fressian set held in a `HashSet`.
pub struct HASHSET<T: Ord + Hash>(HashSet<T>);

impl<T: Ord + Hash> HASHSET<T> {
    /// The set held.
    pub closed spec fn inner(&self) -> HashSet<T> {
        self.0
    }

    pub fn from(val: HashSet<T>) -> (r: Self)
        ensures
            r.inner() == val,
    {
        HASHSET(val)
    }

    pub fn into_inner(self) -> (r: HashSet<T>)
        ensures
            r == self.inner(),
    {
        self.0
    }
}

/// A `HASHSET` is written as `SET`, then its items as a list.
impl<T: Encode + Ord + Hash> Encode for HASHSET<T> {
    open spec fn encodable(&self) -> bool {
        self.inner().encodable()
    }

    open spec fn encodes(&self, cache: Seq<u64>, bytes: Seq<u8>, after: Seq<u64>) -> bool {
        &&& bytes.len() >= 1
        &&& bytes[0] == codes::SET
        &&& self.inner().encodes(cache, bytes.skip(1), after)
    }

    fn encode<W: IWriteBytes>(&self, ser: &mut Serializer<W>) -> (r: Result<()>) {
        let ghost start = ser.written();
        ser.write_code(codes::SET)?;
        let ghost mid = ser.written();
        self.0.encode(ser)?;
        proof {
            assert(mid =~= start + seq![codes::SET]);
            lemma_header_then(start, mid, ser.written(), seq![codes::SET]);
            assert(ser.written().skip(start.len() as int)[0] == codes::SET) by {
                assert(ser.written().skip(start.len() as int).take(1)[0] == seq![codes::SET][0]);
            }
        }
        Ok(())
    }
}

} // verus!
