//! Typed arrays of integers and booleans: a code, the count, then the items.

use vstd::prelude::*;
use crate::error::Result;
use crate::imp::codes;
use crate::imp::io::IWriteBytes;
use crate::imp::rawoutput::{int_encoding, boolean_encoding};
use crate::ser::{Encode, Serializer, plain, lemma_appended};

verus! {

/// The encodings of integers, one after the other.
pub open spec fn ints_encoding(items: Seq<i64>) -> Seq<u8>
    decreases items.len(),
{
    if items.len() == 0 {
        Seq::empty()
    } else {
        ints_encoding(items.drop_last()) + int_encoding(items.last())
    }
}

/// The encodings of booleans, one after the other.
pub open spec fn booleans_encoding(items: Seq<bool>) -> Seq<u8>
    decreases items.len(),
{
    if items.len() == 0 {
        Seq::empty()
    } else {
        booleans_encoding(items.drop_last()) + boolean_encoding(items.last())
    }
}

/// The items of a vector of 32-bit integers, widened.
pub open spec fn widen(items: Seq<i32>) -> Seq<i64> {
    items.map_values(|x: i32| x as i64)
}

/// An array of 32-bit integers.
#[derive(Clone, Debug, PartialEq, Eq, Hash, PartialOrd, Ord)]
pub struct IntArray(Vec<i32>);

impl IntArray {
    /// The items.
    pub closed spec fn items(&self) -> Seq<i32> {
        self.0@
    }

    pub fn from_vec(v: Vec<i32>) -> (r: Self)
        ensures
            r.items() == v@,
    {
        IntArray(v)
    }

    pub fn into_inner(self) -> (v: Vec<i32>)
        ensures
            v@ == self.items(),
    {
        self.0
    }
}

/// An array is viewed as its items.
impl View for IntArray {
    type V = Seq<i32>;

    open spec fn view(&self) -> Seq<i32> {
        self.items()
    }
}

impl DeepView for IntArray {
    type V = Seq<i32>;

    open spec fn deep_view(&self) -> Seq<i32> {
        self@
    }
}

/// Written as `INT_ARRAY`, the count, and each item.
impl Encode for IntArray {
    open spec fn encodable(&self) -> bool {
        true
    }

    open spec fn encodes(&self, cache: Seq<u64>, bytes: Seq<u8>, after: Seq<u64>) -> bool {
        plain(cache, bytes, after, seq![codes::INT_ARRAY] + int_encoding(self.items().len() as i64) + ints_encoding(widen(self.items())))
    }

    fn encode<W: IWriteBytes>(&self, ser: &mut Serializer<W>) -> (r: Result<()>) {
        let ghost start = ser.written();
        let ghost cache0 = ser.cache();
        ser.write_code(codes::INT_ARRAY)?;
        ser.write_int(self.0.len() as i64)?;
        let ghost mid = ser.written();
        let mut i: usize = 0;
        while i < self.0.len()
            invariant
                i <= self.0@.len(),
                ser.wf(),
                ser.cache() == cache0,
                ser.written() == mid + ints_encoding(widen(self.0@).take(i as int)),
            decreases self.0@.len() - i,
        {
            ser.write_int(self.0[i] as i64)?;
            proof {
                assert(widen(self.0@).take(i + 1).drop_last() =~= widen(self.0@).take(i as int));
            }
            i = i + 1;
        }
        proof {
            assert(widen(self.0@).take(i as int) =~= widen(self.0@));
            let expected = seq![codes::INT_ARRAY] + int_encoding(self.items().len() as i64) + ints_encoding(widen(self.0@));
            assert(ser.written() =~= start + expected);
            lemma_appended(start, expected);
        }
        Ok(())
    }
}

/// An array of 64-bit integers.
#[derive(Clone, Debug, PartialEq, Eq, Hash, PartialOrd, Ord)]
pub struct LongArray(Vec<i64>);

impl LongArray {
    /// The items.
    pub closed spec fn items(&self) -> Seq<i64> {
        self.0@
    }

    pub fn from_vec(v: Vec<i64>) -> (r: Self)
        ensures
            r.items() == v@,
    {
        LongArray(v)
    }

    pub fn into_inner(self) -> (v: Vec<i64>)
        ensures
            v@ == self.items(),
    {
        self.0
    }
}

/// An array is viewed as its items.
impl View for LongArray {
    type V = Seq<i64>;

    open spec fn view(&self) -> Seq<i64> {
        self.items()
    }
}

impl DeepView for LongArray {
    type V = Seq<i64>;

    open spec fn deep_view(&self) -> Seq<i64> {
        self@
    }
}

/// Written as `LONG_ARRAY`, the count, and each item.
impl Encode for LongArray {
    open spec fn encodable(&self) -> bool {
        true
    }

    open spec fn encodes(&self, cache: Seq<u64>, bytes: Seq<u8>, after: Seq<u64>) -> bool {
        plain(cache, bytes, after, seq![codes::LONG_ARRAY] + int_encoding(self.items().len() as i64) + ints_encoding(self.items()))
    }

    fn encode<W: IWriteBytes>(&self, ser: &mut Serializer<W>) -> (r: Result<()>) {
        let ghost start = ser.written();
        let ghost cache0 = ser.cache();
        ser.write_code(codes::LONG_ARRAY)?;
        ser.write_int(self.0.len() as i64)?;
        let ghost mid = ser.written();
        let mut i: usize = 0;
        while i < self.0.len()
            invariant
                i <= self.0@.len(),
                ser.wf(),
                ser.cache() == cache0,
                ser.written() == mid + ints_encoding(self.0@.take(i as int)),
            decreases self.0@.len() - i,
        {
            ser.write_int(self.0[i])?;
            proof {
                assert(self.0@.take(i + 1).drop_last() =~= self.0@.take(i as int));
            }
            i = i + 1;
        }
        proof {
            assert(self.0@.take(i as int) =~= self.0@);
            let expected = seq![codes::LONG_ARRAY] + int_encoding(self.items().len() as i64) + ints_encoding(self.0@);
            assert(ser.written() =~= start + expected);
            lemma_appended(start, expected);
        }
        Ok(())
    }
}

/// An array of booleans.
#[derive(Clone, Debug, PartialEq, Eq, Hash, PartialOrd, Ord)]
pub struct BooleanArray(Vec<bool>);

impl BooleanArray {
    /// The items.
    pub closed spec fn items(&self) -> Seq<bool> {
        self.0@
    }

    pub fn from_vec(v: Vec<bool>) -> (r: Self)
        ensures
            r.items() == v@,
    {
        BooleanArray(v)
    }

    pub fn into_inner(self) -> (v: Vec<bool>)
        ensures
            v@ == self.items(),
    {
        self.0
    }
}

/// An array is viewed as its items.
impl View for BooleanArray {
    type V = Seq<bool>;

    open spec fn view(&self) -> Seq<bool> {
        self.items()
    }
}

impl DeepView for BooleanArray {
    type V = Seq<bool>;

    open spec fn deep_view(&self) -> Seq<bool> {
        self@
    }
}

/// Written as `BOOLEAN_ARRAY`, the count, and each item.
impl Encode for BooleanArray {
    open spec fn encodable(&self) -> bool {
        true
    }

    open spec fn encodes(&self, cache: Seq<u64>, bytes: Seq<u8>, after: Seq<u64>) -> bool {
        plain(cache, bytes, after, seq![codes::BOOLEAN_ARRAY] + int_encoding(self.items().len() as i64) + booleans_encoding(self.items()))
    }

    fn encode<W: IWriteBytes>(&self, ser: &mut Serializer<W>) -> (r: Result<()>) {
        let ghost start = ser.written();
        let ghost cache0 = ser.cache();
        ser.write_code(codes::BOOLEAN_ARRAY)?;
        ser.write_int(self.0.len() as i64)?;
        let ghost mid = ser.written();
        let mut i: usize = 0;
        while i < self.0.len()
            invariant
                i <= self.0@.len(),
                ser.wf(),
                ser.cache() == cache0,
                ser.written() == mid + booleans_encoding(self.0@.take(i as int)),
            decreases self.0@.len() - i,
        {
            ser.write_boolean(self.0[i])?;
            proof {
                assert(self.0@.take(i + 1).drop_last() =~= self.0@.take(i as int));
            }
            i = i + 1;
        }
        proof {
            assert(self.0@.take(i as int) =~= self.0@);
            let expected = seq![codes::BOOLEAN_ARRAY] + int_encoding(self.items().len() as i64) + booleans_encoding(self.0@);
            assert(ser.written() =~= start + expected);
            lemma_appended(start, expected);
        }
        Ok(())
    }
}

} // verus!
