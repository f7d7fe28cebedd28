//! UUIDs, as their bytes.

use vstd::prelude::*;
use crate::error::Result;
use crate::imp::codes;
use crate::imp::io::IWriteBytes;
use crate::imp::rawoutput::bytes_encoding;
use crate::ser::{Encode, Serializer, plain, lemma_appended};

verus! {

#[derive(Clone, PartialEq, Eq, PartialOrd, Ord, Hash, Debug)]
pub struct UUID(Vec<u8>);

impl UUID {
    /// The bytes of the UUID.
    pub closed spec fn bytes(&self) -> Seq<u8> {
        self.0@
    }

    pub fn into_inner(self) -> (v: Vec<u8>)
        ensures
            v@ == self.bytes(),
    {
        self.0
    }

    /// A UUID made of a copy of `bytes`; this never fails.
    pub fn from_bytes(bytes: &[u8]) -> (r: core::result::Result<Self, ()>)
        ensures
            r matches Ok(u) && u.bytes() == bytes@,
    {
        let mut v: Vec<u8> = Vec::with_capacity(bytes.len());
        v.extend_from_slice(bytes);
        assert(v@ =~= bytes@);
        Ok(UUID(v))
    }
}

/// A UUID is written as `UUID` and its bytes as a byte array.
impl Encode for UUID {
    open spec fn encodable(&self) -> bool {
        true
    }

    open spec fn encodes(&self, cache: Seq<u64>, bytes: Seq<u8>, after: Seq<u64>) -> bool {
        plain(cache, bytes, after, seq![codes::UUID] + bytes_encoding(self.bytes()))
    }

    fn encode<W: IWriteBytes>(&self, ser: &mut Serializer<W>) -> (r: Result<()>) {
        let ghost start = ser.written();
        ser.write_code(codes::UUID)?;
        ser.write_bytes(self.0.as_slice(), 0, self.0.len())?;
        assert(self.0@.subrange(0, self.0@.len() as int) =~= self.0@);
        proof {
            assert(ser.written() =~= start + (seq![codes::UUID] + bytes_encoding(self.bytes())));
            lemma_appended(start, seq![codes::UUID] + bytes_encoding(self.bytes()));
        }
        Ok(())
    }
}

} // verus!
