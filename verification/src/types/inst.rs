//! Instants, as milliseconds since the epoch.

use vstd::prelude::*;
use crate::error::Result;
use crate::imp::codes;
use crate::imp::io::IWriteBytes;
use crate::imp::rawoutput::int_encoding;
use crate::ser::{Encode, Serializer, plain, lemma_appended};

verus! {

#[derive(Clone, Copy, PartialEq, Eq, Structural, PartialOrd, Ord, Hash, Debug)]
pub struct INST(i64);

impl INST {
    /// The milliseconds since the epoch.
    pub closed spec fn millis(&self) -> i64 {
        self.0
    }

    pub fn from_millis(ms: i64) -> (r: Self)
        ensures
            r.millis() == ms,
    {
        INST(ms)
    }

    pub fn to_millis(&self) -> (ms: i64)
        ensures
            ms == self.millis(),
    {
        self.0
    }

    pub fn into_inner(self) -> (ms: i64)
        ensures
            ms == self.millis(),
    {
        self.0
    }
}

/// An instant is viewed as its milliseconds.
impl View for INST {
    type V = i64;

    open spec fn view(&self) -> i64 {
        self.millis()
    }
}

impl DeepView for INST {
    type V = i64;

    open spec fn deep_view(&self) -> Self::V {
        self@
    }
}

/// An instant is written as `INST` and its milliseconds.
impl Encode for INST {
    open spec fn encodable(&self) -> bool {
        true
    }

    open spec fn encodes(&self, cache: Seq<u64>, bytes: Seq<u8>, after: Seq<u64>) -> bool {
        plain(cache, bytes, after, seq![codes::INST] + int_encoding(self.millis()))
    }

    fn encode<W: IWriteBytes>(&self, ser: &mut Serializer<W>) -> (r: Result<()>) {
        let ghost start = ser.written();
        ser.write_code(codes::INST)?;
        ser.write_int(self.0)?;
        proof {
            assert(ser.written() =~= start + (seq![codes::INST] + int_encoding(self.millis())));
            lemma_appended(start, seq![codes::INST] + int_encoding(self.millis()));
        }
        Ok(())
    }
}

} // verus!
