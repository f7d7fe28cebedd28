//! Regular expressions, as their source text.

use vstd::prelude::*;
use vstd::utf8::encode_utf8;
use crate::error::Result;
use crate::imp::codes;
use crate::imp::io::IWriteBytes;
use crate::imp::rawoutput::string_encoding;
use crate::ser::{Encode, Serializer, plain, lemma_appended};

verus! {

#[derive(Clone, PartialEq, Eq, PartialOrd, Ord, Hash, Debug)]
pub struct REGEX(pub String);

impl REGEX {
    /// The text.
    pub closed spec fn text(&self) -> Seq<char> {
        self.0@
    }

    pub fn into_inner(self) -> (s: String)
        ensures
            s@ == self.text(),
    {
        self.0
    }

    /// A value holding a copy of `s`; this never fails.
    pub fn from_str(s: &str) -> (r: core::result::Result<Self, ()>)
        ensures
            r matches Ok(u) && u.text() == s@,
    {
        Ok(REGEX(s.to_owned()))
    }
}

/// Written as `REGEX` and the text as a string.
impl Encode for REGEX {
    open spec fn encodable(&self) -> bool {
        3 * encode_utf8(self.text()).len() <= usize::MAX
    }

    open spec fn encodes(&self, cache: Seq<u64>, bytes: Seq<u8>, after: Seq<u64>) -> bool {
        plain(cache, bytes, after, seq![codes::REGEX] + string_encoding(self.text()))
    }

    fn encode<W: IWriteBytes>(&self, ser: &mut Serializer<W>) -> (r: Result<()>) {
        let ghost start = ser.written();
        ser.write_code(codes::REGEX)?;
        ser.write_string(self.0.as_str())?;
        proof {
            assert(ser.written() =~= start + (seq![codes::REGEX] + string_encoding(self.text())));
            lemma_appended(start, seq![codes::REGEX] + string_encoding(self.text()));
        }
        Ok(())
    }
}

} // verus!
