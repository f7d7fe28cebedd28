//! Keywords: a name with an optional namespace.

use vstd::prelude::*;
use vstd::utf8::encode_utf8;
use crate::error::Result;
use crate::imp::codes;
use crate::imp::io::IWriteBytes;
use crate::ser::{Encode, Serializer, cached_string_encoding, cached_string_cache, lemma_appended};
use crate::types::sym::{cached_namespace_encoding, cached_namespace_cache, opt_view, write_cached_namespace};

verus! {

#[derive(Clone, Debug, PartialEq, Eq, Hash, PartialOrd, Ord)]
pub struct KEY(Option<String>, String);

impl KEY {
    /// The namespace, if any.
    pub closed spec fn namespace(&self) -> Option<Seq<char>> {
        opt_view(self.0)
    }

    /// The name.
    pub closed spec fn name(&self) -> Seq<char> {
        self.1@
    }

    pub fn new(namespace: Option<String>, name: String) -> (r: Self)
        ensures
            r.namespace() == opt_view(namespace),
            r.name() == name@,
    {
        KEY(namespace, name)
    }

    /// A keyword without a namespace.
    pub fn simple(name: String) -> (r: Self)
        ensures
            r.namespace() == None::<Seq<char>>,
            r.name() == name@,
    {
        KEY(None, name)
    }

    pub fn namespaced(namespace: String, name: String) -> (r: Self)
        ensures
            r.namespace() == Some(namespace@),
            r.name() == name@,
    {
        KEY(Some(namespace), name)
    }

    /// The namespace and the name.
    pub fn into_parts(self) -> (r: (Option<String>, String))
        ensures
            opt_view(r.0) == self.namespace(),
            r.1@ == self.name(),
    {
        (self.0, self.1)
    }
}

/// A keyword is viewed as its namespace and its name.
impl View for KEY {
    type V = (Option<Seq<char>>, Seq<char>);

    open spec fn view(&self) -> Self::V {
        (self.namespace(), self.name())
    }
}

impl DeepView for KEY {
    type V = (Option<Seq<char>>, Seq<char>);

    open spec fn deep_view(&self) -> Self::V {
        self@
    }
}

/// A keyword is written as `KEY`, then its namespace and its name where values are
/// cached.
impl Encode for KEY {
    open spec fn encodable(&self) -> bool {
        &&& 3 * encode_utf8(self.name()).len() <= usize::MAX
        &&& self.namespace() matches Some(s) ==> 3 * encode_utf8(s).len() <= usize::MAX
    }

    open spec fn encodes(&self, cache: Seq<u64>, bytes: Seq<u8>, after: Seq<u64>) -> bool {
        &&& bytes == seq![codes::KEY] + cached_namespace_encoding(self.namespace(), cache)
            + cached_string_encoding(self.name(), cached_namespace_cache(self.namespace(), cache))
        &&& after == cached_string_cache(self.name(), cached_namespace_cache(self.namespace(), cache))
    }

    fn encode<W: IWriteBytes>(&self, ser: &mut Serializer<W>) -> (r: Result<()>) {
        let ghost start = ser.written();
        ser.write_code(codes::KEY)?;
        write_cached_namespace(ser, &self.0)?;
        ser.write_cached_string(self.1.as_str())?;
        proof {
            let expected = seq![codes::KEY] + cached_namespace_encoding(self.namespace(), old(ser).cache())
                + cached_string_encoding(self.name(), cached_namespace_cache(self.namespace(), old(ser).cache()));
            assert(ser.written() =~= start + expected);
            lemma_appended(start, expected);
        }
        Ok(())
    }
}

} // verus!
