//! Symbols: a name with an optional namespace.

use vstd::prelude::*;
use vstd::utf8::encode_utf8;
use crate::error::Result;
use crate::imp::codes;
use crate::imp::io::IWriteBytes;
use crate::ser::{Encode, Serializer, cached_string_encoding, cached_string_cache, lemma_appended};

verus! {

/// How a namespace is written where values are cached: `NULL` when there is none.
pub open spec fn cached_namespace_encoding(ns: Option<Seq<char>>, cache: Seq<u64>) -> Seq<u8> {
    match ns {
        Some(s) => cached_string_encoding(s, cache),
        None => seq![codes::NULL],
    }
}

/// The cache after a namespace is written where values are cached.
pub open spec fn cached_namespace_cache(ns: Option<Seq<char>>, cache: Seq<u64>) -> Seq<u64> {
    match ns {
        Some(s) => cached_string_cache(s, cache),
        None => cache,
    }
}

/// The view of an optional string.
pub open spec fn opt_view(s: Option<String>) -> Option<Seq<char>> {
    match s {
        Some(t) => Some(t@),
        None => None,
    }
}

/// Writes a namespace where values are cached.
pub(crate) fn write_cached_namespace<W: IWriteBytes>(ser: &mut Serializer<W>, ns: &Option<String>) -> (r: Result<()>)
    requires
        old(ser).wf(),
        ns matches Some(s) ==> 3 * encode_utf8(s@).len() <= usize::MAX,
    ensures
        r is Ok,
        final(ser).wf(),
        final(ser).written() == old(ser).written() + cached_namespace_encoding(opt_view(*ns), old(ser).cache()),
        final(ser).cache() == cached_namespace_cache(opt_view(*ns), old(ser).cache()),
{
    match ns {
        Some(s) => ser.write_cached_string(s.as_str()),
        None => ser.write_null(),
    }
}

#[derive(Clone, Debug, PartialEq, Eq, Hash, PartialOrd, Ord)]
pub struct SYM(Option<String>, String);

impl SYM {
    /// The namespace, if any.
    pub closed spec fn namespace(&self) -> Option<Seq<char>> {
        opt_view(self.0)
    }

    /// The name.
    pub closed spec fn name(&self) -> Seq<char> {
        self.1@
    }

    pub fn new(namespace: Option<String>, name: String) -> (r: Self)
        ensures
            r.namespace() == opt_view(namespace),
            r.name() == name@,
    {
        SYM(namespace, name)
    }

    /// A symbol without a namespace.
    pub fn simple(name: String) -> (r: Self)
        ensures
            r.namespace() == None::<Seq<char>>,
            r.name() == name@,
    {
        SYM(None, name)
    }

    pub fn namespaced(namespace: String, name: String) -> (r: Self)
        ensures
            r.namespace() == Some(namespace@),
            r.name() == name@,
    {
        SYM(Some(namespace), name)
    }

    /// The namespace and the name.
    pub fn into_parts(self) -> (r: (Option<String>, String))
        ensures
            opt_view(r.0) == self.namespace(),
            r.1@ == self.name(),
    {
        (self.0, self.1)
    }
}

/// A symbol is viewed as its namespace and its name.
impl View for SYM {
    type V = (Option<Seq<char>>, Seq<char>);

    open spec fn view(&self) -> Self::V {
        (self.namespace(), self.name())
    }
}

impl DeepView for SYM {
    type V = (Option<Seq<char>>, Seq<char>);

    open spec fn deep_view(&self) -> Self::V {
        self@
    }
}

/// A symbol is written as `SYM`, then its namespace and its name where values are
/// cached.
impl Encode for SYM {
    open spec fn encodable(&self) -> bool {
        &&& 3 * encode_utf8(self.name()).len() <= usize::MAX
        &&& self.namespace() matches Some(s) ==> 3 * encode_utf8(s).len() <= usize::MAX
    }

    open spec fn encodes(&self, cache: Seq<u64>, bytes: Seq<u8>, after: Seq<u64>) -> bool {
        &&& bytes == seq![codes::SYM] + cached_namespace_encoding(self.namespace(), cache)
            + cached_string_encoding(self.name(), cached_namespace_cache(self.namespace(), cache))
        &&& after == cached_string_cache(self.name(), cached_namespace_cache(self.namespace(), cache))
    }

    fn encode<W: IWriteBytes>(&self, ser: &mut Serializer<W>) -> (r: Result<()>) {
        let ghost start = ser.written();
        ser.write_code(codes::SYM)?;
        write_cached_namespace(ser, &self.0)?;
        ser.write_cached_string(self.1.as_str())?;
        proof {
            let expected = seq![codes::SYM] + cached_namespace_encoding(self.namespace(), old(ser).cache())
                + cached_string_encoding(self.name(), cached_namespace_cache(self.namespace(), old(ser).cache()));
            assert(ser.written() =~= start + expected);
            lemma_appended(start, expected);
        }
        Ok(())
    }
}

} // verus!
