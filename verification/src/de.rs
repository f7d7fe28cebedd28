//! The Fressian reader: a byte reader, the priority cache of strings that the writer
//! marked with `PUT_PRIORITY_CACHE`, and decoders for the library's values.

use vstd::prelude::*;
use crate::error::{Error, ErrorCode, Result};
use crate::imp::codes;
use crate::imp::io::ByteReader;
use crate::imp::rawinput::{RawInput, lemma_byte_as_code, string_at, lemma_string_read_functional, chars_of,
    int_read_ok, int_read_len, int_read_value, count_at, after_count, bytes_at, lemma_bytes_read_functional,
    be_uint};
use crate::types::sym::SYM;
use crate::types::key::KEY;
use crate::types::inst::INST;
use crate::types::typed_arrays::{IntArray, LongArray, BooleanArray};

verus! {

pub struct Deserializer<'de> {
    rdr: ByteReader<'de>,
    raw_in: RawInput,
    priority_cache: Vec<String>,
    cache_next: bool,
}

/// The views of the cached strings.
pub open spec fn cache_view(cache: Seq<String>) -> Seq<Seq<char>> {
    cache.map_values(|s: String| s@)
}

/// The error raised at the current read position.
fn error<T>(de: &Deserializer, reason: ErrorCode) -> (r: Result<T>)
    ensures
        r matches Err(e) && e.err.code == reason && e.err.position == de.position(),
{
    let position: usize = de.rdr.get_bytes_read();
    Err(Error::syntax(reason, position))
}

impl<'de> Deserializer<'de> {
    /// The bytes being read.
    pub closed spec fn input(&self) -> Seq<u8> {
        self.rdr.input()
    }

    /// How many bytes have been consumed.
    pub closed spec fn position(&self) -> nat {
        self.rdr.position()
    }

    /// The strings of the priority cache, in the order in which they were cached.
    pub closed spec fn cache(&self) -> Seq<Seq<char>> {
        cache_view(self.priority_cache@)
    }

    /// Whether a `PUT_PRIORITY_CACHE` waits for the next string.
    pub closed spec fn pending(&self) -> bool {
        self.cache_next
    }

    pub closed spec fn wf(&self) -> bool {
        self.rdr.wf()
    }

    pub fn from_bytes(bytes: &'de [u8]) -> (d: Self)
        ensures
            d.wf(),
            d.input() == bytes@,
            d.position() == 0,
            d.cache() == Seq::<Seq<char>>::empty(),
    {
        let d = Deserializer { rdr: ByteReader::new(bytes), raw_in: RawInput, priority_cache: Vec::new(), cache_next: false };
        assert(d.cache() =~= Seq::<Seq<char>>::empty());
        d
    }

    pub fn from_vec(v: &'de Vec<u8>) -> (d: Self)
        ensures
            d.wf(),
            d.input() == v@,
            d.position() == 0,
            d.cache() == Seq::<Seq<char>>::empty(),
    {
        Deserializer::from_bytes(v.as_slice())
    }

    /// Reads the next byte as a code.
    pub fn read_next_code(&mut self) -> (r: Result<i8>)
        requires
            old(self).wf(),
        ensures
            final(self).wf(),
            final(self).pending() == old(self).pending(),
            final(self).input() == old(self).input(),
            final(self).cache() == old(self).cache(),
            old(self).position() < old(self).input().len() ==> (r matches Ok(c) && c == old(
                self,
            ).input()[old(self).position() as int] as i8 && final(self).position() == old(
                self,
            ).position() + 1),
            old(self).position() >= old(self).input().len() ==> (r matches Err(e)
                && e.err.code is Eof && final(self).position() == old(self).position()),
    {
        self.raw_in.read_next_code(&mut self.rdr)
    }

    /// The next byte as a code, not consumed.
    pub fn peek_next_code(&mut self) -> (r: Result<i8>)
        requires
            old(self).wf(),
        ensures
            *final(self) == *old(self),
            old(self).position() < old(self).input().len() ==> (r matches Ok(c) && c == old(
                self,
            ).input()[old(self).position() as int] as i8),
            old(self).position() >= old(self).input().len() ==> (r matches Err(e)
                && e.err.code is Eof),
    {
        self.raw_in.peek_next_code(&mut self.rdr)
    }

    fn add_priority_cache(&mut self, value: String)
        ensures
            final(self).input() == old(self).input(),
            final(self).position() == old(self).position(),
            final(self).wf() == old(self).wf(),
            final(self).cache() == old(self).cache().push(value@),
    {
        self.priority_cache.push(value);
        assert(self.cache() =~= old(self).cache().push(value@));
    }

    fn get_priority_cache(&self, index: usize) -> (r: Option<&String>)
        ensures
            index < self.cache().len() ==> (r matches Some(s) && s@ == self.cache()[index as int]),
            index >= self.cache().len() ==> r is None,
    {
        if index < self.priority_cache.len() {
            Some(&self.priority_cache[index])
        } else {
            None
        }
    }
}

/// The string at `pos` of `input` where values are cached, where it ends, and the cache
/// afterwards: `PUT_PRIORITY_CACHE` before a string adds it to the cache; a packed
/// cache code refers to a cached string; a string code is a string, not cached.
pub open spec fn cached_string_at(input: Seq<u8>, pos: nat, cache: Seq<Seq<char>>) -> Option<
    (Seq<char>, nat, Seq<Seq<char>>),
> {
    if pos >= input.len() {
        None
    } else {
        let code = input[pos as int];
        if code == codes::PUT_PRIORITY_CACHE {
            match string_at(input, pos + 1) {
                Some(found) => Some((found.0, found.1, cache.push(found.0))),
                None => None,
            }
        } else if codes::PRIORITY_CACHE_PACKED_START <= code < codes::PRIORITY_CACHE_PACKED_END {
            let index = code - codes::PRIORITY_CACHE_PACKED_START;
            if index < cache.len() {
                Some((cache[index], pos + 1, cache))
            } else {
                None
            }
        } else {
            match string_at(input, pos) {
                Some(found) => Some((found.0, found.1, cache)),
                None => None,
            }
        }
    }
}

/// The namespace at `pos` of `input`: `NULL` for none, else a cached string.
pub open spec fn namespace_at(input: Seq<u8>, pos: nat, cache: Seq<Seq<char>>) -> Option<
    (Option<Seq<char>>, nat, Seq<Seq<char>>),
> {
    if pos < input.len() && input[pos as int] == codes::NULL {
        Some((None, pos + 1, cache))
    } else {
        match cached_string_at(input, pos, cache) {
            Some(found) => Some((Some(found.0), found.1, found.2)),
            None => None,
        }
    }
}

/// A symbol or a keyword at `pos` of `input`: the `SYM` or `KEY` code, a namespace
/// and a name.
pub open spec fn named_at(input: Seq<u8>, pos: nat, cache: Seq<Seq<char>>) -> Option<
    ((Option<Seq<char>>, Seq<char>), nat, Seq<Seq<char>>),
> {
    if pos < input.len() && (input[pos as int] == codes::SYM || input[pos as int] == codes::KEY) {
        match namespace_at(input, pos + 1, cache) {
            Some(ns) => match cached_string_at(input, ns.1, ns.2) {
                Some(name) => Some(((ns.0, name.0), name.1, name.2)),
                None => None,
            },
            None => None,
        }
    } else {
        None
    }
}

/// An integer at `pos` of `input`: an integer code and its bytes, or `INST` and an
/// integer.
pub open spec fn long_at(input: Seq<u8>, pos: nat) -> Option<(i64, nat)> {
    if pos >= input.len() {
        None
    } else if int_read_ok(input.skip(pos as int)) {
        Some((int_read_value(input.skip(pos as int)), pos + int_read_len(input.skip(pos as int))))
    } else if input[pos as int] == codes::INST && int_read_ok(input.skip(pos + 1int)) {
        Some(
            (
                int_read_value(input.skip(pos + 1int)),
                pos + 1 + int_read_len(input.skip(pos + 1int)),
            ),
        )
    } else {
        None
    }
}

/// A boolean at `pos` of `input`.
pub open spec fn boolean_at(input: Seq<u8>, pos: nat) -> Option<(bool, nat)> {
    if pos < input.len() && input[pos as int] == codes::TRUE {
        Some((true, pos + 1))
    } else if pos < input.len() && input[pos as int] == codes::FALSE {
        Some((false, pos + 1))
    } else {
        None
    }
}

impl<'de> Deserializer<'de> {
    /// Reads a string where values are cached.
    pub fn read_cached_string(&mut self) -> (r: Result<String>)
        requires
            old(self).wf(),
        ensures
            final(self).wf(),
            final(self).input() == old(self).input(),
            r is Ok <==> cached_string_at(old(self).input(), old(self).position(), old(self).cache()) is Some,
            r matches Ok(s) ==> cached_string_at(old(self).input(), old(self).position(), old(self).cache())
                == Some((s@, final(self).position(), final(self).cache())),
    {
        let ghost input = self.input();
        let ghost pos = self.position();
        let code = self.peek_next_code()? as u8;
        proof {
            let x = input[pos as int];
            lemma_byte_as_code(x);
        }
        if code == codes::PUT_PRIORITY_CACHE {
            let _ = self.read_next_code()?;
            let ghost before = self.rdr;
            let r = self.raw_in.read_string(&mut self.rdr);
            proof {
                lemma_string_read_functional(before, self.rdr, chars_of(r));
            }
            let s = r?;
            self.add_priority_cache(s.clone());
            Ok(s)
        } else if codes::PRIORITY_CACHE_PACKED_START <= code && code < codes::PRIORITY_CACHE_PACKED_END {
            let _ = self.read_next_code()?;
            let index = (code - codes::PRIORITY_CACHE_PACKED_START) as usize;
            match self.get_priority_cache(index) {
                Some(s) => Ok(s.clone()),
                None => Err(Error::msg("missing cached object".to_owned())),
            }
        } else {
            let ghost before = self.rdr;
            let r = self.raw_in.read_string(&mut self.rdr);
            proof {
                lemma_string_read_functional(before, self.rdr, chars_of(r));
            }
            r
        }
    }
}

/// The elements of a typed array of `n` integers at `pos` of `input`, and where they end.
pub open spec fn longs_at(input: Seq<u8>, pos: nat, n: nat) -> Option<(Seq<i64>, nat)>
    decreases n,
{
    if n == 0 {
        Some((Seq::empty(), pos))
    } else {
        match longs_at(input, pos, (n - 1) as nat) {
            Some(front) => match long_at(input, front.1) {
                Some(x) => Some((front.0.push(x.0), x.1)),
                None => None,
            },
            None => None,
        }
    }
}

/// The elements of a typed array of `n` 32-bit integers at `pos` of `input`: each an
/// integer within the range of `i32`.
pub open spec fn ints_at(input: Seq<u8>, pos: nat, n: nat) -> Option<(Seq<i32>, nat)>
    decreases n,
{
    if n == 0 {
        Some((Seq::empty(), pos))
    } else {
        match ints_at(input, pos, (n - 1) as nat) {
            Some(front) => match long_at(input, front.1) {
                Some(x) => if i32::MIN <= x.0 <= i32::MAX {
                    Some((front.0.push(x.0 as i32), x.1))
                } else {
                    None
                },
                None => None,
            },
            None => None,
        }
    }
}

/// The elements of a typed array of `n` booleans at `pos` of `input`.
pub open spec fn booleans_at(input: Seq<u8>, pos: nat, n: nat) -> Option<(Seq<bool>, nat)>
    decreases n,
{
    if n == 0 {
        Some((Seq::empty(), pos))
    } else {
        match booleans_at(input, pos, (n - 1) as nat) {
            Some(front) => match boolean_at(input, front.1) {
                Some(x) => Some((front.0.push(x.0), x.1)),
                None => None,
            },
            None => None,
        }
    }
}

/// The code of a typed array.
pub open spec fn is_array_code(code: u8) -> bool {
    code == codes::INT_ARRAY || code == codes::LONG_ARRAY || code == codes::FLOAT_ARRAY || code
        == codes::DOUBLE_ARRAY || code == codes::BOOLEAN_ARRAY
}

/// Where the elements of the typed array at `pos` of `input` start, and how many it
/// announces: its code, then its count.
pub open spec fn array_header_at(input: Seq<u8>, pos: nat) -> Option<(nat, nat)> {
    if pos < input.len() && is_array_code(input[pos as int]) && int_read_ok(input.skip(pos + 1int)) {
        Some((after_count(input, pos + 1), count_at(input, pos + 1)))
    } else {
        None
    }
}

impl<'de> Deserializer<'de> {
    /// Reads a namespace: `NULL` for none, else a string where values are cached.
    fn read_namespace(&mut self) -> (r: Result<Option<String>>)
        requires
            old(self).wf(),
        ensures
            final(self).wf(),
            final(self).input() == old(self).input(),
            r is Ok <==> namespace_at(old(self).input(), old(self).position(), old(self).cache()) is Some,
            r matches Ok(ns) ==> namespace_at(old(self).input(), old(self).position(), old(self).cache())
                == Some((crate::types::sym::opt_view(ns), final(self).position(), final(self).cache())),
    {
        let ghost pos = self.position();
        let code = self.peek_next_code()? as u8;
        proof {
            let x = self.input()[pos as int];
            lemma_byte_as_code(x);
        }
        if code == codes::NULL {
            let _ = self.read_next_code()?;
            Ok(None)
        } else {
            let s = self.read_cached_string()?;
            Ok(Some(s))
        }
    }

    /// Reads a symbol or a keyword: its code, its namespace, its name.
    pub fn read_named(&mut self) -> (r: Result<(Option<String>, String)>)
        requires
            old(self).wf(),
        ensures
            final(self).wf(),
            final(self).input() == old(self).input(),
            r is Ok <==> named_at(old(self).input(), old(self).position(), old(self).cache()) is Some,
            r matches Ok(v) ==> named_at(old(self).input(), old(self).position(), old(self).cache())
                == Some(((crate::types::sym::opt_view(v.0), v.1@), final(self).position(), final(self).cache())),
    {
        let ghost pos = self.position();
        let code = self.read_next_code()? as u8;
        proof {
            let x = self.input()[pos as int];
            lemma_byte_as_code(x);
        }
        if code == codes::SYM || code == codes::KEY {
            let ns = self.read_namespace()?;
            let name = self.read_cached_string()?;
            Ok((ns, name))
        } else {
            error(self, ErrorCode::UnmatchedCode(code))
        }
    }

    /// Reads an integer: an integer code and its bytes, or `INST` and an integer.
    pub fn read_long(&mut self) -> (r: Result<i64>)
        requires
            old(self).wf(),
        ensures
            final(self).wf(),
            final(self).input() == old(self).input(),
            final(self).cache() == old(self).cache(),
            r is Ok <==> long_at(old(self).input(), old(self).position()) is Some,
            r matches Ok(v) ==> long_at(old(self).input(), old(self).position()) == Some((v, final(self).position())),
    {
        let ghost input = self.input();
        let ghost pos = self.position();
        let code = self.peek_next_code()? as u8;
        proof {
            let x = input[pos as int];
            lemma_byte_as_code(x);
            assert(input.skip(pos as int)[0] == x);
        }
        if code == codes::INST {
            let _ = self.read_next_code()?;
            proof {
                assert(self.rdr.remaining() =~= input.skip(pos + 1int));
                assert(!int_read_ok(input.skip(pos as int))) by {
                    assert(crate::imp::rawinput::int_tail_len(codes::INST) is None);
                }
            }
            self.raw_in.read_int(&mut self.rdr)
        } else {
            proof {
                assert(self.rdr.remaining() =~= input.skip(pos as int));
            }
            let r = self.raw_in.read_int(&mut self.rdr);
            r
        }
    }

    /// Reads a boolean.
    pub fn read_bool(&mut self) -> (r: Result<bool>)
        requires
            old(self).wf(),
        ensures
            final(self).wf(),
            final(self).input() == old(self).input(),
            final(self).cache() == old(self).cache(),
            r is Ok <==> boolean_at(old(self).input(), old(self).position()) is Some,
            r matches Ok(v) ==> boolean_at(old(self).input(), old(self).position()) == Some((v, final(self).position())),
    {
        let ghost input = self.input();
        let ghost pos = self.position();
        proof {
            if pos < input.len() {
                assert(self.rdr.remaining()[0] == input[pos as int]);
            }
        }
        self.raw_in.read_boolean(&mut self.rdr)
    }
}


proof fn lemma_longs_at_none_grows(input: Seq<u8>, pos: nat, m: nat, k: nat)
    requires
        m <= k,
        longs_at(input, pos, m) is None,
    ensures
        longs_at(input, pos, k) is None,
    decreases k - m,
{
    if m < k {
        lemma_longs_at_none_grows(input, pos, m, (k - 1) as nat);
    }
}

proof fn lemma_ints_at_none_grows(input: Seq<u8>, pos: nat, m: nat, k: nat)
    requires
        m <= k,
        ints_at(input, pos, m) is None,
    ensures
        ints_at(input, pos, k) is None,
    decreases k - m,
{
    if m < k {
        lemma_ints_at_none_grows(input, pos, m, (k - 1) as nat);
    }
}

proof fn lemma_booleans_at_none_grows(input: Seq<u8>, pos: nat, m: nat, k: nat)
    requires
        m <= k,
        booleans_at(input, pos, m) is None,
    ensures
        booleans_at(input, pos, k) is None,
    decreases k - m,
{
    if m < k {
        lemma_booleans_at_none_grows(input, pos, m, (k - 1) as nat);
    }
}

impl<'de> Deserializer<'de> {
    /// Reads a typed array of 32-bit integers: an array code, the count, and the items.
    pub fn read_int_array(&mut self) -> (r: Result<Vec<i32>>)
        requires
            old(self).wf(),
        ensures
            final(self).wf(),
            final(self).input() == old(self).input(),
            final(self).cache() == old(self).cache(),
            r is Ok <==> (array_header_at(old(self).input(), old(self).position()) matches Some(h)
                && ints_at(old(self).input(), h.0, h.1) is Some),
            r matches Ok(v) ==> (array_header_at(old(self).input(), old(self).position()) matches Some(h)
                && ints_at(old(self).input(), h.0, h.1) == Some((v@, final(self).position()))),
    {
        let ghost input = self.input();
        let ghost pos = self.position();
        let code = self.read_next_code()? as u8;
        proof {
            let x = input[pos as int];
            lemma_byte_as_code(x);
        }
        if !(code == codes::INT_ARRAY || code == codes::LONG_ARRAY || code == codes::FLOAT_ARRAY
            || code == codes::DOUBLE_ARRAY || code == codes::BOOLEAN_ARRAY) {
            return error(self, ErrorCode::UnmatchedCode(code));
        }
        proof {
            assert(self.rdr.remaining() =~= input.skip(pos + 1int));
        }
        let n = self.raw_in.read_length(&mut self.rdr)?;
        let ghost p = self.position();
        let mut out: Vec<i32> = Vec::new();
        let mut i: usize = 0;
        while i < n
            invariant
                self.wf(),
                self.input() == input,
                self.cache() == old(self).cache(),
                input == old(self).input(),
                pos == old(self).position(),
                i <= n,
                array_header_at(input, pos) == Some((p, n as nat)),
                ints_at(input, p, i as nat) == Some((out@, self.position())),
            decreases n - i,
        {
            let x = match self.read_long() {
                Ok(x) => x,
                Err(e) => {
                    proof { lemma_ints_at_none_grows(input, p, (i + 1) as nat, n as nat); }
                    return Err(e);
                },
            };
            if x < i32::MIN as i64 || x > i32::MAX as i64 {
                proof { lemma_ints_at_none_grows(input, p, (i + 1) as nat, n as nat); }
                return error(self, ErrorCode::UnsupportedTAType);
            }
            out.push(x as i32);
            i = i + 1;
        }
        Ok(out)
    }

    /// Reads a typed array of 64-bit integers: an array code, the count, and the items.
    pub fn read_long_array(&mut self) -> (r: Result<Vec<i64>>)
        requires
            old(self).wf(),
        ensures
            final(self).wf(),
            final(self).input() == old(self).input(),
            final(self).cache() == old(self).cache(),
            r is Ok <==> (array_header_at(old(self).input(), old(self).position()) matches Some(h)
                && longs_at(old(self).input(), h.0, h.1) is Some),
            r matches Ok(v) ==> (array_header_at(old(self).input(), old(self).position()) matches Some(h)
                && longs_at(old(self).input(), h.0, h.1) == Some((v@, final(self).position()))),
    {
        let ghost input = self.input();
        let ghost pos = self.position();
        let code = self.read_next_code()? as u8;
        proof {
            let x = input[pos as int];
            lemma_byte_as_code(x);
        }
        if !(code == codes::INT_ARRAY || code == codes::LONG_ARRAY || code == codes::FLOAT_ARRAY
            || code == codes::DOUBLE_ARRAY || code == codes::BOOLEAN_ARRAY) {
            return error(self, ErrorCode::UnmatchedCode(code));
        }
        proof {
            assert(self.rdr.remaining() =~= input.skip(pos + 1int));
        }
        let n = self.raw_in.read_length(&mut self.rdr)?;
        let ghost p = self.position();
        let mut out: Vec<i64> = Vec::new();
        let mut i: usize = 0;
        while i < n
            invariant
                self.wf(),
                self.input() == input,
                self.cache() == old(self).cache(),
                input == old(self).input(),
                pos == old(self).position(),
                i <= n,
                array_header_at(input, pos) == Some((p, n as nat)),
                longs_at(input, p, i as nat) == Some((out@, self.position())),
            decreases n - i,
        {
            let x = match self.read_long() {
                Ok(x) => x,
                Err(e) => {
                    proof { lemma_longs_at_none_grows(input, p, (i + 1) as nat, n as nat); }
                    return Err(e);
                },
            };
            out.push(x);
            i = i + 1;
        }
        Ok(out)
    }

    /// Reads a typed array of booleans: an array code, the count, and the items.
    pub fn read_boolean_array(&mut self) -> (r: Result<Vec<bool>>)
        requires
            old(self).wf(),
        ensures
            final(self).wf(),
            final(self).input() == old(self).input(),
            final(self).cache() == old(self).cache(),
            r is Ok <==> (array_header_at(old(self).input(), old(self).position()) matches Some(h)
                && booleans_at(old(self).input(), h.0, h.1) is Some),
            r matches Ok(v) ==> (array_header_at(old(self).input(), old(self).position()) matches Some(h)
                && booleans_at(old(self).input(), h.0, h.1) == Some((v@, final(self).position()))),
    {
        let ghost input = self.input();
        let ghost pos = self.position();
        let code = self.read_next_code()? as u8;
        proof {
            let x = input[pos as int];
            lemma_byte_as_code(x);
        }
        if !(code == codes::INT_ARRAY || code == codes::LONG_ARRAY || code == codes::FLOAT_ARRAY
            || code == codes::DOUBLE_ARRAY || code == codes::BOOLEAN_ARRAY) {
            return error(self, ErrorCode::UnmatchedCode(code));
        }
        proof {
            assert(self.rdr.remaining() =~= input.skip(pos + 1int));
        }
        let n = self.raw_in.read_length(&mut self.rdr)?;
        let ghost p = self.position();
        let mut out: Vec<bool> = Vec::new();
        let mut i: usize = 0;
        while i < n
            invariant
                self.wf(),
                self.input() == input,
                self.cache() == old(self).cache(),
                input == old(self).input(),
                pos == old(self).position(),
                i <= n,
                array_header_at(input, pos) == Some((p, n as nat)),
                booleans_at(input, p, i as nat) == Some((out@, self.position())),
            decreases n - i,
        {
            let x = match self.read_bool() {
                Ok(x) => x,
                Err(e) => {
                    proof { lemma_booleans_at_none_grows(input, p, (i + 1) as nat, n as nat); }
                    return Err(e);
                },
            };
            out.push(x);
            i = i + 1;
        }
        Ok(out)
    }
}


/// A value that the Fressian reader can read. `decoding(input, pos, cache)` is the
/// value (as its view) found at `pos` of `input` when the priority cache holds `cache`,
/// where it ends, and the cache afterwards; `None` where no such value is there.
pub trait Decode: Sized + DeepView {
    spec fn decoding(input: Seq<u8>, pos: nat, cache: Seq<Seq<char>>) -> Option<(Self::V, nat, Seq<Seq<char>>)>;

    fn decode<'de>(de: &mut Deserializer<'de>) -> (r: Result<Self>)
        requires
            old(de).wf(),
        ensures
            final(de).wf(),
            final(de).input() == old(de).input(),
            r is Ok <==> Self::decoding(old(de).input(), old(de).position(), old(de).cache()) is Some,
            r matches Ok(v) ==> Self::decoding(old(de).input(), old(de).position(), old(de).cache())
                == Some((v.deep_view(), final(de).position(), final(de).cache())),
    ;

    /// A value found at `pos` ends after `pos` and within the input.
    proof fn lemma_decoding_within(input: Seq<u8>, pos: nat, cache: Seq<Seq<char>>)
        ensures
            Self::decoding(input, pos, cache) matches Some(f) ==> pos < f.1 <= input.len(),
    ;
}

/// An integer found at `pos` ends after `pos` and within the input.
pub proof fn lemma_long_within(input: Seq<u8>, pos: nat)
    ensures
        long_at(input, pos) matches Some(f) ==> pos < f.1 <= input.len(),
{
    if pos < input.len() {
        assert(input.skip(pos as int).len() == input.len() - pos);
        assert(input.skip(pos + 1int).len() == input.len() - pos - 1);
    }
}

/// A string found at `pos` ends after `pos` and within the input.
pub proof fn lemma_string_within(input: Seq<u8>, pos: nat)
    ensures
        string_at(input, pos) matches Some(f) ==> pos < f.1 <= input.len(),
{
    if pos + 1 < input.len() {
        assert(input.skip(pos + 1int).len() == input.len() - pos - 1);
    }
}

/// A string found at `pos` where values are cached ends after `pos` and within the input.
pub proof fn lemma_cached_string_within(input: Seq<u8>, pos: nat, cache: Seq<Seq<char>>)
    ensures
        cached_string_at(input, pos, cache) matches Some(f) ==> pos < f.1 <= input.len(),
{
    lemma_string_within(input, pos);
    lemma_string_within(input, pos + 1);
}

/// A value at `pos` that leaves the cache as it was.
pub open spec fn uncached<V>(found: Option<(V, nat)>, cache: Seq<Seq<char>>) -> Option<(V, nat, Seq<Seq<char>>)> {
    match found {
        Some(f) => Some((f.0, f.1, cache)),
        None => None,
    }
}

/// A symbol or keyword found at `pos` ends after `pos` and within the input.
pub proof fn lemma_named_within(input: Seq<u8>, pos: nat, cache: Seq<Seq<char>>)
    ensures
        named_at(input, pos, cache) matches Some(f) ==> pos < f.1 <= input.len(),
{
    lemma_cached_string_within(input, pos + 1, cache);
    if let Some(ns) = namespace_at(input, pos + 1, cache) {
        lemma_cached_string_within(input, ns.1, ns.2);
    }
}

/// The items of a typed array start after its code and within the input.
pub proof fn lemma_array_header_within(input: Seq<u8>, pos: nat)
    ensures
        array_header_at(input, pos) matches Some(h) ==> pos < h.0 <= input.len(),
{
    if pos + 1 < input.len() {
        assert(input.skip(pos + 1int).len() == input.len() - pos - 1);
    }
}

/// Integers read one after the other from `pos` end at or after `pos`, within the input.
pub proof fn lemma_longs_within(input: Seq<u8>, pos: nat, n: nat)
    requires
        pos <= input.len(),
    ensures
        longs_at(input, pos, n) matches Some(f) ==> pos <= f.1 <= input.len(),
    decreases n,
{
    if n > 0 {
        lemma_longs_within(input, pos, (n - 1) as nat);
        if let Some(front) = longs_at(input, pos, (n - 1) as nat) {
            lemma_long_within(input, front.1);
        }
    }
}

/// 32-bit integers read one after the other from `pos` end at or after `pos`, within
/// the input.
pub proof fn lemma_ints_within(input: Seq<u8>, pos: nat, n: nat)
    requires
        pos <= input.len(),
    ensures
        ints_at(input, pos, n) matches Some(f) ==> pos <= f.1 <= input.len(),
    decreases n,
{
    if n > 0 {
        lemma_ints_within(input, pos, (n - 1) as nat);
        if let Some(front) = ints_at(input, pos, (n - 1) as nat) {
            lemma_long_within(input, front.1);
        }
    }
}

/// Booleans read one after the other from `pos` end at or after `pos`, within the input.
pub proof fn lemma_booleans_within(input: Seq<u8>, pos: nat, n: nat)
    requires
        pos <= input.len(),
    ensures
        booleans_at(input, pos, n) matches Some(f) ==> pos <= f.1 <= input.len(),
    decreases n,
{
    if n > 0 {
        lemma_booleans_within(input, pos, (n - 1) as nat);
    }
}

impl Decode for i64 {
    open spec fn decoding(input: Seq<u8>, pos: nat, cache: Seq<Seq<char>>) -> Option<(i64, nat, Seq<Seq<char>>)> {
        uncached(long_at(input, pos), cache)
    }

    proof fn lemma_decoding_within(input: Seq<u8>, pos: nat, cache: Seq<Seq<char>>) {
        lemma_long_within(input, pos);
    }

    fn decode<'de>(de: &mut Deserializer<'de>) -> (r: Result<Self>) {
        de.read_long()
    }
}

impl Decode for bool {
    open spec fn decoding(input: Seq<u8>, pos: nat, cache: Seq<Seq<char>>) -> Option<(bool, nat, Seq<Seq<char>>)> {
        uncached(boolean_at(input, pos), cache)
    }

    proof fn lemma_decoding_within(input: Seq<u8>, pos: nat, cache: Seq<Seq<char>>) {
    }

    fn decode<'de>(de: &mut Deserializer<'de>) -> (r: Result<Self>) {
        de.read_bool()
    }
}

impl Decode for String {
    open spec fn decoding(input: Seq<u8>, pos: nat, cache: Seq<Seq<char>>) -> Option<(Seq<char>, nat, Seq<Seq<char>>)> {
        cached_string_at(input, pos, cache)
    }

    proof fn lemma_decoding_within(input: Seq<u8>, pos: nat, cache: Seq<Seq<char>>) {
        lemma_cached_string_within(input, pos, cache);
    }

    fn decode<'de>(de: &mut Deserializer<'de>) -> (r: Result<Self>) {
        de.read_cached_string()
    }
}

impl Decode for SYM {
    open spec fn decoding(input: Seq<u8>, pos: nat, cache: Seq<Seq<char>>) -> Option<((Option<Seq<char>>, Seq<char>), nat, Seq<Seq<char>>)> {
        named_at(input, pos, cache)
    }

    proof fn lemma_decoding_within(input: Seq<u8>, pos: nat, cache: Seq<Seq<char>>) {
        lemma_named_within(input, pos, cache);
    }

    fn decode<'de>(de: &mut Deserializer<'de>) -> (r: Result<Self>) {
        let (ns, name) = de.read_named()?;
        Ok(SYM::new(ns, name))
    }
}

impl Decode for KEY {
    open spec fn decoding(input: Seq<u8>, pos: nat, cache: Seq<Seq<char>>) -> Option<((Option<Seq<char>>, Seq<char>), nat, Seq<Seq<char>>)> {
        named_at(input, pos, cache)
    }

    proof fn lemma_decoding_within(input: Seq<u8>, pos: nat, cache: Seq<Seq<char>>) {
        lemma_named_within(input, pos, cache);
    }

    fn decode<'de>(de: &mut Deserializer<'de>) -> (r: Result<Self>) {
        let (ns, name) = de.read_named()?;
        Ok(KEY::new(ns, name))
    }
}

/// An instant reads as an integer: `INST` and its milliseconds, or a plain integer.
impl Decode for INST {
    open spec fn decoding(input: Seq<u8>, pos: nat, cache: Seq<Seq<char>>) -> Option<(i64, nat, Seq<Seq<char>>)> {
        uncached(long_at(input, pos), cache)
    }

    proof fn lemma_decoding_within(input: Seq<u8>, pos: nat, cache: Seq<Seq<char>>) {
        lemma_long_within(input, pos);
    }

    fn decode<'de>(de: &mut Deserializer<'de>) -> (r: Result<Self>) {
        let ms = de.read_long()?;
        Ok(INST::from_millis(ms))
    }
}

/// The items of the typed array at `pos` of `input`, as `items_at` finds them.
pub open spec fn array_at<E>(
    input: Seq<u8>,
    pos: nat,
    cache: Seq<Seq<char>>,
    items_at: spec_fn(Seq<u8>, nat, nat) -> Option<(Seq<E>, nat)>,
) -> Option<(Seq<E>, nat, Seq<Seq<char>>)> {
    match array_header_at(input, pos) {
        Some(h) => uncached(items_at(input, h.0, h.1), cache),
        None => None,
    }
}

impl Decode for IntArray {
    open spec fn decoding(input: Seq<u8>, pos: nat, cache: Seq<Seq<char>>) -> Option<(Seq<i32>, nat, Seq<Seq<char>>)> {
        array_at(input, pos, cache, |i: Seq<u8>, p: nat, n: nat| ints_at(i, p, n))
    }

    proof fn lemma_decoding_within(input: Seq<u8>, pos: nat, cache: Seq<Seq<char>>) {
        lemma_array_header_within(input, pos);
        if let Some(h) = array_header_at(input, pos) {
            lemma_ints_within(input, h.0, h.1);
        }
    }

    fn decode<'de>(de: &mut Deserializer<'de>) -> (r: Result<Self>) {
        let v = de.read_int_array()?;
        Ok(IntArray::from_vec(v))
    }
}

impl Decode for LongArray {
    open spec fn decoding(input: Seq<u8>, pos: nat, cache: Seq<Seq<char>>) -> Option<(Seq<i64>, nat, Seq<Seq<char>>)> {
        array_at(input, pos, cache, |i: Seq<u8>, p: nat, n: nat| longs_at(i, p, n))
    }

    proof fn lemma_decoding_within(input: Seq<u8>, pos: nat, cache: Seq<Seq<char>>) {
        lemma_array_header_within(input, pos);
        if let Some(h) = array_header_at(input, pos) {
            lemma_longs_within(input, h.0, h.1);
        }
    }

    fn decode<'de>(de: &mut Deserializer<'de>) -> (r: Result<Self>) {
        let v = de.read_long_array()?;
        Ok(LongArray::from_vec(v))
    }
}

impl Decode for BooleanArray {
    open spec fn decoding(input: Seq<u8>, pos: nat, cache: Seq<Seq<char>>) -> Option<(Seq<bool>, nat, Seq<Seq<char>>)> {
        array_at(input, pos, cache, |i: Seq<u8>, p: nat, n: nat| booleans_at(i, p, n))
    }

    proof fn lemma_decoding_within(input: Seq<u8>, pos: nat, cache: Seq<Seq<char>>) {
        lemma_array_header_within(input, pos);
        if let Some(h) = array_header_at(input, pos) {
            lemma_booleans_within(input, h.0, h.1);
        }
    }

    fn decode<'de>(de: &mut Deserializer<'de>) -> (r: Result<Self>) {
        let v = de.read_boolean_array()?;
        Ok(BooleanArray::from_vec(v))
    }
}

/// `n` values one after the other from `pos` of `input`, the cache passing from each
/// to the next; their views, where they end, and the cache afterwards.
pub open spec fn items_at<T: Decode>(input: Seq<u8>, pos: nat, cache: Seq<Seq<char>>, n: nat) -> Option<
    (Seq<T::V>, nat, Seq<Seq<char>>),
>
    decreases n,
{
    if n == 0 {
        Some((Seq::empty(), pos, cache))
    } else {
        match items_at::<T>(input, pos, cache, (n - 1) as nat) {
            Some(front) => match T::decoding(input, front.1, front.2) {
                Some(x) => Some((front.0.push(x.0), x.1, x.2)),
                None => None,
            },
            None => None,
        }
    }
}

proof fn lemma_items_at_none_grows<T: Decode>(input: Seq<u8>, pos: nat, cache: Seq<Seq<char>>, m: nat, k: nat)
    requires
        m <= k,
        items_at::<T>(input, pos, cache, m) is None,
    ensures
        items_at::<T>(input, pos, cache, k) is None,
    decreases k - m,
{
    if m < k {
        lemma_items_at_none_grows::<T>(input, pos, cache, m, (k - 1) as nat);
    }
}

/// Where the items of the list at `pos` of `input` start, and how many it announces:
/// a packed list code, or `LIST` and a count.
pub open spec fn list_header_at(input: Seq<u8>, pos: nat) -> Option<(nat, nat)> {
    if pos >= input.len() {
        None
    } else {
        let code = input[pos as int];
        if codes::LIST_PACKED_LENGTH_START <= code < codes::LIST {
            Some((pos + 1, (code - codes::LIST_PACKED_LENGTH_START) as nat))
        } else if code == codes::LIST && int_read_ok(input.skip(pos + 1int)) {
            Some((after_count(input, pos + 1), count_at(input, pos + 1)))
        } else {
            None
        }
    }
}

impl<'de> Deserializer<'de> {
    /// Reads the header of a list with a known length: where its items start and how many.
    fn read_list_header(&mut self) -> (r: Result<usize>)
        requires
            old(self).wf(),
        ensures
            final(self).wf(),
            final(self).input() == old(self).input(),
            final(self).cache() == old(self).cache(),
            r is Ok <==> list_header_at(old(self).input(), old(self).position()) is Some,
            r matches Ok(n) ==> list_header_at(old(self).input(), old(self).position()) == Some(
                (final(self).position(), n as nat),
            ),
    {
        let ghost input = self.input();
        let ghost pos = self.position();
        let code = self.read_next_code()? as u8;
        proof {
            let x = input[pos as int];
            lemma_byte_as_code(x);
        }
        if codes::LIST_PACKED_LENGTH_START <= code && code < codes::LIST {
            Ok((code - codes::LIST_PACKED_LENGTH_START) as usize)
        } else if code == codes::LIST {
            proof {
                assert(self.rdr.remaining() =~= input.skip(pos + 1int));
            }
            self.raw_in.read_length(&mut self.rdr)
        } else {
            error(self, ErrorCode::ExpectedListCode)
        }
    }
}

/// Values read one after the other from `pos` end at or after `pos`, within the input.
proof fn lemma_items_within<T: Decode>(input: Seq<u8>, pos: nat, cache: Seq<Seq<char>>, n: nat)
    requires
        pos <= input.len(),
    ensures
        items_at::<T>(input, pos, cache, n) matches Some(f) ==> pos <= f.1 <= input.len(),
    decreases n,
{
    if n > 0 {
        lemma_items_within::<T>(input, pos, cache, (n - 1) as nat);
        if let Some(front) = items_at::<T>(input, pos, cache, (n - 1) as nat) {
            T::lemma_decoding_within(input, front.1, front.2);
        }
    }
}

/// The items of a list that `END_COLLECTION` ends, read from `pos`, the cache passing
/// from each to the next; their views, where the list ends (past the marker), and the
/// cache afterwards. An open list also ends with the input.
pub open spec fn marked_items_at<T: Decode>(input: Seq<u8>, pos: nat, cache: Seq<Seq<char>>, open: bool) -> Option<
    (Seq<T::V>, nat, Seq<Seq<char>>),
>
    decreases input.len() - pos,
{
    if pos >= input.len() {
        if open {
            Some((Seq::empty(), pos, cache))
        } else {
            None
        }
    } else if input[pos as int] == codes::END_COLLECTION {
        Some((Seq::empty(), pos + 1, cache))
    } else {
        match T::decoding(input, pos, cache) {
            Some(x) => if pos < x.1 <= input.len() {
                match marked_items_at::<T>(input, x.1, x.2, open) {
                    Some(r) => Some((seq![x.0] + r.0, r.1, r.2)),
                    None => None,
                }
            } else {
                None
            },
            None => None,
        }
    }
}

/// A list that a marker ends, read from `pos`, ends after `pos` and within the input.
proof fn lemma_marked_items_within<T: Decode>(input: Seq<u8>, pos: nat, cache: Seq<Seq<char>>, open: bool)
    requires
        pos <= input.len(),
    ensures
        marked_items_at::<T>(input, pos, cache, open) matches Some(f) ==> pos <= f.1 <= input.len(),
    decreases input.len() - pos,
{
    if pos < input.len() && input[pos as int] != codes::END_COLLECTION {
        if let Some(x) = T::decoding(input, pos, cache) {
            if pos < x.1 <= input.len() {
                lemma_marked_items_within::<T>(input, x.1, x.2, open);
            }
        }
    }
}

/// A vector reads from a list: a packed list code, or `LIST` and a count, then that
/// many items; or `BEGIN_CLOSED_LIST` or `BEGIN_OPEN_LIST`, then items up to the
/// `END_COLLECTION` that ends the list (for an open list, or up to the end of the input).
impl<T: Decode> Decode for Vec<T> {
    open spec fn decoding(input: Seq<u8>, pos: nat, cache: Seq<Seq<char>>) -> Option<(Seq<T::V>, nat, Seq<Seq<char>>)> {
        match list_header_at(input, pos) {
            Some(h) => items_at::<T>(input, h.0, cache, h.1),
            None => if pos < input.len() && input[pos as int] == codes::BEGIN_CLOSED_LIST {
                marked_items_at::<T>(input, pos + 1, cache, false)
            } else if pos < input.len() && input[pos as int] == codes::BEGIN_OPEN_LIST {
                marked_items_at::<T>(input, pos + 1, cache, true)
            } else {
                None
            },
        }
    }

    proof fn lemma_decoding_within(input: Seq<u8>, pos: nat, cache: Seq<Seq<char>>) {
        if let Some(h) = list_header_at(input, pos) {
            if pos + 1 < input.len() {
                assert(input.skip(pos + 1int).len() == input.len() - pos - 1);
            }
            lemma_items_within::<T>(input, h.0, cache, h.1);
        } else if pos < input.len() {
            lemma_marked_items_within::<T>(input, pos + 1, cache, false);
            lemma_marked_items_within::<T>(input, pos + 1, cache, true);
        }
    }

    fn decode<'de>(de: &mut Deserializer<'de>) -> (r: Result<Self>) {
        let ghost input = de.input();
        let ghost pos = de.position();
        let ghost cache0 = de.cache();
        let code = de.peek_next_code()? as u8;
        proof {
            let x = input[pos as int];
            lemma_byte_as_code(x);
        }
        if code == codes::BEGIN_CLOSED_LIST || code == codes::BEGIN_OPEN_LIST {
            let open = code == codes::BEGIN_OPEN_LIST;
            let _ = de.read_next_code()?;
            return read_marked_items(de, open);
        }
        let n = de.read_list_header()?;
        let ghost p = de.position();
        let mut out: Vec<T> = Vec::new();
        let mut i: usize = 0;
        while i < n
            invariant
                de.wf(),
                de.input() == input,
                input == old(de).input(),
                pos == old(de).position(),
                cache0 == old(de).cache(),
                i <= n,
                list_header_at(input, pos) == Some((p, n as nat)),
                items_at::<T>(input, p, cache0, i as nat) == Some((out.deep_view(), de.position(), de.cache())),
            decreases n - i,
        {
            let ghost before = out.deep_view();
            let x = match T::decode(de) {
                Ok(x) => x,
                Err(e) => {
                    proof {
                        lemma_items_at_none_grows::<T>(input, p, cache0, (i + 1) as nat, n as nat);
                    }
                    return Err(e);
                },
            };
            let ghost xv = x.deep_view();
            out.push(x);
            proof {
                assert(out.deep_view() =~= before.push(xv));
            }
            i = i + 1;
        }
        Ok(out)
    }
}

/// Reads the items of a list that a marker ends, its opening code having been read.
fn read_marked_items<'de, T: Decode>(de: &mut Deserializer<'de>, open: bool) -> (r: Result<Vec<T>>)
    requires
        old(de).wf(),
    ensures
        final(de).wf(),
        final(de).input() == old(de).input(),
        r is Ok <==> marked_items_at::<T>(old(de).input(), old(de).position(), old(de).cache(), open) is Some,
        r matches Ok(v) ==> marked_items_at::<T>(old(de).input(), old(de).position(), old(de).cache(), open)
            == Some((v.deep_view(), final(de).position(), final(de).cache())),
{
    let ghost input = de.input();
    let ghost pos = de.position();
    let ghost cache0 = de.cache();
    let mut out: Vec<T> = Vec::new();
    loop
        invariant
            de.wf(),
            de.input() == input,
            input == old(de).input(),
            pos == old(de).position(),
            cache0 == old(de).cache(),
            de.position() <= input.len(),
            marked_items_at::<T>(input, pos, cache0, open) == match marked_items_at::<T>(
                input,
                de.position(),
                de.cache(),
                open,
            ) {
                Some(rest) => Some((out.deep_view() + rest.0, rest.1, rest.2)),
                None => None,
            },
        decreases input.len() - de.position(),
    {
        let ghost at = de.position();
        let ghost c = de.cache();
        let ghost before = out.deep_view();
        if de.at_list_end(open)? {
            proof {
                assert(before + Seq::<T::V>::empty() =~= before);
            }
            return Ok(out);
        }
        proof {
            T::lemma_decoding_within(input, at, c);
        }
        let x = T::decode(de)?;
        let ghost xv = x.deep_view();
        out.push(x);
        proof {
            assert(out.deep_view() =~= before.push(xv));
            match marked_items_at::<T>(input, de.position(), de.cache(), open) {
                Some(rest) => {
                    assert(before + (seq![xv] + rest.0) =~= out.deep_view() + rest.0);
                },
                None => {},
            }
        }
    }
}

/// Reads a value from the start of `s`, with an empty cache. Bytes after the value
/// are left unread.
pub fn from_bytes<T: Decode>(s: &[u8]) -> (r: Result<T>)
    ensures
        r is Ok <==> T::decoding(s@, 0, Seq::empty()) is Some,
        r matches Ok(v) ==> (T::decoding(s@, 0, Seq::empty()) matches Some(found) && found.0 == v.deep_view()),
{
    let mut deserializer = Deserializer::from_bytes(s);
    T::decode(&mut deserializer)
}

/// Reads a value from the start of `v`, with an empty cache.
pub fn from_vec<T: Decode>(v: &Vec<u8>) -> (r: Result<T>)
    ensures
        r is Ok <==> T::decoding(v@, 0, Seq::empty()) is Some,
        r matches Ok(x) ==> (T::decoding(v@, 0, Seq::empty()) matches Some(found) && found.0 == x.deep_view()),
{
    from_bytes(v.as_slice())
}


/// What a code announces, as the reader of self-described values dispatches on it.
#[derive(Clone, Copy, PartialEq, Eq, Structural, Debug)]
pub enum ValueKind {
    Null,
    Boolean,
    Int,
    Float,
    Double,
    Bytes,
    PackedString(u8),
    String,
    Utf8,
    PackedList(u8),
    List,
    ClosedList,
    OpenList,
    MapValue,
    SetValue,
    Inst,
    Uuid,
    Uri,
    Regex,
    Sym,
    Key,
    TypedArray,
    PutPriorityCache,
    CachedRef(u8),
    Unsupported,
    Unmatched,
}

/// The kind of value that `code` starts.
pub open spec fn kind_of(code: u8) -> ValueKind {
    if code == codes::NULL {
        ValueKind::Null
    } else if code == codes::TRUE || code == codes::FALSE {
        ValueKind::Boolean
    } else if code == codes::INT || code <= 0x7F || code == 0xFF {
        ValueKind::Int
    } else if code == codes::FLOAT {
        ValueKind::Float
    } else if code == codes::DOUBLE || code == codes::DOUBLE_0 || code == codes::DOUBLE_1 {
        ValueKind::Double
    } else if code == codes::BYTES || (codes::BYTES_PACKED_LENGTH_START <= code < codes::BYTES_CHUNK) {
        ValueKind::Bytes
    } else if codes::STRING_PACKED_LENGTH_START <= code < codes::STRING_CHUNK {
        ValueKind::PackedString((code - codes::STRING_PACKED_LENGTH_START) as u8)
    } else if code == codes::STRING {
        ValueKind::String
    } else if code == codes::UTF8 {
        ValueKind::Utf8
    } else if codes::LIST_PACKED_LENGTH_START <= code < codes::LIST {
        ValueKind::PackedList((code - codes::LIST_PACKED_LENGTH_START) as u8)
    } else if code == codes::LIST {
        ValueKind::List
    } else if code == codes::BEGIN_CLOSED_LIST {
        ValueKind::ClosedList
    } else if code == codes::BEGIN_OPEN_LIST {
        ValueKind::OpenList
    } else if code == codes::MAP {
        ValueKind::MapValue
    } else if code == codes::SET {
        ValueKind::SetValue
    } else if code == codes::INST {
        ValueKind::Inst
    } else if code == codes::UUID {
        ValueKind::Uuid
    } else if code == codes::URI {
        ValueKind::Uri
    } else if code == codes::REGEX {
        ValueKind::Regex
    } else if code == codes::SYM {
        ValueKind::Sym
    } else if code == codes::KEY {
        ValueKind::Key
    } else if is_array_code(code) {
        ValueKind::TypedArray
    } else if code == codes::PUT_PRIORITY_CACHE {
        ValueKind::PutPriorityCache
    } else if codes::PRIORITY_CACHE_PACKED_START <= code < codes::PRIORITY_CACHE_PACKED_END {
        ValueKind::CachedRef((code - codes::PRIORITY_CACHE_PACKED_START) as u8)
    } else if code == codes::BYTES_CHUNK || code == codes::STRING_CHUNK || code == codes::OBJECT_ARRAY {
        ValueKind::Unsupported
    } else {
        ValueKind::Unmatched
    }
}

/// The kind of value that `code` starts.
pub fn value_kind(code: u8) -> (k: ValueKind)
    ensures
        k == kind_of(code),
{
    if code == codes::NULL {
        ValueKind::Null
    } else if code == codes::TRUE || code == codes::FALSE {
        ValueKind::Boolean
    } else if code == codes::INT || code <= 0x7F || code == 0xFF {
        ValueKind::Int
    } else if code == codes::FLOAT {
        ValueKind::Float
    } else if code == codes::DOUBLE || code == codes::DOUBLE_0 || code == codes::DOUBLE_1 {
        ValueKind::Double
    } else if code == codes::BYTES || (codes::BYTES_PACKED_LENGTH_START <= code && code < codes::BYTES_CHUNK) {
        ValueKind::Bytes
    } else if codes::STRING_PACKED_LENGTH_START <= code && code < codes::STRING_CHUNK {
        ValueKind::PackedString(code - codes::STRING_PACKED_LENGTH_START)
    } else if code == codes::STRING {
        ValueKind::String
    } else if code == codes::UTF8 {
        ValueKind::Utf8
    } else if codes::LIST_PACKED_LENGTH_START <= code && code < codes::LIST {
        ValueKind::PackedList(code - codes::LIST_PACKED_LENGTH_START)
    } else if code == codes::LIST {
        ValueKind::List
    } else if code == codes::BEGIN_CLOSED_LIST {
        ValueKind::ClosedList
    } else if code == codes::BEGIN_OPEN_LIST {
        ValueKind::OpenList
    } else if code == codes::MAP {
        ValueKind::MapValue
    } else if code == codes::SET {
        ValueKind::SetValue
    } else if code == codes::INST {
        ValueKind::Inst
    } else if code == codes::UUID {
        ValueKind::Uuid
    } else if code == codes::URI {
        ValueKind::Uri
    } else if code == codes::REGEX {
        ValueKind::Regex
    } else if code == codes::SYM {
        ValueKind::Sym
    } else if code == codes::KEY {
        ValueKind::Key
    } else if code == codes::INT_ARRAY || code == codes::LONG_ARRAY || code == codes::FLOAT_ARRAY
        || code == codes::DOUBLE_ARRAY || code == codes::BOOLEAN_ARRAY {
        ValueKind::TypedArray
    } else if code == codes::PUT_PRIORITY_CACHE {
        ValueKind::PutPriorityCache
    } else if codes::PRIORITY_CACHE_PACKED_START <= code && code < codes::PRIORITY_CACHE_PACKED_END {
        ValueKind::CachedRef(code - codes::PRIORITY_CACHE_PACKED_START)
    } else if code == codes::BYTES_CHUNK || code == codes::STRING_CHUNK || code == codes::OBJECT_ARRAY {
        ValueKind::Unsupported
    } else {
        ValueKind::Unmatched
    }
}


/// What the reader of self-described values finds next, with what the code announces
/// already read.
#[derive(Debug)]
pub enum Event<'de> {
    Null,
    Bool(bool),
    Int(i64),
    /// A float, as its IEEE-754 bits.
    Float(u32),
    /// A double, as its IEEE-754 bits.
    Double(u64),
    Bytes(&'de [u8]),
    Str(String),
    /// This many items follow.
    List(usize),
    /// Items follow up to an `END_COLLECTION`.
    ClosedList,
    /// Items follow up to an `END_COLLECTION` or the end of the input.
    OpenList,
    /// This many keys and values, taken together, follow.
    Entries(usize),
    /// Keys and values follow up to an `END_COLLECTION`.
    ClosedEntries,
}

/// The view of an event: the bytes and characters it carries as sequences.
pub enum EventView {
    Null,
    Bool(bool),
    Int(i64),
    Float(u32),
    Double(u64),
    Bytes(Seq<u8>),
    Str(Seq<char>),
    List(usize),
    ClosedList,
    OpenList,
    Entries(usize),
    ClosedEntries,
}

impl<'de> View for Event<'de> {
    type V = EventView;

    open spec fn view(&self) -> EventView {
        match self {
            Event::Null => EventView::Null,
            Event::Bool(b) => EventView::Bool(*b),
            Event::Int(i) => EventView::Int(*i),
            Event::Float(f) => EventView::Float(*f),
            Event::Double(d) => EventView::Double(*d),
            Event::Bytes(b) => EventView::Bytes(b@),
            Event::Str(s) => EventView::Str(s@),
            Event::List(n) => EventView::List(*n),
            Event::ClosedList => EventView::ClosedList,
            Event::OpenList => EventView::OpenList,
            Event::Entries(n) => EventView::Entries(*n),
            Event::ClosedEntries => EventView::ClosedEntries,
        }
    }
}

/// A code that starts a list: a packed list code, `LIST`, `BEGIN_CLOSED_LIST` or
/// `BEGIN_OPEN_LIST`.
pub open spec fn is_list_code(code: u8) -> bool {
    (codes::LIST_PACKED_LENGTH_START <= code <= codes::LIST) || code == codes::BEGIN_CLOSED_LIST
        || code == codes::BEGIN_OPEN_LIST
}

/// The start of the list at `pos` of `input`, and where its items start: a packed list
/// code or `LIST` and a count for a list of known length, `BEGIN_CLOSED_LIST` or
/// `BEGIN_OPEN_LIST` for a list that a marker ends.
pub open spec fn list_start_at(input: Seq<u8>, pos: nat) -> Option<(EventView, nat)> {
    if pos < input.len() && input[pos as int] == codes::BEGIN_CLOSED_LIST {
        Some((EventView::ClosedList, pos + 1))
    } else if pos < input.len() && input[pos as int] == codes::BEGIN_OPEN_LIST {
        Some((EventView::OpenList, pos + 1))
    } else {
        match list_header_at(input, pos) {
            Some(h) => Some((EventView::List(h.1 as usize), h.0)),
            None => None,
        }
    }
}

/// The start of a map's entries at `pos` of `input`: a list of known length, or a
/// closed list. An open list is refused.
pub open spec fn map_start_at(input: Seq<u8>, pos: nat) -> Option<(EventView, nat)> {
    match list_start_at(input, pos) {
        Some((EventView::List(n), q)) => Some((EventView::Entries(n), q)),
        Some((EventView::ClosedList, q)) => Some((EventView::ClosedEntries, q)),
        _ => None,
    }
}

/// A value of the reader's own kind found at `pos`, the cache untouched.
pub open spec fn event_of<V>(found: Option<(V, nat)>, cache: Seq<Seq<char>>, f: spec_fn(V) -> EventView) -> Option<
    (EventView, nat, Seq<Seq<char>>),
> {
    match found {
        Some(x) => Some((f(x.0), x.1, cache)),
        None => None,
    }
}

/// The event whose code is at `pos` of `input` (not `PUT_PRIORITY_CACHE`), where what
/// it announces ends, and the cache afterwards.
pub open spec fn plain_event_at(input: Seq<u8>, pos: nat, cache: Seq<Seq<char>>) -> Option<
    (EventView, nat, Seq<Seq<char>>),
> {
    if pos >= input.len() {
        None
    } else {
        let code = input[pos as int];
        let p = pos + 1;
        match kind_of(code) {
            ValueKind::Null => Some((EventView::Null, p, cache)),
            ValueKind::Boolean => Some((EventView::Bool(code == codes::TRUE), p, cache)),
            ValueKind::Int | ValueKind::Inst => event_of(long_at(input, pos), cache, |v: i64| EventView::Int(v)),
            ValueKind::Float => if p + 4 <= input.len() {
                Some((EventView::Float(be_uint(input.subrange(p as int, p + 4int)) as u32), p + 4, cache))
            } else {
                None
            },
            ValueKind::Double => if code == codes::DOUBLE_0 {
                Some((EventView::Double(0), p, cache))
            } else if code == codes::DOUBLE_1 {
                Some((EventView::Double(0x3FF0000000000000), p, cache))
            } else if p + 8 <= input.len() {
                Some((EventView::Double(be_uint(input.subrange(p as int, p + 8int)) as u64), p + 8, cache))
            } else {
                None
            },
            ValueKind::Bytes => event_of(bytes_at(input, pos), cache, |b: Seq<u8>| EventView::Bytes(b)),
            ValueKind::PackedString(_) | ValueKind::String | ValueKind::Utf8 =>
                event_of(string_at(input, pos), cache, |s: Seq<char>| EventView::Str(s)),
            ValueKind::PackedList(_) | ValueKind::List | ValueKind::ClosedList | ValueKind::OpenList =>
                event_of(list_start_at(input, pos), cache, |e: EventView| e),
            ValueKind::MapValue => event_of(map_start_at(input, p), cache, |e: EventView| e),
            ValueKind::SetValue => event_of(list_start_at(input, p), cache, |e: EventView| e),
            ValueKind::Uuid => event_of(bytes_at(input, p), cache, |b: Seq<u8>| EventView::Bytes(b)),
            ValueKind::Uri | ValueKind::Regex => event_of(string_at(input, p), cache, |s: Seq<char>| EventView::Str(s)),
            ValueKind::Sym | ValueKind::Key => Some((EventView::List(2), p, cache)),
            ValueKind::TypedArray => if int_read_ok(input.skip(p as int)) {
                Some((EventView::List(count_at(input, p) as usize), after_count(input, p), cache))
            } else {
                None
            },
            ValueKind::CachedRef(i) => if i < cache.len() {
                Some((EventView::Str(cache[i as int]), p, cache))
            } else {
                None
            },
            _ => None,
        }
    }
}

/// The first position at or after `pos` whose byte is not `PUT_PRIORITY_CACHE`.
pub open spec fn skip_puts(input: Seq<u8>, pos: nat) -> nat
    decreases input.len() - pos,
{
    if pos < input.len() && input[pos as int] == codes::PUT_PRIORITY_CACHE {
        skip_puts(input, pos + 1)
    } else {
        pos
    }
}

/// A code that starts a string.
pub open spec fn is_string_code(code: u8) -> bool {
    code == codes::STRING || code == codes::UTF8 || (codes::STRING_PACKED_LENGTH_START <= code
        < codes::STRING_CHUNK)
}

/// The event at `pos` of `input` when `pending` says whether a `PUT_PRIORITY_CACHE`
/// still waits for its string; where it ends, the cache afterwards, and whether one
/// still waits. `PUT_PRIORITY_CACHE` codes are passed over and leave one waiting; the
/// next string read under a string code is added to the cache and ends the wait.
pub open spec fn event_after(input: Seq<u8>, pos: nat, cache: Seq<Seq<char>>, pending: bool) -> Option<
    (EventView, nat, Seq<Seq<char>>, bool),
> {
    let q = skip_puts(input, pos);
    let marked = pending || q > pos;
    match plain_event_at(input, q, cache) {
        Some((ev, end, after)) => if marked && is_string_code(input[q as int]) {
            match ev {
                EventView::Str(s) => Some((ev, end, after.push(s), false)),
                _ => Some((ev, end, after, false)),
            }
        } else {
            Some((ev, end, after, marked))
        },
        None => None,
    }
}

/// The event at `pos` of `input` with nothing waiting for the cache: where it ends and
/// the cache afterwards.
pub open spec fn event_at(input: Seq<u8>, pos: nat, cache: Seq<Seq<char>>) -> Option<
    (EventView, nat, Seq<Seq<char>>),
> {
    match event_after(input, pos, cache, false) {
        Some(e) => Some((e.0, e.1, e.2)),
        None => None,
    }
}

/// The events found one after the other from `pos` of `input`, `n` of them, the cache
/// and the wait for it passing from each to the next; where they end, the cache
/// afterwards, and whether a `PUT_PRIORITY_CACHE` still waits.
pub open spec fn events_at(input: Seq<u8>, pos: nat, cache: Seq<Seq<char>>, pending: bool, n: nat) -> Option<
    (Seq<EventView>, nat, Seq<Seq<char>>, bool),
>
    decreases n,
{
    if n == 0 {
        Some((Seq::empty(), pos, cache, pending))
    } else {
        match events_at(input, pos, cache, pending, (n - 1) as nat) {
            Some(front) => match event_after(input, front.1, front.2, front.3) {
                Some(e) => Some((front.0.push(e.0), e.1, e.2, e.3)),
                None => None,
            },
            None => None,
        }
    }
}

impl<'de> Deserializer<'de> {
    /// How many bytes have been consumed.
    pub fn get_bytes_read(&self) -> (n: usize)
        ensures
            n == self.position(),
    {
        self.rdr.get_bytes_read()
    }

    /// Reads the start of a list: a packed list code, `LIST` and a count,
    /// `BEGIN_CLOSED_LIST` or `BEGIN_OPEN_LIST`.
    fn read_list_start(&mut self) -> (r: Result<Event<'de>>)
        requires
            old(self).wf(),
        ensures
            final(self).wf(),
            final(self).input() == old(self).input(),
            final(self).cache() == old(self).cache(),
            r is Ok <==> list_start_at(old(self).input(), old(self).position()) is Some,
            r matches Ok(ev) ==> list_start_at(old(self).input(), old(self).position()) == Some(
                (ev@, final(self).position()),
            ),
    {
        let ghost input = self.input();
        let ghost pos = self.position();
        let code = self.peek_next_code()? as u8;
        proof {
            let x = input[pos as int];
            lemma_byte_as_code(x);
        }
        if code == codes::BEGIN_CLOSED_LIST {
            let _ = self.read_next_code()?;
            Ok(Event::ClosedList)
        } else if code == codes::BEGIN_OPEN_LIST {
            let _ = self.read_next_code()?;
            Ok(Event::OpenList)
        } else {
            let n = self.read_list_header()?;
            Ok(Event::List(n))
        }
    }

    /// Reads a byte array: its code, then what the code announces.
    fn read_byte_array(&mut self) -> (r: Result<&'de [u8]>)
        requires
            old(self).wf(),
        ensures
            final(self).wf(),
            final(self).input() == old(self).input(),
            final(self).cache() == old(self).cache(),
            r is Ok <==> bytes_at(old(self).input(), old(self).position()) is Some,
            r matches Ok(b) ==> bytes_at(old(self).input(), old(self).position()) == Some(
                (b@, final(self).position()),
            ),
    {
        let ghost before = self.rdr;
        let r = self.raw_in.read_bytes(&mut self.rdr);
        proof {
            lemma_bytes_read_functional(before, self.rdr, r);
        }
        r
    }

    /// Reads a string: its code, then what the code announces.
    fn read_plain_string(&mut self) -> (r: Result<String>)
        requires
            old(self).wf(),
        ensures
            final(self).wf(),
            final(self).input() == old(self).input(),
            final(self).cache() == old(self).cache(),
            r is Ok <==> string_at(old(self).input(), old(self).position()) is Some,
            r matches Ok(s) ==> string_at(old(self).input(), old(self).position()) == Some(
                (s@, final(self).position()),
            ),
    {
        let ghost before = self.rdr;
        let r = self.raw_in.read_string(&mut self.rdr);
        proof {
            lemma_string_read_functional(before, self.rdr, chars_of(r));
        }
        r
    }
}

impl<'de> Deserializer<'de> {
    /// Reads the code at the current position (not `PUT_PRIORITY_CACHE`) and what it
    /// announces.
    #[verifier::rlimit(40)]
    fn read_plain_event(&mut self) -> (r: Result<Event<'de>>)
        requires
            old(self).wf(),
        ensures
            final(self).wf(),
            final(self).input() == old(self).input(),
            r is Ok <==> plain_event_at(old(self).input(), old(self).position(), old(self).cache()) is Some,
            r matches Ok(ev) ==> plain_event_at(old(self).input(), old(self).position(), old(self).cache())
                == Some((ev@, final(self).position(), final(self).cache())),
            old(self).position() >= old(self).input().len() ==> (r matches Err(e) && e.err.code is Eof),
            old(self).position() < old(self).input().len() && kind_of(old(self).input()[old(self).position() as int])
                is Unsupported ==> (r matches Err(e) && e.err.code is UnsupportedType),
            old(self).position() < old(self).input().len() && kind_of(old(self).input()[old(self).position() as int])
                is Unmatched ==> (r matches Err(e) && e.err.code == ErrorCode::UnmatchedCode(
                old(self).input()[old(self).position() as int])),
            old(self).position() + 1 < old(self).input().len() && old(self).input()[old(self).position() as int]
                == codes::MAP && !is_list_code(old(self).input()[old(self).position() + 1int])
                ==> (r matches Err(e) && e.err.code is MapExpectedListCode),
            old(self).position() + 1 < old(self).input().len() && old(self).input()[old(self).position() as int]
                == codes::MAP && old(self).input()[old(self).position() + 1int] == codes::BEGIN_OPEN_LIST
                ==> (r matches Err(e) && e.err.code is MapExpectedListCode),
            old(self).position() + 1 < old(self).input().len() && old(self).input()[old(self).position() as int]
                == codes::SET && !is_list_code(old(self).input()[old(self).position() + 1int])
                ==> (r matches Err(e) && e.err.code is ExpectedListCode),
    {
        let ghost input = self.input();
        let ghost pos = self.position();
        let code = self.peek_next_code()? as u8;
        proof {
            let x = input[pos as int];
            lemma_byte_as_code(x);
        }
        match value_kind(code) {
            ValueKind::Null => {
                let _ = self.read_next_code()?;
                Ok(Event::Null)
            },
            ValueKind::Boolean => {
                let b = self.read_bool()?;
                Ok(Event::Bool(b))
            },
            ValueKind::Int | ValueKind::Inst => {
                let v = self.read_long()?;
                Ok(Event::Int(v))
            },
            ValueKind::Float => {
                let c = self.read_next_code()?;
                proof {
                    assert(self.rdr.remaining() =~= input.skip(pos + 1int));
                    if pos + 5 <= input.len() {
                        assert(input.skip(pos + 1int).take(4) =~= input.subrange(pos + 1int, pos + 5int));
                    }
                }
                let bits = self.raw_in.read_float_code(&mut self.rdr, c)?;
                Ok(Event::Float(bits))
            },
            ValueKind::Double => {
                let c = self.read_next_code()?;
                proof {
                    assert(self.rdr.remaining() =~= input.skip(pos + 1int));
                    if pos + 9 <= input.len() {
                        assert(input.skip(pos + 1int).take(8) =~= input.subrange(pos + 1int, pos + 9int));
                    }
                }
                let bits = self.raw_in.read_double_code(&mut self.rdr, c)?;
                Ok(Event::Double(bits))
            },
            ValueKind::Bytes => {
                let b = self.read_byte_array()?;
                Ok(Event::Bytes(b))
            },
            ValueKind::PackedString(_) | ValueKind::String | ValueKind::Utf8 => {
                let s = self.read_plain_string()?;
                Ok(Event::Str(s))
            },
            ValueKind::PackedList(_) | ValueKind::List | ValueKind::ClosedList | ValueKind::OpenList => {
                self.read_list_start()
            },
            ValueKind::MapValue => {
                let _ = self.read_next_code()?;
                let ghost p = self.position();
                let c = self.peek_next_code()? as u8;
                proof {
                    let x = input[p as int];
                    lemma_byte_as_code(x);
                }
                if c == codes::BEGIN_CLOSED_LIST {
                    let _ = self.read_next_code()?;
                    Ok(Event::ClosedEntries)
                } else if codes::LIST_PACKED_LENGTH_START <= c && c <= codes::LIST {
                    let n = self.read_list_header()?;
                    Ok(Event::Entries(n))
                } else {
                    let _ = self.read_next_code()?;
                    error(self, ErrorCode::MapExpectedListCode)
                }
            },
            ValueKind::SetValue => {
                let _ = self.read_next_code()?;
                let ghost p = self.position();
                let c = self.peek_next_code()? as u8;
                proof {
                    let x = input[p as int];
                    lemma_byte_as_code(x);
                }
                if c == codes::BEGIN_CLOSED_LIST || c == codes::BEGIN_OPEN_LIST || (codes::LIST_PACKED_LENGTH_START
                    <= c && c <= codes::LIST) {
                    self.read_list_start()
                } else {
                    let _ = self.read_next_code()?;
                    error(self, ErrorCode::ExpectedListCode)
                }
            },
            ValueKind::Uuid => {
                let _ = self.read_next_code()?;
                let b = self.read_byte_array()?;
                Ok(Event::Bytes(b))
            },
            ValueKind::Uri | ValueKind::Regex => {
                let _ = self.read_next_code()?;
                let s = self.read_plain_string()?;
                Ok(Event::Str(s))
            },
            ValueKind::Sym | ValueKind::Key => {
                let _ = self.read_next_code()?;
                Ok(Event::List(2))
            },
            ValueKind::TypedArray => {
                let _ = self.read_next_code()?;
                proof {
                    assert(self.rdr.remaining() =~= input.skip(pos + 1int));
                }
                let n = self.raw_in.read_length(&mut self.rdr)?;
                Ok(Event::List(n))
            },
            ValueKind::CachedRef(i) => {
                let _ = self.read_next_code()?;
                match self.get_priority_cache(i as usize) {
                    Some(s) => Ok(Event::Str(s.clone())),
                    None => Err(Error::msg("missing cached object".to_owned())),
                }
            },
            ValueKind::Unsupported => {
                let _ = self.read_next_code()?;
                error(self, ErrorCode::UnsupportedType)
            },
            _ => {
                let _ = self.read_next_code()?;
                error(self, ErrorCode::UnmatchedCode(code))
            },
        }
    }

    /// Reads the next value's code and what it announces, as the reader of
    /// self-described values dispatches on it. `PUT_PRIORITY_CACHE` codes are passed
    /// over; a string that follows them is added to the priority cache.
    pub fn read_event(&mut self) -> (r: Result<Event<'de>>)
        requires
            old(self).wf(),
        ensures
            final(self).wf(),
            final(self).input() == old(self).input(),
            r is Ok <==> event_after(old(self).input(), old(self).position(), old(self).cache(),
                old(self).pending()) is Some,
            r matches Ok(ev) ==> event_after(old(self).input(), old(self).position(), old(self).cache(),
                old(self).pending()) == Some((ev@, final(self).position(), final(self).cache(), final(self).pending())),
            ({
                let q = skip_puts(old(self).input(), old(self).position());
                &&& q >= old(self).input().len() ==> (r matches Err(e) && e.err.code is Eof)
                &&& q < old(self).input().len() && kind_of(old(self).input()[q as int]) is Unsupported
                    ==> (r matches Err(e) && e.err.code is UnsupportedType)
                &&& q < old(self).input().len() && kind_of(old(self).input()[q as int]) is Unmatched
                    ==> (r matches Err(e) && e.err.code == ErrorCode::UnmatchedCode(old(self).input()[q as int]))
                &&& q + 1 < old(self).input().len() && old(self).input()[q as int] == codes::MAP && (
                    !is_list_code(old(self).input()[q + 1int]) || old(self).input()[q + 1int] == codes::BEGIN_OPEN_LIST)
                    ==> (r matches Err(e) && e.err.code is MapExpectedListCode)
                &&& q + 1 < old(self).input().len() && old(self).input()[q as int] == codes::SET
                    && !is_list_code(old(self).input()[q + 1int]) ==> (r matches Err(e) && e.err.code is ExpectedListCode)
            }),
    {
        let ghost input = self.input();
        let ghost pos = self.position();
        let mut put = self.cache_next;
        let mut code: u8 = 0;
        loop
            invariant
                self.wf(),
                self.input() == input,
                self.cache() == old(self).cache(),
                input == old(self).input(),
                pos == old(self).position(),
                pos <= self.position(),
                skip_puts(input, self.position()) == skip_puts(input, pos),
                put == (old(self).pending() || self.position() > pos),
            ensures
                self.position() < input.len(),
                input[self.position() as int] == code,
                code != codes::PUT_PRIORITY_CACHE,
            decreases input.len() - self.position(),
        {
            let ghost at = self.position();
            let c = match self.peek_next_code() {
                Ok(c) => c as u8,
                Err(e) => return Err(e),
            };
            proof {
                let x = input[at as int];
                lemma_byte_as_code(x);
            }
            if c != codes::PUT_PRIORITY_CACHE {
                code = c;
                break;
            }
            let _ = self.read_next_code()?;
            put = true;
        }
        let ghost q = self.position();
        let ghost cache0 = self.cache();
        let ev = self.read_plain_event()?;
        if put && (code == codes::STRING || code == codes::UTF8 || (codes::STRING_PACKED_LENGTH_START <= code
            && code < codes::STRING_CHUNK)) {
            if let Event::Str(s) = &ev {
                self.add_priority_cache(s.clone());
            }
            self.cache_next = false;
        } else {
            self.cache_next = put;
        }
        Ok(ev)
    }
}

impl<'de> Deserializer<'de> {
    /// Whether the list being read ends here. `END_COLLECTION` ends it and is consumed.
    /// At the end of the input an open list ends; a closed list fails with `Eof`.
    pub fn at_list_end(&mut self, open: bool) -> (r: Result<bool>)
        requires
            old(self).wf(),
        ensures
            final(self).wf(),
            final(self).pending() == old(self).pending(),
            final(self).input() == old(self).input(),
            final(self).cache() == old(self).cache(),
            old(self).position() < old(self).input().len() && old(self).input()[old(self).position() as int]
                == codes::END_COLLECTION ==> (r matches Ok(b) && b && final(self).position() == old(self).position() + 1),
            old(self).position() < old(self).input().len() && old(self).input()[old(self).position() as int]
                != codes::END_COLLECTION ==> (r matches Ok(b) && !b && final(self).position() == old(self).position()),
            old(self).position() >= old(self).input().len() ==> final(self).position() == old(self).position(),
            old(self).position() >= old(self).input().len() && open ==> (r matches Ok(b) && b),
            old(self).position() >= old(self).input().len() && !open ==> (r matches Err(e) && e.err.code is Eof),
    {
        let ghost pos = self.position();
        match self.peek_next_code() {
            Ok(c) => {
                proof {
                    lemma_byte_as_code(self.input()[pos as int]);
                }
                if c as u8 == codes::END_COLLECTION {
                    let _ = self.read_next_code()?;
                    Ok(true)
                } else {
                    Ok(false)
                }
            },
            Err(e) => {
                if open && e.is_eof() {
                    Ok(true)
                } else {
                    Err(e)
                }
            },
        }
    }
}

} // verus!
