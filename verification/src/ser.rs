//! The Fressian writer: primitives, list and map framing, the footer, and the priority
//! cache that symbols and keywords use for their strings.

use vstd::prelude::*;
use vstd::utf8::encode_utf8;
use crate::error::{Error, ErrorCode, Result};
use crate::imp::codes;
use crate::imp::chars::same_text;
use crate::imp::ranges;
use crate::imp::cache::{Cache, default_hash_of, first_occurrence};
use crate::imp::io::{ByteWriter, IWriteBytes};
use crate::imp::rawoutput::{RawOutput, be_bytes, int_encoding, boolean_encoding, bytes_encoding,
    string_encoding, float_encoding, double_encoding, utf8_string_encoding};

verus! {

/// The header of a list of `length` items: a packed code for fewer than 8 items,
/// otherwise `LIST` and the count.
pub open spec fn list_header(length: usize) -> Seq<u8> {
    if length < 8 {
        seq![(0xE4 + length) as u8]
    } else {
        seq![codes::LIST] + int_encoding(length as i64)
    }
}

/// The footer: the magic word, the number of bytes written before it, and a zero checksum.
pub open spec fn footer_encoding(length: nat) -> Seq<u8> {
    seq![0xCFu8, 0xCF, 0xCF, 0xCF] + be_bytes((length as i32) as i64, 4) + seq![0u8, 0, 0, 0]
}

/// The index at which `h` first occurs in `cache`.
pub open spec fn cache_index(cache: Seq<u64>, h: u64) -> int {
    choose|i: int| first_occurrence(cache, h, i)
}

/// How a string is written where values are cached (the fields of symbols and
/// keywords): an empty string as itself; a string whose hash the cache holds, as a
/// reference to its slot (a packed code below 32, else `GET_PRIORITY_CACHE` and the
/// index); any other string as `PUT_PRIORITY_CACHE` followed by the string.
pub open spec fn cached_string_encoding(s: Seq<char>, cache: Seq<u64>) -> Seq<u8> {
    let h = default_hash_of(s);
    if s.len() == 0 {
        string_encoding(s)
    } else if cache.contains(h) {
        let i = cache_index(cache, h);
        if i < 32 {
            seq![(codes::PRIORITY_CACHE_PACKED_START + i) as u8]
        } else {
            seq![codes::GET_PRIORITY_CACHE] + int_encoding(i as i64)
        }
    } else {
        seq![codes::PUT_PRIORITY_CACHE] + string_encoding(s)
    }
}

/// The cache after a string is written where values are cached: a new non-empty
/// string's hash is appended.
pub open spec fn cached_string_cache(s: Seq<char>, cache: Seq<u64>) -> Seq<u64> {
    if s.len() == 0 || cache.contains(default_hash_of(s)) {
        cache
    } else {
        cache.push(default_hash_of(s))
    }
}

pub struct Serializer<W> {
    writer: W,
    cache: Cache,
}

/// The error raised at the current write position.
fn error<W: IWriteBytes, T>(ser: &Serializer<W>, reason: ErrorCode) -> (r: Result<T>)
    requires
        ser.wf(),
    ensures
        r matches Err(e) && e.err.code == reason && e.err.position == ser.written().len() as usize,
{
    let position = ser.writer.get_bytes_written() as usize;
    Err(Error::syntax(reason, position))
}

impl<W: IWriteBytes> Serializer<W> {
    pub closed spec fn wf(&self) -> bool {
        self.writer.writer_wf()
    }

    /// The bytes written so far.
    pub closed spec fn written(&self) -> Seq<u8> {
        self.writer.written_bytes()
    }

    /// The hashes held by the priority cache.
    pub closed spec fn cache(&self) -> Seq<u64> {
        self.cache.hashes()
    }

    pub fn new(writer: W) -> (s: Self)
        ensures
            s.wf() == writer.writer_wf(),
            s.written() == writer.written_bytes(),
            s.cache() == Seq::<u64>::empty(),
    {
        Serializer { writer: writer, cache: Cache::new() }
    }
}

impl Serializer<ByteWriter> {
    pub fn from_vec(v: Vec<u8>) -> (s: Self)
        ensures
            s.wf(),
            s.written() == Seq::<u8>::empty(),
            s.buffer() == v@,
            s.cache() == Seq::<u64>::empty(),
    {
        Serializer { writer: ByteWriter::from_vec(v), cache: Cache::new() }
    }

    /// The whole underlying buffer.
    pub closed spec fn buffer(&self) -> Seq<u8> {
        self.writer.buffer()
    }

    /// Starts writing again from the front of the buffer; the cache is kept.
    pub fn reset(&mut self)
        ensures
            final(self).wf(),
            final(self).written() == Seq::<u8>::empty(),
            final(self).buffer() == old(self).buffer(),
            final(self).cache() == old(self).cache(),
    {
        self.writer.reset()
    }

    pub fn get_ref(&self) -> (v: &Vec<u8>)
        ensures
            v@ == self.buffer(),
    {
        self.writer.get_ref()
    }

    /// A copy of the bytes written.
    pub fn to_vec(&mut self) -> (v: Vec<u8>)
        requires
            old(self).wf(),
        ensures
            *final(self) == *old(self),
            v@ == old(self).written(),
    {
        self.writer.to_vec()
    }

    /// The underlying buffer, including any bytes past those written.
    pub fn into_inner(self) -> (v: Vec<u8>)
        ensures
            v@ == self.buffer(),
    {
        self.writer.into_inner()
    }
}

impl<W: IWriteBytes> Serializer<W> {
    pub fn write_footer(&mut self) -> (r: Result<()>)
        requires
            old(self).wf(),
        ensures
            r is Ok,
            final(self).wf(),
            final(self).cache() == old(self).cache(),
            final(self).written() == old(self).written() + footer_encoding(
                old(self).written().len(),
            ),
    {
        let length = self.writer.get_bytes_written();
        RawOutput.write_raw_i32(&mut self.writer, codes::FOOTER_MAGIC as i32)?;
        RawOutput.write_raw_i32(&mut self.writer, length as i32)?;
        let checksum: i32 = 0;
        RawOutput.write_raw_i32(&mut self.writer, checksum)?;
        proof {
            let m = (codes::FOOTER_MAGIC as i32) as i64;
            assert(m as u8 == 0xCF && (m >> 8) as u8 == 0xCF && ((m >> 8) >> 8) as u8 == 0xCF && (((m
                >> 8) >> 8) >> 8) as u8 == 0xCF) by (bit_vector)
                requires
                    m == (0xCFCFCFCFi64 as i32) as i64,
            ;
            let z = 0i64;
            assert(z as u8 == 0 && (z >> 8) as u8 == 0 && ((z >> 8) >> 8) as u8 == 0 && (((z >> 8)
                >> 8) >> 8) as u8 == 0) by (bit_vector)
                requires
                    z == 0,
            ;
            reveal_with_fuel(be_bytes, 5);
            assert(self.written() =~= old(self).written() + footer_encoding(
                old(self).written().len(),
            ));
        }
        Ok(())
    }

    /// How many bytes have been written.
    pub fn get_bytes_written(&self) -> (n: u64)
        requires
            self.wf(),
        ensures
            n == self.written().len(),
    {
        self.writer.get_bytes_written()
    }

    pub fn write_code(&mut self, code: u8) -> (r: Result<()>)
        requires
            old(self).wf(),
        ensures
            r is Ok,
            final(self).wf(),
            final(self).cache() == old(self).cache(),
            final(self).written() == old(self).written().push(code),
    {
        RawOutput.write_code(&mut self.writer, code)
    }

    pub fn write_count(&mut self, count: usize) -> (r: Result<()>)
        requires
            old(self).wf(),
        ensures
            r is Ok,
            final(self).wf(),
            final(self).cache() == old(self).cache(),
            final(self).written() == old(self).written() + int_encoding(count as i64),
    {
        RawOutput.write_int(&mut self.writer, count as i64)
    }

    pub fn write_int(&mut self, i: i64) -> (r: Result<()>)
        requires
            old(self).wf(),
        ensures
            r is Ok,
            final(self).wf(),
            final(self).cache() == old(self).cache(),
            final(self).written() == old(self).written() + int_encoding(i),
    {
        RawOutput.write_int(&mut self.writer, i)
    }

    pub fn write_null(&mut self) -> (r: Result<()>)
        requires
            old(self).wf(),
        ensures
            r is Ok,
            final(self).wf(),
            final(self).cache() == old(self).cache(),
            final(self).written() == old(self).written().push(codes::NULL),
    {
        RawOutput.write_null(&mut self.writer)
    }

    pub fn write_boolean(&mut self, b: bool) -> (r: Result<()>)
        requires
            old(self).wf(),
        ensures
            r is Ok,
            final(self).wf(),
            final(self).cache() == old(self).cache(),
            final(self).written() == old(self).written() + boolean_encoding(b),
    {
        RawOutput.write_boolean(&mut self.writer, b)
    }

    pub fn write_bytes(&mut self, bytes: &[u8], offset: usize, length: usize) -> (r: Result<()>)
        requires
            old(self).wf(),
            offset + length <= bytes@.len(),
        ensures
            r is Ok,
            final(self).wf(),
            final(self).cache() == old(self).cache(),
            final(self).written() == old(self).written() + bytes_encoding(
                bytes@.subrange(offset as int, offset + length),
            ),
    {
        RawOutput.write_bytes(&mut self.writer, bytes, offset, length)
    }

    pub fn write_string(&mut self, s: &str) -> (r: Result<()>)
        requires
            old(self).wf(),
            3 * encode_utf8(s@).len() <= usize::MAX,
        ensures
            r is Ok,
            final(self).wf(),
            final(self).cache() == old(self).cache(),
            final(self).written() == old(self).written() + string_encoding(s@),
    {
        RawOutput.write_string(&mut self.writer, s)
    }

    /// Writes a string in standard UTF-8, under the `UTF8` code.
    pub fn write_raw_utf8(&mut self, s: &str) -> (r: Result<()>)
        requires
            old(self).wf(),
        ensures
            r is Ok,
            final(self).wf(),
            final(self).cache() == old(self).cache(),
            final(self).written() == old(self).written() + utf8_string_encoding(s@),
    {
        RawOutput.write_raw_utf8(&mut self.writer, s)
    }

    pub fn begin_open_list(&mut self) -> (r: Result<()>)
        requires
            old(self).wf(),
        ensures
            r is Ok,
            final(self).wf(),
            final(self).cache() == old(self).cache(),
            final(self).written() == old(self).written().push(codes::BEGIN_OPEN_LIST),
    {
        self.write_code(codes::BEGIN_OPEN_LIST)
    }

    pub fn begin_closed_list(&mut self) -> (r: Result<()>)
        requires
            old(self).wf(),
        ensures
            r is Ok,
            final(self).wf(),
            final(self).cache() == old(self).cache(),
            final(self).written() == old(self).written().push(codes::BEGIN_CLOSED_LIST),
    {
        self.write_code(codes::BEGIN_CLOSED_LIST)
    }

    pub fn end_list(&mut self) -> (r: Result<()>)
        requires
            old(self).wf(),
        ensures
            r is Ok,
            final(self).wf(),
            final(self).cache() == old(self).cache(),
            final(self).written() == old(self).written().push(codes::END_COLLECTION),
    {
        self.write_code(codes::END_COLLECTION)
    }

    pub fn write_list_header(&mut self, length: usize) -> (r: Result<()>)
        requires
            old(self).wf(),
        ensures
            r is Ok,
            final(self).wf(),
            final(self).cache() == old(self).cache(),
            final(self).written() == old(self).written() + list_header(length),
    {
        let ghost start = self.written();
        if length < ranges::LIST_PACKED_LENGTH_END as usize {
            let r = self.write_code(codes::LIST_PACKED_LENGTH_START + length as u8);
            assert(self.written() =~= start + list_header(length));
            r
        } else {
            self.write_code(codes::LIST)?;
            self.write_count(length)?;
            assert(self.written() =~= start + list_header(length));
            Ok(())
        }
    }

    /// Writes a float, given by its IEEE-754 bits.
    pub fn write_float(&mut self, bits: u32) -> (r: Result<()>)
        requires
            old(self).wf(),
        ensures
            r is Ok,
            final(self).wf(),
            final(self).cache() == old(self).cache(),
            final(self).written() == old(self).written() + float_encoding(bits),
    {
        RawOutput.write_float(&mut self.writer, bits)
    }

    /// Writes a double, given by its IEEE-754 bits.
    pub fn write_double(&mut self, bits: u64) -> (r: Result<()>)
        requires
            old(self).wf(),
        ensures
            r is Ok,
            final(self).wf(),
            final(self).cache() == old(self).cache(),
            final(self).written() == old(self).written() + double_encoding(bits),
    {
        RawOutput.write_double(&mut self.writer, bits)
    }

    /// Writes a string where values are cached.
    pub fn write_cached_string(&mut self, s: &str) -> (r: Result<()>)
        requires
            old(self).wf(),
            3 * encode_utf8(s@).len() <= usize::MAX,
        ensures
            r is Ok,
            final(self).wf(),
            final(self).written() == old(self).written() + cached_string_encoding(s@, old(self).cache()),
            final(self).cache() == cached_string_cache(s@, old(self).cache()),
    {
        let ghost start = self.written();
        let ghost cache0 = self.cache();
        if s.is_empty() {
            return self.write_string(s);
        }
        let ghost h = default_hash_of(s@);
        match self.cache.intern(s) {
            Some(index) => {
                proof {
                    assert(first_occurrence(cache0, h, index as int));
                    assert(cache_index(cache0, h) == index) by {
                        let j = cache_index(cache0, h);
                        assert(first_occurrence(cache0, h, j));
                        if j < index {
                            assert(cache0[j] == h);
                        } else if j > index {
                            assert(cache0[index as int] == h);
                        }
                    }
                }
                if index < ranges::PRIORITY_CACHE_PACKED_END as usize {
                    let r = self.write_code(codes::PRIORITY_CACHE_PACKED_START + index as u8);
                    assert(self.written() =~= start + cached_string_encoding(s@, cache0));
                    r
                } else {
                    self.write_code(codes::GET_PRIORITY_CACHE)?;
                    proof {
                        assert(index <= usize::MAX);
                    }
                    let r = self.write_int(index as i64);
                    assert(self.written() =~= start + cached_string_encoding(s@, cache0));
                    r
                }
            },
            None => {
                self.write_code(codes::PUT_PRIORITY_CACHE)?;
                let r = self.write_string(s);
                assert(self.written() =~= start + cached_string_encoding(s@, cache0));
                r
            },
        }
    }

}

/// How a list that is being written was opened, and so how it is closed: a list with
/// a known length needs no end marker; a closed or an open list ends with
/// `END_COLLECTION`.
#[derive(Clone, Copy, PartialEq, Eq, Structural, Debug)]
pub enum ListType {
    Fixed,
    Closed,
    Open,
}

/// What closing a list of the given kind writes.
pub open spec fn list_end(list_type: ListType) -> Seq<u8> {
    match list_type {
        ListType::Fixed => Seq::empty(),
        _ => seq![codes::END_COLLECTION],
    }
}

impl<W: IWriteBytes> Serializer<W> {
    /// Closes a list of the given kind.
    pub fn end_compound(&mut self, list_type: ListType) -> (r: Result<()>)
        requires
            old(self).wf(),
        ensures
            r is Ok,
            final(self).wf(),
            final(self).cache() == old(self).cache(),
            final(self).written() == old(self).written() + list_end(list_type),
    {
        match list_type {
            ListType::Fixed => {
                assert(self.written() =~= old(self).written() + list_end(list_type));
                Ok(())
            },
            _ => self.end_list(),
        }
    }

    /// Writes an unsigned integer, which Fressian holds as a signed 64-bit one: one
    /// above `i64::MAX` is refused with `IntTooLargeFori64`.
    pub fn write_u64(&mut self, v: u64) -> (r: Result<()>)
        requires
            old(self).wf(),
        ensures
            final(self).wf(),
            final(self).cache() == old(self).cache(),
            v <= i64::MAX ==> (r is Ok && final(self).written() == old(self).written() + int_encoding(v as i64)),
            v > i64::MAX ==> (r matches Err(e) && e.err.code is IntTooLargeFori64
                && e.err.position == old(self).written().len() as usize
                && final(self).written() == old(self).written()),
    {
        if (i64::MAX as u64) < v {
            error(self, ErrorCode::IntTooLargeFori64)
        } else {
            self.write_int(v as i64)
        }
    }

    /// Writes `items` as a list: its header, then the items.
    pub fn write_list<T: Encode>(&mut self, items: &[T]) -> (r: Result<()>)
        requires
            old(self).wf(),
            forall|k: int| 0 <= k < items@.len() ==> #[trigger] items@[k].encodable(),
        ensures
            r is Ok,
            final(self).wf(),
            appends(old(self).written(), final(self).written()),
            list_encodes(
                items@,
                old(self).cache(),
                final(self).written().skip(old(self).written().len() as int),
                final(self).cache(),
            ),
    {
        let ghost start = self.written();
        self.write_list_header(items.len())?;
        let ghost mid = self.written();
        encode_all(items, self)?;
        proof {
            lemma_appended(start, list_header(items@.len() as usize));
            lemma_header_then(start, mid, self.written(), list_header(items@.len() as usize));
        }
        Ok(())
    }

    /// Writes `items` as a set: `SET`, then the items as a list.
    pub fn write_set<T: Encode>(&mut self, items: &[T]) -> (r: Result<()>)
        requires
            old(self).wf(),
            forall|k: int| 0 <= k < items@.len() ==> #[trigger] items@[k].encodable(),
        ensures
            r is Ok,
            final(self).wf(),
            appends(old(self).written(), final(self).written()),
            final(self).written().skip(old(self).written().len() as int).len() >= 1,
            final(self).written().skip(old(self).written().len() as int)[0] == codes::SET,
            list_encodes(
                items@,
                old(self).cache(),
                final(self).written().skip(old(self).written().len() as int).skip(1),
                final(self).cache(),
            ),
    {
        let ghost start = self.written();
        self.write_code(codes::SET)?;
        let ghost mid = self.written();
        self.write_list(items)?;
        proof {
            assert(mid =~= start + seq![codes::SET]);
            lemma_header_then(start, mid, self.written(), seq![codes::SET]);
            assert(self.written().skip(start.len() as int).take(1)[0] == seq![codes::SET][0]);
        }
        Ok(())
    }

    /// Writes the pairs of `entries` as a map: `MAP`, the header of a list twice as long,
    /// then each key followed by its value.
    pub fn write_map<K: Encode, V: Encode>(&mut self, keys: &[K], values: &[V]) -> (r: Result<()>)
        requires
            old(self).wf(),
            keys@.len() == values@.len(),
            2 * keys@.len() <= usize::MAX,
            forall|k: int| 0 <= k < keys@.len() ==> #[trigger] keys@[k].encodable(),
            forall|k: int| 0 <= k < values@.len() ==> #[trigger] values@[k].encodable(),
        ensures
            r is Ok,
            final(self).wf(),
            appends(old(self).written(), final(self).written()),
            map_encodes(
                keys@,
                values@,
                old(self).cache(),
                final(self).written().skip(old(self).written().len() as int),
                final(self).cache(),
            ),
    {
        let ghost start = self.written();
        let ghost cache0 = self.cache();
        self.write_code(codes::MAP)?;
        self.write_list_header(2 * keys.len())?;
        let ghost mid = self.written();
        proof {
            let h = seq![codes::MAP] + list_header((2 * keys@.len()) as usize);
            assert(mid =~= start + h);
            assert(mid.take(mid.len() as int) =~= mid);
            assert(mid.skip(mid.len() as int) =~= Seq::<u8>::empty());
        }
        let mut i: usize = 0;
        while i < keys.len()
            invariant
                i <= keys@.len(),
                keys@.len() == values@.len(),
                self.wf(),
                forall|k: int| 0 <= k < keys@.len() ==> #[trigger] keys@[k].encodable(),
                forall|k: int| 0 <= k < values@.len() ==> #[trigger] values@[k].encodable(),
                appends(mid, self.written()),
                pairs_encode(
                    keys@.take(i as int),
                    values@.take(i as int),
                    cache0,
                    self.written().skip(mid.len() as int),
                    self.cache(),
                ),
            decreases keys@.len() - i,
        {
            let ghost before = self.written();
            let ghost cache_before = self.cache();
            keys[i].encode(self)?;
            let ghost between = self.written();
            let ghost cache_between = self.cache();
            values[i].encode(self)?;
            proof {
                lemma_appends_step(mid, before, between);
                lemma_appends_step(mid, between, self.written());
                lemma_appends_step(before, between, self.written());
                let bytes = self.written().skip(mid.len() as int);
                let k1 = before.len() - mid.len();
                let k2 = between.len() - mid.len();
                assert(bytes.take(k1) == before.skip(mid.len() as int));
                assert(bytes.skip(k1).take(k2 - k1) == between.skip(before.len() as int));
                assert(bytes.skip(k1).skip(k2 - k1) == self.written().skip(between.len() as int));
                let ks = keys@.take(i + 1);
                let vs = values@.take(i + 1);
                assert(ks.drop_last() =~= keys@.take(i as int));
                assert(vs.drop_last() =~= values@.take(i as int));
                assert(ks.last() == keys@[i as int]);
                assert(vs.last() == values@[i as int]);
                assert(pairs_encode(ks.drop_last(), vs.drop_last(), cache0, bytes.take(k1), cache_before));
                assert(ks.last().encodes(cache_before, bytes.skip(k1).take(k2 - k1), cache_between));
                assert(vs.last().encodes(cache_between, bytes.skip(k1).skip(k2 - k1), self.cache()));
                assert(pairs_encode(ks, vs, cache0, bytes, self.cache()));
            }
            i = i + 1;
        }
        proof {
            assert(keys@.take(i as int) =~= keys@);
            assert(values@.take(i as int) =~= values@);
            let h = seq![codes::MAP] + list_header((2 * keys@.len()) as usize);
            lemma_header_then(start, mid, self.written(), h);
        }
        Ok(())
    }
}

/// Key-value pairs written one after the other, each key before its value, the cache
/// passing along.
pub open spec fn pairs_encode<K: Encode, V: Encode>(
    keys: Seq<K>,
    values: Seq<V>,
    cache: Seq<u64>,
    bytes: Seq<u8>,
    after: Seq<u64>,
) -> bool
    decreases keys.len(),
{
    if keys.len() == 0 || values.len() == 0 {
        keys.len() == values.len() && bytes.len() == 0 && after == cache
    } else {
        exists|k1: int, k2: int, mid1: Seq<u64>, mid2: Seq<u64>|
            0 <= k1 <= k2 <= bytes.len() && pairs_encode(keys.drop_last(), values.drop_last(), cache, bytes.take(k1), mid1)
                && #[trigger] keys.last().encodes(mid1, bytes.skip(k1).take(k2 - k1), mid2)
                && #[trigger] values.last().encodes(mid2, bytes.skip(k1).skip(k2 - k1), after)
    }
}

/// A map: `MAP`, the header of a list of twice as many items as pairs, then the pairs.
pub open spec fn map_encodes<K: Encode, V: Encode>(
    keys: Seq<K>,
    values: Seq<V>,
    cache: Seq<u64>,
    bytes: Seq<u8>,
    after: Seq<u64>,
) -> bool {
    let h = seq![codes::MAP] + list_header((2 * keys.len()) as usize);
    &&& bytes.len() >= h.len()
    &&& bytes.take(h.len() as int) == h
    &&& pairs_encode(keys, values, cache, bytes.skip(h.len() as int), after)
}

/// What the writer does with a value wrapped under a name: a Fressian type's name
/// gives the code written in front of the value, either plainly or (for a typed array)
/// with its items counted; `OBJECT_ARRAY` is refused; any other name is ignored.
#[derive(Clone, Copy, PartialEq, Eq, Structural, Debug)]
pub enum NewtypeKind {
    Tagged(u8),
    TypedArray(u8),
    Unsupported,
    Plain,
}

/// The kind of a wrapper name.
pub open spec fn newtype_kind_of(name: Seq<char>) -> NewtypeKind {
    if name == "SET"@ {
        NewtypeKind::Tagged(codes::SET)
    } else if name == "INST"@ {
        NewtypeKind::Tagged(codes::INST)
    } else if name == "UUID"@ {
        NewtypeKind::Tagged(codes::UUID)
    } else if name == "URI"@ {
        NewtypeKind::Tagged(codes::URI)
    } else if name == "REGEX"@ {
        NewtypeKind::Tagged(codes::REGEX)
    } else if name == "INT_ARRAY"@ {
        NewtypeKind::TypedArray(codes::INT_ARRAY)
    } else if name == "LONG_ARRAY"@ {
        NewtypeKind::TypedArray(codes::LONG_ARRAY)
    } else if name == "FLOAT_ARRAY"@ {
        NewtypeKind::TypedArray(codes::FLOAT_ARRAY)
    } else if name == "DOUBLE_ARRAY"@ {
        NewtypeKind::TypedArray(codes::DOUBLE_ARRAY)
    } else if name == "BOOLEAN_ARRAY"@ {
        NewtypeKind::TypedArray(codes::BOOLEAN_ARRAY)
    } else if name == "OBJECT_ARRAY"@ {
        NewtypeKind::Unsupported
    } else {
        NewtypeKind::Plain
    }
}

/// The kind of a wrapper name.
pub fn newtype_kind(name: &str) -> (k: NewtypeKind)
    ensures
        k == newtype_kind_of(name@),
{
    if same_text(name, "SET") {
        NewtypeKind::Tagged(codes::SET)
    } else if same_text(name, "INST") {
        NewtypeKind::Tagged(codes::INST)
    } else if same_text(name, "UUID") {
        NewtypeKind::Tagged(codes::UUID)
    } else if same_text(name, "URI") {
        NewtypeKind::Tagged(codes::URI)
    } else if same_text(name, "REGEX") {
        NewtypeKind::Tagged(codes::REGEX)
    } else if same_text(name, "INT_ARRAY") {
        NewtypeKind::TypedArray(codes::INT_ARRAY)
    } else if same_text(name, "LONG_ARRAY") {
        NewtypeKind::TypedArray(codes::LONG_ARRAY)
    } else if same_text(name, "FLOAT_ARRAY") {
        NewtypeKind::TypedArray(codes::FLOAT_ARRAY)
    } else if same_text(name, "DOUBLE_ARRAY") {
        NewtypeKind::TypedArray(codes::DOUBLE_ARRAY)
    } else if same_text(name, "BOOLEAN_ARRAY") {
        NewtypeKind::TypedArray(codes::BOOLEAN_ARRAY)
    } else if same_text(name, "OBJECT_ARRAY") {
        NewtypeKind::Unsupported
    } else {
        NewtypeKind::Plain
    }
}

/// Whether a tuple struct's name marks a symbol (`SYM`) or a keyword (`KEY`), whose
/// fields the writer caches: the code written in front of the fields.
pub fn named_code(name: &str) -> (r: Option<u8>)
    ensures
        name@ == "SYM"@ ==> r == Some(codes::SYM),
        name@ != "SYM"@ && name@ == "KEY"@ ==> r == Some(codes::KEY),
        name@ != "SYM"@ && name@ != "KEY"@ ==> r is None,
{
    if same_text(name, "SYM") {
        Some(codes::SYM)
    } else if same_text(name, "KEY") {
        Some(codes::KEY)
    } else {
        None
    }
}

/// How the writer frames a value wrapped in an enum's variant: `Ok` of a `Result` as
/// the bare value, `Err` of a `Result` behind the `ERROR` code; any other variant of a
/// `Result` is refused; a variant of any other enum as a list of two, the variant's
/// name and the value.
#[derive(Clone, Copy, PartialEq, Eq, Structural, Debug)]
pub enum VariantForm {
    Bare,
    Tagged(u8),
    Refused,
    Pair,
}

/// How a value wrapped in the variant `variant` of the enum `name` is framed.
pub fn newtype_variant_form(name: &str, variant: &str) -> (f: VariantForm)
    ensures
        name@ == "Result"@ && variant@ == "Ok"@ ==> f == VariantForm::Bare,
        name@ == "Result"@ && variant@ != "Ok"@ && variant@ == "Err"@ ==> f == VariantForm::Tagged(codes::ERROR),
        name@ == "Result"@ && variant@ != "Ok"@ && variant@ != "Err"@ ==> f == VariantForm::Refused,
        name@ != "Result"@ ==> f == VariantForm::Pair,
{
    if same_text(name, "Result") {
        if same_text(variant, "Ok") {
            VariantForm::Bare
        } else if same_text(variant, "Err") {
            VariantForm::Tagged(codes::ERROR)
        } else {
            VariantForm::Refused
        }
    } else {
        VariantForm::Pair
    }
}

/// A value that the Fressian writer can write. `encodes(cache, bytes, after)` says that
/// writing it when the priority cache holds `cache` may append `bytes` and leave the
/// cache as `after`. For most values exactly one such pair exists; for a `HashSet`
/// the items may come in any order.
pub trait Encode {
    /// Whether the value is within the writer's size limits.
    spec fn encodable(&self) -> bool;

    spec fn encodes(&self, cache: Seq<u64>, bytes: Seq<u8>, after: Seq<u64>) -> bool;

    fn encode<W: IWriteBytes>(&self, ser: &mut Serializer<W>) -> (r: Result<()>)
        requires
            old(ser).wf(),
            self.encodable(),
        ensures
            r is Ok,
            final(ser).wf(),
            appends(old(ser).written(), final(ser).written()),
            self.encodes(
                old(ser).cache(),
                final(ser).written().skip(old(ser).written().len() as int),
                final(ser).cache(),
            ),
    ;
}

/// `after` is `before` followed by more bytes.
pub open spec fn appends(before: Seq<u8>, after: Seq<u8>) -> bool {
    after.len() >= before.len() && after.take(before.len() as int) == before
}

/// `items` written one after the other, the cache passing from each to the next, may
/// append `bytes` and leave the cache as `after`.
pub open spec fn seq_encodes<T: Encode>(items: Seq<T>, cache: Seq<u64>, bytes: Seq<u8>, after: Seq<u64>) -> bool
    decreases items.len(),
{
    if items.len() == 0 {
        bytes.len() == 0 && after == cache
    } else {
        exists|k: int, mid: Seq<u64>|
            0 <= k <= bytes.len() && seq_encodes(items.drop_last(), cache, bytes.take(k), mid)
                && #[trigger] items.last().encodes(mid, bytes.skip(k), after)
    }
}

pub proof fn lemma_appends_step(a: Seq<u8>, b: Seq<u8>, c: Seq<u8>)
    requires
        appends(a, b),
        appends(b, c),
    ensures
        appends(a, c),
        c.skip(a.len() as int).take(b.len() - a.len()) == b.skip(a.len() as int),
        c.skip(a.len() as int).skip(b.len() - a.len()) == c.skip(b.len() as int),
{
    assert(c.take(a.len() as int) =~= b.take(a.len() as int));
    assert(c.skip(a.len() as int).take(b.len() - a.len()) =~= b.skip(a.len() as int));
    assert(c.skip(a.len() as int).skip(b.len() - a.len()) =~= c.skip(b.len() as int));
}

/// Writes `items` one after the other.
pub fn encode_all<T: Encode, W: IWriteBytes>(items: &[T], ser: &mut Serializer<W>) -> (r: Result<()>)
    requires
        old(ser).wf(),
        forall|k: int| 0 <= k < items@.len() ==> #[trigger] items@[k].encodable(),
    ensures
        r is Ok,
        final(ser).wf(),
        appends(old(ser).written(), final(ser).written()),
        seq_encodes(
            items@,
            old(ser).cache(),
            final(ser).written().skip(old(ser).written().len() as int),
            final(ser).cache(),
        ),
{
    let ghost start = ser.written();
    let ghost cache0 = ser.cache();
    let mut i: usize = 0;
    assert(start.take(start.len() as int) =~= start);
    assert(start.skip(start.len() as int) =~= Seq::<u8>::empty());
    assert(items@.take(0) =~= Seq::<T>::empty());
    while i < items.len()
        invariant
            i <= items@.len(),
            ser.wf(),
            forall|k: int| 0 <= k < items@.len() ==> #[trigger] items@[k].encodable(),
            appends(start, ser.written()),
            seq_encodes(items@.take(i as int), cache0, ser.written().skip(start.len() as int), ser.cache()),
        decreases items@.len() - i,
    {
        let ghost before = ser.written();
        let ghost cache_before = ser.cache();
        items[i].encode(ser)?;
        proof {
            lemma_appends_step(start, before, ser.written());
            let t = items@.take(i + 1);
            let bytes = ser.written().skip(start.len() as int);
            let k = before.len() - start.len();
            assert(t.drop_last() =~= items@.take(i as int));
            assert(t.last() == items@[i as int]);
            assert(bytes.take(k) == before.skip(start.len() as int));
            assert(bytes.skip(k) == ser.written().skip(before.len() as int));
            assert(seq_encodes(t.drop_last(), cache0, bytes.take(k), cache_before));
            assert(t.last().encodes(cache_before, bytes.skip(k), ser.cache()));
            assert(seq_encodes(t, cache0, bytes, ser.cache()));
        }
        i = i + 1;
    }
    assert(items@.take(i as int) =~= items@);
    Ok(())
}

/// A value written as `bytes` whatever the cache, leaving the cache as it was.
pub open spec fn plain(cache: Seq<u64>, bytes: Seq<u8>, after: Seq<u64>, expected: Seq<u8>) -> bool {
    bytes == expected && after == cache
}

impl Encode for i64 {
    open spec fn encodable(&self) -> bool {
        true
    }

    open spec fn encodes(&self, cache: Seq<u64>, bytes: Seq<u8>, after: Seq<u64>) -> bool {
        plain(cache, bytes, after, int_encoding(*self))
    }

    fn encode<W: IWriteBytes>(&self, ser: &mut Serializer<W>) -> (r: Result<()>) {
        let ghost start = ser.written();
        ser.write_int(*self)?;
        proof { lemma_appended(start, int_encoding(*self)); }
        Ok(())
    }
}

impl Encode for i32 {
    open spec fn encodable(&self) -> bool {
        true
    }

    open spec fn encodes(&self, cache: Seq<u64>, bytes: Seq<u8>, after: Seq<u64>) -> bool {
        plain(cache, bytes, after, int_encoding(*self as i64))
    }

    fn encode<W: IWriteBytes>(&self, ser: &mut Serializer<W>) -> (r: Result<()>) {
        let ghost start = ser.written();
        ser.write_int(*self as i64)?;
        proof { lemma_appended(start, int_encoding(*self as i64)); }
        Ok(())
    }
}

impl Encode for bool {
    open spec fn encodable(&self) -> bool {
        true
    }

    open spec fn encodes(&self, cache: Seq<u64>, bytes: Seq<u8>, after: Seq<u64>) -> bool {
        plain(cache, bytes, after, boolean_encoding(*self))
    }

    fn encode<W: IWriteBytes>(&self, ser: &mut Serializer<W>) -> (r: Result<()>) {
        let ghost start = ser.written();
        ser.write_boolean(*self)?;
        proof { lemma_appended(start, boolean_encoding(*self)); }
        Ok(())
    }
}

impl Encode for String {
    open spec fn encodable(&self) -> bool {
        3 * encode_utf8(self@).len() <= usize::MAX
    }

    open spec fn encodes(&self, cache: Seq<u64>, bytes: Seq<u8>, after: Seq<u64>) -> bool {
        plain(cache, bytes, after, string_encoding(self@))
    }

    fn encode<W: IWriteBytes>(&self, ser: &mut Serializer<W>) -> (r: Result<()>) {
        let ghost start = ser.written();
        ser.write_string(self.as_str())?;
        proof { lemma_appended(start, string_encoding(self@)); }
        Ok(())
    }
}

/// `None` is written as `NULL`; `Some(v)` as `v`.
impl<T: Encode> Encode for Option<T> {
    open spec fn encodable(&self) -> bool {
        match self {
            Some(v) => v.encodable(),
            None => true,
        }
    }

    open spec fn encodes(&self, cache: Seq<u64>, bytes: Seq<u8>, after: Seq<u64>) -> bool {
        match self {
            Some(v) => v.encodes(cache, bytes, after),
            None => plain(cache, bytes, after, seq![codes::NULL]),
        }
    }

    fn encode<W: IWriteBytes>(&self, ser: &mut Serializer<W>) -> (r: Result<()>) {
        let ghost start = ser.written();
        match self {
            Some(v) => v.encode(ser),
            None => {
                ser.write_null()?;
                proof {
                    assert(ser.written() =~= start + seq![codes::NULL]);
                    lemma_appended(start, seq![codes::NULL]);
                }
                Ok(())
            },
        }
    }
}

/// A sequence of items is written as a list: its header, then its items.
pub open spec fn list_encodes<T: Encode>(items: Seq<T>, cache: Seq<u64>, bytes: Seq<u8>, after: Seq<u64>) -> bool {
    let h = list_header(items.len() as usize);
    &&& bytes.len() >= h.len()
    &&& bytes.take(h.len() as int) == h
    &&& seq_encodes(items, cache, bytes.skip(h.len() as int), after)
}

impl<T: Encode> Encode for Vec<T> {
    open spec fn encodable(&self) -> bool {
        forall|k: int| 0 <= k < self@.len() ==> #[trigger] self@[k].encodable()
    }

    open spec fn encodes(&self, cache: Seq<u64>, bytes: Seq<u8>, after: Seq<u64>) -> bool {
        list_encodes(self@, cache, bytes, after)
    }

    fn encode<W: IWriteBytes>(&self, ser: &mut Serializer<W>) -> (r: Result<()>) {
        let ghost start = ser.written();
        ser.write_list_header(self.len())?;
        let ghost mid = ser.written();
        encode_all(self.as_slice(), ser)?;
        proof {
            lemma_appended(start, list_header(self@.len() as usize));
            lemma_header_then(start, mid, ser.written(), list_header(self@.len() as usize));
        }
        Ok(())
    }
}

/// Appending `extra` to `start` appends, and what was appended is `extra`.
pub proof fn lemma_appended(start: Seq<u8>, extra: Seq<u8>)
    ensures
        appends(start, start + extra),
        (start + extra).skip(start.len() as int) == extra,
{
    assert((start + extra).take(start.len() as int) =~= start);
    assert((start + extra).skip(start.len() as int) =~= extra);
}

/// After a header `h` and then more bytes, the bytes appended begin with `h` and go on
/// with the rest.
pub proof fn lemma_header_then(start: Seq<u8>, mid: Seq<u8>, end: Seq<u8>, h: Seq<u8>)
    requires
        mid == start + h,
        appends(mid, end),
    ensures
        appends(start, end),
        end.skip(start.len() as int).len() >= h.len(),
        end.skip(start.len() as int).take(h.len() as int) == h,
        end.skip(start.len() as int).skip(h.len() as int) == end.skip(mid.len() as int),
{
    assert(end.take(start.len() as int) =~= start) by {
        assert(end.take(mid.len() as int) == mid);
        assert forall|k: int| 0 <= k < start.len() implies end[k] == start[k] by {
            assert(end.take(mid.len() as int)[k] == mid[k]);
        }
    }
    assert(end.skip(start.len() as int).take(h.len() as int) =~= h) by {
        assert forall|k: int| 0 <= k < h.len() implies end[start.len() + k] == h[k] by {
            assert(end.take(mid.len() as int)[start.len() + k] == mid[start.len() + k]);
        }
    }
    assert(end.skip(start.len() as int).skip(h.len() as int) =~= end.skip(mid.len() as int));
}

/// Writing `value` with an empty cache may give `bytes`.
pub open spec fn encodes_from_empty<T: Encode>(value: &T, bytes: Seq<u8>) -> bool {
    exists|after: Seq<u64>| value.encodes(Seq::empty(), bytes, after)
}

/// Writes `value` into a fresh buffer and returns the bytes.
pub fn to_vec<T: Encode>(value: &T) -> (r: Result<Vec<u8>>)
    requires
        value.encodable(),
    ensures
        r matches Ok(v) && encodes_from_empty(value, v@),
{
    let buf: Vec<u8> = Vec::with_capacity(100);
    let mut serializer = Serializer::from_vec(buf);
    value.encode(&mut serializer)?;
    let v = serializer.to_vec();
    assert(v@.skip(0) =~= v@);
    assert(value.encodes(Seq::empty(), v@, serializer.cache()));
    assert(encodes_from_empty(value, v@));
    Ok(v)
}

/// `bytes` are what writing `value` with an empty cache may give, then the footer.
pub open spec fn encodes_with_footer<T: Encode>(value: &T, bytes: Seq<u8>) -> bool {
    exists|n: int|
        0 <= n <= bytes.len() && #[trigger] encodes_from_empty(value, bytes.take(n)) && bytes.skip(n)
            == footer_encoding(n as nat)
}

/// Writes `value` and a footer into a fresh buffer and returns the bytes.
pub fn to_vec_footer<T: Encode>(value: &T) -> (r: Result<Vec<u8>>)
    requires
        value.encodable(),
    ensures
        r matches Ok(v) && encodes_with_footer(value, v@),
{
    let buf: Vec<u8> = Vec::with_capacity(100);
    let mut serializer = Serializer::from_vec(buf);
    value.encode(&mut serializer)?;
    let ghost body = serializer.written();
    let ghost after = serializer.cache();
    serializer.write_footer()?;
    let v = serializer.to_vec();
    proof {
        let n = body.len() as int;
        assert(body.skip(0) =~= body);
        assert(v@.take(n) =~= body);
        assert(v@.skip(n) =~= footer_encoding(n as nat));
        assert(value.encodes(Seq::empty(), body.skip(0), after));
        assert(value.encodes(Seq::empty(), v@.take(n), after));
        assert(encodes_from_empty(value, v@.take(n)));
        assert(encodes_with_footer(value, v@));
    }
    Ok(v)
}

} // verus!
