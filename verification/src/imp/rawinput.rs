//! Reads Fressian values out of a `ByteReader`. `RawInput` has no state of its own.

use vstd::prelude::*;
use crate::error::{Error, ErrorCode, Result};
use crate::imp::io::ByteReader;
use crate::imp::codes;
use crate::imp::mutf8::{mutf8_decode, utf16_decode, decode_mutf8, string_from_utf16, str_from_utf8};
use vstd::utf8::{valid_utf8, decode_utf8};

verus! {

/// The unsigned big-endian value of `bytes`.
pub open spec fn be_uint(bytes: Seq<u8>) -> nat
    decreases bytes.len(),
{
    if bytes.len() == 0 {
        0
    } else {
        (be_uint(bytes.drop_last()) * 256 + bytes.last()) as nat
    }
}

/// What a read of `n` bytes whose value is `value` does: with `n` bytes left it yields
/// `value` and moves past them; with fewer it fails with `Eof` at the end of the input,
/// having consumed what was left.
pub open spec fn read_outcome<T>(
    before: ByteReader,
    after: ByteReader,
    n: nat,
    r: Result<T>,
    value: T,
) -> bool {
    &&& after.input() == before.input()
    &&& after.wf()
    &&& if before.remaining().len() >= n {
        &&& r matches Ok(v) && v == value
        &&& after.position() == before.position() + n
    } else {
        &&& r matches Err(e) && e.err.code is Eof && e.err.position == before.input().len()
        &&& after.position() == before.input().len()
    }
}

proof fn lemma_be_uint_take(s: Seq<u8>, n: int)
    requires
        0 <= n < s.len(),
    ensures
        be_uint(s.take(n + 1)) == be_uint(s.take(n)) * 256 + s[n],
{
    assert(s.take(n + 1).drop_last() =~= s.take(n));
}

proof fn lemma_be_uint_empty(s: Seq<u8>)
    ensures
        be_uint(s.take(0)) == 0,
{
    assert(s.take(0) =~= Seq::<u8>::empty());
}

/// The number of bytes that follow an integer code; `None` when the code starts no integer.
pub open spec fn int_tail_len(code: u8) -> Option<nat> {
    if code == 0xFF || code <= 0x3F {
        Some(0)
    } else if code <= 0x5F {
        Some(1)
    } else if code <= 0x6F {
        Some(2)
    } else if code <= 0x73 {
        Some(3)
    } else if code <= 0x77 {
        Some(4)
    } else if code <= 0x7B {
        Some(5)
    } else if code <= 0x7F {
        Some(6)
    } else if code == codes::INT {
        Some(8)
    } else {
        None
    }
}

/// The integer that `code` and the bytes after it stand for.
pub open spec fn int_value(code: u8, tail: Seq<u8>) -> i64 {
    if code == 0xFF {
        -1i64
    } else if code <= 0x3F {
        code as i64
    } else if code <= 0x5F {
        ((code - 0x50) * 0x100 + be_uint(tail)) as i64
    } else if code <= 0x6F {
        ((code - 0x68) * 0x10000 + be_uint(tail)) as i64
    } else if code <= 0x73 {
        ((code - 0x72) * 0x1000000 + be_uint(tail)) as i64
    } else if code <= 0x77 {
        ((code - 0x76) * 0x100000000 + be_uint(tail)) as i64
    } else if code <= 0x7B {
        ((code - 0x7A) * 0x10000000000 + be_uint(tail)) as i64
    } else if code <= 0x7F {
        ((code - 0x7E) * 0x1000000000000 + be_uint(tail)) as i64
    } else {
        be_uint(tail) as i64
    }
}

/// `bytes` start with a complete integer.
pub open spec fn int_read_ok(bytes: Seq<u8>) -> bool {
    &&& bytes.len() > 0
    &&& int_tail_len(bytes[0]) is Some
    &&& bytes.len() >= 1 + int_tail_len(bytes[0])->0
}

/// The length of the integer at the start of `bytes`.
pub open spec fn int_read_len(bytes: Seq<u8>) -> nat {
    1 + int_tail_len(bytes[0])->0
}

/// The value of the integer at the start of `bytes`.
pub open spec fn int_read_value(bytes: Seq<u8>) -> i64 {
    int_value(bytes[0], bytes.subrange(1, int_read_len(bytes) as int))
}

/// What reading an integer does: the value and its length when `bytes` start with a
/// complete integer; `Expectedi64` just after a code that starts none; otherwise
/// `Eof` at the end of the input, all of it consumed.
pub open spec fn int_read_outcome<T>(
    before: ByteReader,
    after: ByteReader,
    r: Result<T>,
    value: T,
) -> bool {
    let rem = before.remaining();
    &&& after.input() == before.input()
    &&& after.wf()
    &&& if int_read_ok(rem) {
        &&& r matches Ok(v) && v == value
        &&& after.position() == before.position() + int_read_len(rem)
    } else {
        int_read_failure(before.input(), before.position(), after, r)
    }
}

/// How reading an integer at `pos` of `input` fails when no complete integer is there:
/// `Expectedi64` just after a code that starts none; otherwise `Eof` at the end of the
/// input, all of it consumed.
pub open spec fn int_read_failure<T>(input: Seq<u8>, pos: nat, after: ByteReader, r: Result<T>) -> bool {
    let rem = input.skip(pos as int);
    if rem.len() > 0 && int_tail_len(rem[0]) is None {
        &&& r matches Err(e) && e.err.code is Expectedi64 && e.err.position == pos + 1
        &&& after.position() == pos + 1
    } else {
        &&& r matches Err(e) && e.err.code is Eof && e.err.position == input.len()
        &&& after.position() == input.len()
    }
}

/// The count at `pos` of `input`, as the readers use it: the integer truncated to
/// 32 bits, then taken as a `usize`.
pub open spec fn count_at(input: Seq<u8>, pos: nat) -> nat {
    (int_read_value(input.skip(pos as int)) as i32 as usize) as nat
}

/// Where the bytes after the count at `pos` of `input` start.
pub open spec fn after_count(input: Seq<u8>, pos: nat) -> nat {
    pos + int_read_len(input.skip(pos as int))
}

/// What `ByteReader::read_bytes` does with `length` at `pos` of `input`.
pub open spec fn raw_bytes_outcome(
    input: Seq<u8>,
    pos: nat,
    after: ByteReader,
    length: nat,
    r: Result<&[u8]>,
) -> bool {
    &&& after.input() == input
    &&& after.wf()
    &&& if length == 0 {
        &&& r matches Err(e) && e.err.code is ExpectedNonZeroReadLength && e.err.position == pos
        &&& after.position() == pos
    } else if pos + length <= input.len() {
        &&& r matches Ok(s) && s@ == input.subrange(pos as int, (pos + length) as int)
        &&& after.position() == pos + length
    } else {
        &&& r matches Err(e) && e.err.code is Eof && e.err.position == pos
        &&& after.position() == pos
    }
}

/// What reading a byte array whose code is `code` does, the code having been read
/// from just before `pos`: a packed code `0xD0 + n` (up to `0xD8`) is followed by `n`
/// bytes; `BYTES` by a count and that many bytes. Any other code is refused.
pub open spec fn bytes_code_outcome(
    input: Seq<u8>,
    pos: nat,
    code: u8,
    after: ByteReader,
    r: Result<&[u8]>,
) -> bool {
    if codes::BYTES_PACKED_LENGTH_START <= code <= codes::BYTES_PACKED_LENGTH_END {
        raw_bytes_outcome(input, pos, after, (code - codes::BYTES_PACKED_LENGTH_START) as nat, r)
    } else if code == codes::BYTES {
        if int_read_ok(input.skip(pos as int)) {
            raw_bytes_outcome(input, after_count(input, pos), after, count_at(input, pos), r)
        } else {
            &&& after.input() == input
            &&& after.wf()
            &&& int_read_failure(input, pos, after, r)
        }
    } else {
        &&& r matches Err(e) && e.err.code is ExpectedBytesCode && e.err.position == pos
        &&& after.input() == input
        &&& after.position() == pos
    }
}

/// Parses the chunks of a chunked byte array whose first chunk's count is at `pos`:
/// each chunk is a count, that many bytes, and a code; `BYTES_CHUNK` announces another
/// chunk and `BYTES` ends the array. Gives the bytes of all chunks and the position
/// after the last code, or `None` where the input breaks off that shape.
pub open spec fn chunk_parse(input: Seq<u8>, pos: nat) -> Option<(Seq<u8>, nat)>
    decreases input.len() - pos,
{
    if !int_read_ok(input.skip(pos as int)) {
        None
    } else {
        let n = count_at(input, pos);
        let p = after_count(input, pos);
        if n == 0 || p + n + 1 > input.len() || p <= pos {
            None
        } else {
            let data = input.subrange(p as int, (p + n) as int);
            let code = input[(p + n) as int];
            if code == codes::BYTES_CHUNK {
                match chunk_parse(input, p + n + 1) {
                    Some(rest) => Some((data + rest.0, rest.1)),
                    None => None,
                }
            } else if code == codes::BYTES {
                Some((data, p + n + 1))
            } else {
                None
            }
        }
    }
}

/// The characters of a Fressian string body: modified UTF-8 decoded to UTF-16, then
/// UTF-16 decoded to characters.
pub open spec fn fressian_string_value(bytes: Seq<u8>) -> Option<Seq<char>> {
    match mutf8_decode(bytes) {
        Some(units) => utf16_decode(units),
        None => None,
    }
}

/// What reading a Fressian string body of `length` bytes at `pos` of `input` does.
pub open spec fn fressian_string_outcome(
    input: Seq<u8>,
    pos: nat,
    after: ByteReader,
    length: nat,
    r: Result<Seq<char>>,
) -> bool {
    &&& after.input() == input
    &&& after.wf()
    &&& if length == 0 {
        &&& r matches Ok(s) && s == Seq::<char>::empty()
        &&& after.position() == pos
    } else if pos + length <= input.len() {
        &&& after.position() == pos + length
        &&& match fressian_string_value(input.subrange(pos as int, (pos + length) as int)) {
            Some(chars) => r matches Ok(s) && s == chars,
            None => r matches Err(e) && e.err.code is InvalidUTF8 && e.err.position == pos
                + length,
        }
    } else {
        &&& r matches Err(e) && e.err.code is Eof && e.err.position == pos
        &&& after.position() == pos
    }
}

/// What reading `length` bytes of standard UTF-8 at `pos` of `input` does.
pub open spec fn utf8_outcome(
    input: Seq<u8>,
    pos: nat,
    after: ByteReader,
    length: nat,
    r: Result<Seq<char>>,
) -> bool {
    &&& after.input() == input
    &&& after.wf()
    &&& if length == 0 {
        &&& r matches Err(e) && e.err.code is ExpectedNonZeroReadLength && e.err.position == pos
        &&& after.position() == pos
    } else if pos + length <= input.len() {
        &&& after.position() == pos + length
        &&& if valid_utf8(input.subrange(pos as int, (pos + length) as int)) {
            r matches Ok(s) && s == decode_utf8(input.subrange(pos as int, (pos + length) as int))
        } else {
            r matches Err(e) && e.err.code is InvalidUTF8 && e.err.position == pos + length
        }
    } else {
        &&& r matches Err(e) && e.err.code is Eof && e.err.position == pos
        &&& after.position() == pos
    }
}

/// What reading a string does, its code being the byte at `pos - 1` of `input`:
/// codes `0xDA` to `0xE2` carry the length of a modified UTF-8 body; `STRING` is
/// followed by a count and such a body; `UTF8` by a count and standard UTF-8.
pub open spec fn string_code_outcome(
    input: Seq<u8>,
    pos: nat,
    code: u8,
    after: ByteReader,
    r: Result<Seq<char>>,
) -> bool {
    if codes::STRING_PACKED_LENGTH_START <= code <= codes::STRING_PACKED_LENGTH_END {
        fressian_string_outcome(
            input,
            pos,
            after,
            (code - codes::STRING_PACKED_LENGTH_START) as nat,
            r,
        )
    } else if code == codes::STRING || code == codes::UTF8 {
        if int_read_ok(input.skip(pos as int)) {
            if code == codes::STRING {
                fressian_string_outcome(input, after_count(input, pos), after, count_at(input, pos), r)
            } else {
                utf8_outcome(input, after_count(input, pos), after, count_at(input, pos), r)
            }
        } else {
            &&& after.input() == input
            &&& after.wf()
            &&& int_read_failure(input, pos, after, r)
        }
    } else {
        &&& r matches Err(e) && e.err.code is ExpectedStringCode && e.err.position == pos
        &&& after.input() == input
        &&& after.position() == pos
    }
}

/// The characters of a textual result, or its error.
pub open spec fn chars_of<S: View<V = Seq<char>>>(r: Result<S>) -> Result<Seq<char>> {
    match r {
        Ok(s) => Ok(s@),
        Err(e) => Err(e),
    }
}

/// The string body of `length` bytes at `pos` of `input`, and where it ends.
pub open spec fn string_body_at(input: Seq<u8>, pos: nat, length: nat) -> Option<(Seq<char>, nat)> {
    if length == 0 {
        Some((Seq::empty(), pos))
    } else if pos + length <= input.len() {
        match fressian_string_value(input.subrange(pos as int, (pos + length) as int)) {
            Some(chars) => Some((chars, pos + length)),
            None => None,
        }
    } else {
        None
    }
}

/// The UTF-8 body of `length` bytes at `pos` of `input`, and where it ends.
pub open spec fn utf8_body_at(input: Seq<u8>, pos: nat, length: nat) -> Option<(Seq<char>, nat)> {
    if length > 0 && pos + length <= input.len() && valid_utf8(
        input.subrange(pos as int, (pos + length) as int),
    ) {
        Some((decode_utf8(input.subrange(pos as int, (pos + length) as int)), pos + length))
    } else {
        None
    }
}

/// The string whose code is at `pos` of `input`, and where it ends: what a successful
/// `read_string` there gives.
pub open spec fn string_at(input: Seq<u8>, pos: nat) -> Option<(Seq<char>, nat)> {
    if pos >= input.len() {
        None
    } else {
        let code = input[pos as int];
        let p = pos + 1;
        if codes::STRING_PACKED_LENGTH_START <= code <= codes::STRING_PACKED_LENGTH_END {
            string_body_at(input, p, (code - codes::STRING_PACKED_LENGTH_START) as nat)
        } else if (code == codes::STRING || code == codes::UTF8) && int_read_ok(input.skip(p as int)) {
            if code == codes::STRING {
                string_body_at(input, after_count(input, p), count_at(input, p))
            } else {
                utf8_body_at(input, after_count(input, p), count_at(input, p))
            }
        } else {
            None
        }
    }
}

/// A read of a string succeeds exactly where `string_at` finds one, and gives it.
pub proof fn lemma_string_read_functional(before: ByteReader, after: ByteReader, r: Result<Seq<char>>)
    requires
        before.wf(),
        string_read_outcome(before, after, r),
    ensures
        after.input() == before.input(),
        after.wf(),
        r is Ok <==> string_at(before.input(), before.position()) is Some,
        r matches Ok(s) ==> string_at(before.input(), before.position()) == Some((s, after.position())),
{
    let input = before.input();
    let pos = before.position();
    assert(input.skip(pos as int).len() == input.len() - pos);
    if pos < input.len() {
        assert(before.remaining()[0] == input[pos as int]);
    }
}

/// The byte array whose code is at `pos` of `input`, and where it ends: what a
/// successful `read_bytes` there gives. An empty array is refused by the read.
pub open spec fn bytes_at(input: Seq<u8>, pos: nat) -> Option<(Seq<u8>, nat)> {
    if pos >= input.len() {
        None
    } else {
        let code = input[pos as int];
        let p = pos + 1;
        if codes::BYTES_PACKED_LENGTH_START <= code <= codes::BYTES_PACKED_LENGTH_END {
            let n = (code - codes::BYTES_PACKED_LENGTH_START) as nat;
            if n > 0 && p + n <= input.len() {
                Some((input.subrange(p as int, (p + n) as int), p + n))
            } else {
                None
            }
        } else if code == codes::BYTES && int_read_ok(input.skip(p as int)) {
            let n = count_at(input, p);
            let q = after_count(input, p);
            if n > 0 && q + n <= input.len() {
                Some((input.subrange(q as int, (q + n) as int), q + n))
            } else {
                None
            }
        } else {
            None
        }
    }
}

/// The byte array whose code is at `pos` of `input`, its chunks joined, and where it
/// ends: a packed code `0xD0 + n` (below `0xD8`) and `n` bytes; `BYTES`, a count and
/// that many bytes; or `BYTES_CHUNK`, a count, that many bytes, and then the rest of
/// the array.
pub open spec fn chunked_bytes_at(input: Seq<u8>, pos: nat) -> Option<(Seq<u8>, nat)>
    decreases input.len() - pos,
{
    if pos >= input.len() {
        None
    } else {
        let code = input[pos as int];
        let p = pos + 1;
        if codes::BYTES_PACKED_LENGTH_START <= code < codes::BYTES_CHUNK {
            let n = (code - codes::BYTES_PACKED_LENGTH_START) as nat;
            if p + n <= input.len() {
                Some((input.subrange(p as int, (p + n) as int), p + n))
            } else {
                None
            }
        } else if (code == codes::BYTES || code == codes::BYTES_CHUNK) && int_read_ok(input.skip(p as int)) {
            let n = count_at(input, p);
            let q = after_count(input, p);
            if q + n <= input.len() {
                let data = input.subrange(q as int, (q + n) as int);
                if code == codes::BYTES {
                    Some((data, q + n))
                } else if pos < q + n {
                    match chunked_bytes_at(input, q + n) {
                        Some(r) => Some((data + r.0, r.1)),
                        None => None,
                    }
                } else {
                    None
                }
            } else {
                None
            }
        } else {
            None
        }
    }
}

/// A read of a byte array succeeds exactly where `bytes_at` finds one, and gives it.
pub proof fn lemma_bytes_read_functional(before: ByteReader, after: ByteReader, r: Result<&[u8]>)
    requires
        before.wf(),
        bytes_read_outcome(before, after, r),
    ensures
        after.input() == before.input(),
        r is Ok <==> bytes_at(before.input(), before.position()) is Some,
        r matches Ok(s) ==> bytes_at(before.input(), before.position()) == Some((s@, after.position())),
{
    let input = before.input();
    let pos = before.position();
    assert(input.skip(pos as int).len() == input.len() - pos);
    if pos < input.len() {
        assert(before.remaining()[0] == input[pos as int]);
    }
}

/// Reading a code when nothing is left: `Eof` where the reader stands, nothing consumed.
pub open spec fn eof_outcome<T>(before: ByteReader, after: ByteReader, r: Result<T>) -> bool {
    &&& r matches Err(e) && e.err.code is Eof && e.err.position == before.position()
    &&& after.input() == before.input()
    &&& after.position() == before.position()
}

/// What reading a byte array does: its code, then what the code announces.
pub open spec fn bytes_read_outcome(before: ByteReader, after: ByteReader, r: Result<&[u8]>) -> bool {
    if before.remaining().len() == 0 {
        eof_outcome(before, after, r)
    } else {
        bytes_code_outcome(before.input(), before.position() + 1, before.remaining()[0], after, r)
    }
}

/// What reading a string does: its code, then what the code announces.
pub open spec fn string_read_outcome(before: ByteReader, after: ByteReader, r: Result<Seq<char>>) -> bool {
    if before.remaining().len() == 0 {
        eof_outcome(before, after, r)
    } else {
        string_code_outcome(before.input(), before.position() + 1, before.remaining()[0], after, r)
    }
}

#[derive(Clone, Debug)]
pub struct RawInput;

fn error<T>(rdr: &ByteReader, reason: ErrorCode) -> (r: Result<T>)
    ensures
        r matches Err(e) && e.err.code == reason && e.err.position == rdr.position(),
{
    let position: usize = rdr.get_bytes_read();
    Err(Error::syntax(reason, position))
}

impl RawInput {
    fn read_u8<'a>(&mut self, reader: &mut ByteReader<'a>) -> (r: Result<u8>)
        requires
            old(reader).wf(),
        ensures
            read_outcome(*old(reader), *final(reader), 1, r, old(reader).remaining()[0]),
    {
        let b = reader.read_u8()?;
        Ok(*b)
    }

    fn read_raw_i16<'a>(&mut self, reader: &mut ByteReader<'a>) -> (r: Result<i64>)
        requires
            old(reader).wf(),
        ensures
            read_outcome(
                *old(reader),
                *final(reader),
                2,
                r,
                be_uint(old(reader).remaining().take(2)) as i64,
            ),
    {
        let ghost rem = reader.remaining();
        let high = self.read_u8(reader)? as i64;
        assert(reader.remaining() =~= rem.skip(1));
        let low = self.read_u8(reader)? as i64;
        proof {
            lemma_be_uint_empty(rem);
            lemma_be_uint_take(rem, 0);
            lemma_be_uint_take(rem, 1);
            assert((high << 8) + low == high * 256 + low) by (bit_vector)
                requires
                    0 <= high < 256,
                    0 <= low < 256,
            ;
        }
        Ok((high << 8) + low)
    }

    fn read_raw_i24<'a>(&mut self, reader: &mut ByteReader<'a>) -> (r: Result<i64>)
        requires
            old(reader).wf(),
        ensures
            read_outcome(
                *old(reader),
                *final(reader),
                3,
                r,
                be_uint(old(reader).remaining().take(3)) as i64,
            ),
    {
        let ghost rem = reader.remaining();
        let a = self.read_u8(reader)? as i64;
        assert(reader.remaining() =~= rem.skip(1));
        let b = self.read_u8(reader)? as i64;
        assert(reader.remaining() =~= rem.skip(2));
        let c = self.read_u8(reader)? as i64;
        proof {
            lemma_be_uint_empty(rem);
            lemma_be_uint_take(rem, 0);
            lemma_be_uint_take(rem, 1);
            lemma_be_uint_take(rem, 2);
            assert((a << 16) + (b << 8) + c == (a * 256 + b) * 256 + c) by (bit_vector)
                requires
                    0 <= a < 256,
                    0 <= b < 256,
                    0 <= c < 256,
            ;
        }
        Ok((a << 16) + (b << 8) + c)
    }

    fn read_raw_i32<'a>(&mut self, reader: &mut ByteReader<'a>) -> (r: Result<i64>)
        requires
            old(reader).wf(),
        ensures
            read_outcome(
                *old(reader),
                *final(reader),
                4,
                r,
                be_uint(old(reader).remaining().take(4)) as i64,
            ),
    {
        let ghost rem = reader.remaining();
        let a = self.read_u8(reader)? as i64 & 0xFF;
        assert(reader.remaining() =~= rem.skip(1));
        let b = self.read_u8(reader)? as i64 & 0xFF;
        assert(reader.remaining() =~= rem.skip(2));
        let c = self.read_u8(reader)? as i64 & 0xFF;
        assert(reader.remaining() =~= rem.skip(3));
        let d = self.read_u8(reader)? as i64 & 0xFF;
        proof {
            lemma_be_uint_empty(rem);
            lemma_be_uint_take(rem, 0);
            lemma_be_uint_take(rem, 1);
            lemma_be_uint_take(rem, 2);
            lemma_be_uint_take(rem, 3);
            assert(a == rem[0] && b == rem[1] && c == rem[2] && d == rem[3]) by {
                let (x0, x1, x2, x3) = (rem[0], rem[1], rem[2], rem[3]);
                assert((x0 as i64) & 0xFF == x0 && (x1 as i64) & 0xFF == x1 && (x2 as i64) & 0xFF
                    == x2 && (x3 as i64) & 0xFF == x3) by (bit_vector);
            }
            assert(((a << 24) | (b << 16) | (c << 8) | d) & 0xFFFFFFFF == ((a * 256 + b) * 256 + c)
                * 256 + d) by (bit_vector)
                requires
                    0 <= a < 256,
                    0 <= b < 256,
                    0 <= c < 256,
                    0 <= d < 256,
            ;
        }
        Ok(((a << 24) | (b << 16) | (c << 8) | d) & 0xFFFFFFFF)
    }

    fn read_raw_i40<'a>(&mut self, reader: &mut ByteReader<'a>) -> (r: Result<i64>)
        requires
            old(reader).wf(),
        ensures
            read_outcome(
                *old(reader),
                *final(reader),
                5,
                r,
                be_uint(old(reader).remaining().take(5)) as i64,
            ),
    {
        let ghost rem = reader.remaining();
        let high = self.read_u8(reader)? as i64;
        assert(reader.remaining() =~= rem.skip(1));
        let ghost rem1 = reader.remaining();
        let low = self.read_raw_i32(reader)?;
        proof {
            lemma_be_uint_empty(rem);
            lemma_be_uint_take(rem, 0);
            lemma_be_uint_take(rem, 1);
            lemma_be_uint_take(rem, 2);
            lemma_be_uint_take(rem, 3);
            lemma_be_uint_take(rem, 4);
            lemma_be_uint_empty(rem1);
            lemma_be_uint_take(rem1, 0);
            lemma_be_uint_take(rem1, 1);
            lemma_be_uint_take(rem1, 2);
            lemma_be_uint_take(rem1, 3);
            assert(rem1[0] == rem[1] && rem1[1] == rem[2] && rem1[2] == rem[3] && rem1[3] == rem[4]);
            assert((high << 32) + low == high * 0x100000000 + low) by (bit_vector)
                requires
                    0 <= high < 256,
                    0 <= low < 0x100000000,
            ;
        }
        Ok((high << 32) + low)
    }

    fn read_raw_i48<'a>(&mut self, reader: &mut ByteReader<'a>) -> (r: Result<i64>)
        requires
            old(reader).wf(),
        ensures
            read_outcome(
                *old(reader),
                *final(reader),
                6,
                r,
                be_uint(old(reader).remaining().take(6)) as i64,
            ),
    {
        let ghost rem = reader.remaining();
        let high = self.read_u8(reader)? as i64;
        assert(reader.remaining() =~= rem.skip(1));
        let ghost rem1 = reader.remaining();
        let low = self.read_raw_i40(reader)?;
        proof {
            lemma_be_uint_empty(rem);
            lemma_be_uint_take(rem, 0);
            lemma_be_uint_take(rem, 1);
            lemma_be_uint_take(rem, 2);
            lemma_be_uint_take(rem, 3);
            lemma_be_uint_take(rem, 4);
            lemma_be_uint_take(rem, 5);
            lemma_be_uint_empty(rem1);
            lemma_be_uint_take(rem1, 0);
            lemma_be_uint_take(rem1, 1);
            lemma_be_uint_take(rem1, 2);
            lemma_be_uint_take(rem1, 3);
            lemma_be_uint_take(rem1, 4);
            assert(rem1[0] == rem[1] && rem1[1] == rem[2] && rem1[2] == rem[3] && rem1[3] == rem[4]
                && rem1[4] == rem[5]);
            assert((high << 40) + low == high * 0x10000000000 + low) by (bit_vector)
                requires
                    0 <= high < 256,
                    0 <= low < 0x10000000000,
            ;
        }
        Ok((high << 40) + low)
    }

    fn read_raw_i64<'a>(&mut self, reader: &mut ByteReader<'a>) -> (r: Result<i64>)
        requires
            old(reader).wf(),
        ensures
            read_outcome(
                *old(reader),
                *final(reader),
                8,
                r,
                be_uint(old(reader).remaining().take(8)) as i64,
            ),
    {
        let ghost rem = reader.remaining();
        let a = self.read_u8(reader)?;
        assert(reader.remaining() =~= rem.skip(1));
        let b = self.read_u8(reader)?;
        assert(reader.remaining() =~= rem.skip(2));
        let c = self.read_u8(reader)?;
        assert(reader.remaining() =~= rem.skip(3));
        let d = self.read_u8(reader)?;
        assert(reader.remaining() =~= rem.skip(4));
        let e = self.read_u8(reader)?;
        assert(reader.remaining() =~= rem.skip(5));
        let f = self.read_u8(reader)?;
        assert(reader.remaining() =~= rem.skip(6));
        let g = self.read_u8(reader)?;
        assert(reader.remaining() =~= rem.skip(7));
        let h = self.read_u8(reader)?;
        let v: i64 = ((a as i64 & 0xFF) << 56) | ((b as i64 & 0xFF) << 48) | ((c as i64 & 0xFF) << 40)
            | ((d as i64 & 0xFF) << 32) | ((e as i64 & 0xFF) << 24) | ((f as i64 & 0xFF) << 16) | ((g
            as i64 & 0xFF) << 8) | (h as i64 & 0xFF);
        proof {
            lemma_be_uint_empty(rem);
            lemma_be_uint_take(rem, 0);
            lemma_be_uint_take(rem, 1);
            lemma_be_uint_take(rem, 2);
            lemma_be_uint_take(rem, 3);
            lemma_be_uint_take(rem, 4);
            lemma_be_uint_take(rem, 5);
            lemma_be_uint_take(rem, 6);
            lemma_be_uint_take(rem, 7);
            let u: u64 = ((((((((a as u64 * 256 + b as u64) * 256 + c as u64) * 256 + d as u64) * 256
                + e as u64) * 256 + f as u64) * 256 + g as u64) * 256 + h as u64)) as u64;
            assert(v == u as i64) by (bit_vector)
                requires
                    v == ((a as i64 & 0xFF) << 56) | ((b as i64 & 0xFF) << 48) | ((c as i64 & 0xFF)
                        << 40) | ((d as i64 & 0xFF) << 32) | ((e as i64 & 0xFF) << 24) | ((f as i64
                        & 0xFF) << 16) | ((g as i64 & 0xFF) << 8) | (h as i64 & 0xFF),
                    u == ((((((((a as u64 * 256 + b as u64) * 256 + c as u64) * 256 + d as u64) * 256
                        + e as u64) * 256 + f as u64) * 256 + g as u64) * 256 + h as u64)) as u64,
            ;
        }
        Ok(v)
    }

    /// Reads an integer whose code has been read already.
    pub fn read_int_code<'a>(&mut self, reader: &mut ByteReader<'a>, code: i8) -> (r: Result<i64>)
        requires
            old(reader).wf(),
        ensures
            int_tail_len(code as u8) is None ==> {
                &&& r matches Err(e) && e.err.code is Expectedi64 && e.err.position == old(
                    reader,
                ).position()
                &&& *final(reader) == *old(reader)
            },
            int_tail_len(code as u8) matches Some(n) ==> read_outcome(
                *old(reader),
                *final(reader),
                n,
                r,
                int_value(code as u8, old(reader).remaining().take(n as int)),
            ),
    {
        let ghost rem = reader.remaining();
        let c = code as u8;
        assert(c <= 0x7F ==> c == code) by (bit_vector)
            requires
                c == code as u8,
        ;
        proof {
            lemma_be_uint_empty(rem);
        }
        if c == 0xFF {
            Ok(-1)
        } else if c <= 0x3F {
            assert(code & -1i8 == code) by (bit_vector);
            Ok((code & -1i8) as i64)
        } else if c <= 0x5F {
            let packing = ((code - codes::INT_PACKED_2_ZERO as i8) as i64) << 8;
            let r = self.read_u8(reader)? as i64;
            proof {
                lemma_be_uint_take(rem, 0);
                let k = code;
                assert((((k - 0x50i8) as i64) << 8) | r == (k - 0x50) * 0x100 + r) by (bit_vector)
                    requires
                        0x40 <= k <= 0x5F,
                        0 <= r < 0x100,
                ;
            }
            Ok(packing | r)
        } else if c <= 0x6F {
            let packing = ((code - codes::INT_PACKED_3_ZERO as i8) as i64) << 16;
            let r = self.read_raw_i16(reader)?;
            proof {
                lemma_be_uint_take(rem, 0);
                lemma_be_uint_take(rem, 1);
                let k = code;
                assert((((k - 0x68i8) as i64) << 16) | r == (k - 0x68) * 0x10000 + r) by (bit_vector)
                    requires
                        0x60 <= k <= 0x6F,
                        0 <= r < 0x10000,
                ;
            }
            Ok(packing | r)
        } else if c <= 0x73 {
            let packing = ((code - codes::INT_PACKED_4_ZERO as i8) as i64) << 24;
            let r = self.read_raw_i24(reader)?;
            proof {
                lemma_be_uint_take(rem, 0);
                lemma_be_uint_take(rem, 1);
                lemma_be_uint_take(rem, 2);
                let k = code;
                assert((((k - 0x72i8) as i64) << 24) | r == (k - 0x72) * 0x1000000 + r) by (bit_vector)
                    requires
                        0x70 <= k <= 0x73,
                        0 <= r < 0x1000000,
                ;
            }
            Ok(packing | r)
        } else if c <= 0x77 {
            let packing = ((code - codes::INT_PACKED_5_ZERO as i8) as i64) << 32;
            let r = self.read_raw_i32(reader)?;
            proof {
                lemma_be_uint_take(rem, 0);
                lemma_be_uint_take(rem, 1);
                lemma_be_uint_take(rem, 2);
                lemma_be_uint_take(rem, 3);
                let k = code;
                assert((((k - 0x76i8) as i64) << 32) | r == (k - 0x76) * 0x100000000 + r) by (bit_vector)
                    requires
                        0x74 <= k <= 0x77,
                        0 <= r < 0x100000000,
                ;
            }
            Ok(packing | r)
        } else if c <= 0x7B {
            let packing = ((code - codes::INT_PACKED_6_ZERO as i8) as i64) << 40;
            let r = self.read_raw_i40(reader)?;
            proof {
                lemma_be_uint_take(rem, 0);
                lemma_be_uint_take(rem, 1);
                lemma_be_uint_take(rem, 2);
                lemma_be_uint_take(rem, 3);
                lemma_be_uint_take(rem, 4);
                let k = code;
                assert((((k - 0x7Ai8) as i64) << 40) | r == (k - 0x7A) * 0x10000000000 + r)
                    by (bit_vector)
                    requires
                        0x78 <= k <= 0x7B,
                        0 <= r < 0x10000000000,
                ;
            }
            Ok(packing | r)
        } else if c <= 0x7F {
            let packing = ((code - codes::INT_PACKED_7_ZERO as i8) as i64) << 48;
            let r = self.read_raw_i48(reader)?;
            proof {
                lemma_be_uint_take(rem, 0);
                lemma_be_uint_take(rem, 1);
                lemma_be_uint_take(rem, 2);
                lemma_be_uint_take(rem, 3);
                lemma_be_uint_take(rem, 4);
                lemma_be_uint_take(rem, 5);
                let k = code;
                assert((((k - 0x7Ei8) as i64) << 48) | r == (k - 0x7E) * 0x1000000000000 + r)
                    by (bit_vector)
                    requires
                        0x7C <= k <= 0x7F,
                        0 <= r < 0x1000000000000,
                ;
            }
            Ok(packing | r)
        } else if c == codes::INT {
            self.read_raw_i64(reader)
        } else {
            error(reader, ErrorCode::Expectedi64)
        }
    }

    /// Reads an integer: its code, then the bytes that the code calls for.
    pub fn read_int<'a>(&mut self, reader: &mut ByteReader<'a>) -> (r: Result<i64>)
        requires
            old(reader).wf(),
        ensures
            int_read_outcome(
                *old(reader),
                *final(reader),
                r,
                int_read_value(old(reader).remaining()),
            ),
    {
        let ghost rem = reader.remaining();
        let code = *reader.read_u8()?;
        assert(reader.remaining() =~= rem.skip(1));
        let r = self.read_int_code(reader, code as i8);
        proof {
            lemma_byte_as_code(code);
            if let Some(n) = int_tail_len(code) {
                if rem.len() >= 1 + n {
                    assert(rem.skip(1).take(n as int) =~= rem.subrange(1, 1 + n as int));
                }
            }
        }
        r
    }

    /// Reads the next byte as a code.
    pub fn read_next_code<'a>(&mut self, reader: &mut ByteReader<'a>) -> (r: Result<i8>)
        requires
            old(reader).wf(),
        ensures
            read_outcome(*old(reader), *final(reader), 1, r, old(reader).remaining()[0] as i8),
    {
        reader.read_i8()
    }

    /// The next byte as a code, not consumed.
    pub fn peek_next_code<'a>(&mut self, reader: &mut ByteReader<'a>) -> (r: Result<i8>)
        requires
            old(reader).wf(),
        ensures
            *final(reader) == *old(reader),
            old(reader).remaining().len() > 0 ==> (r matches Ok(c) && c == old(
                reader,
            ).remaining()[0] as i8),
            old(reader).remaining().len() == 0 ==> (r matches Err(e) && e.err.code is Eof
                && e.err.position == old(reader).position()),
    {
        Ok(*reader.peek_u8()? as i8)
    }

    fn read_i32<'a>(&mut self, reader: &mut ByteReader<'a>) -> (r: Result<i32>)
        requires
            old(reader).wf(),
        ensures
            int_read_outcome(
                *old(reader),
                *final(reader),
                r,
                int_read_value(old(reader).remaining()) as i32,
            ),
    {
        Ok(self.read_int(reader)? as i32)
    }

    /// Reads a count: an integer, truncated to 32 bits.
    pub fn read_count<'a>(&mut self, reader: &mut ByteReader<'a>) -> (r: Result<i32>)
        requires
            old(reader).wf(),
        ensures
            int_read_outcome(
                *old(reader),
                *final(reader),
                r,
                int_read_value(old(reader).remaining()) as i32,
            ),
    {
        self.read_i32(reader)
    }

    /// The bit pattern of a float whose code has been read already.
    pub fn read_float_code<'a>(&mut self, reader: &mut ByteReader<'a>, code: i8) -> (r: Result<u32>)
        requires
            old(reader).wf(),
        ensures
            code as u8 != codes::FLOAT ==> {
                &&& r matches Err(e) && e.err.code is ExpectedFloatCode && e.err.position == old(
                    reader,
                ).position()
                &&& *final(reader) == *old(reader)
            },
            code as u8 == codes::FLOAT ==> read_all_or_nothing(
                *old(reader),
                *final(reader),
                4,
                r,
                be_uint(old(reader).remaining().take(4)) as u32,
            ),
    {
        if code as u8 == codes::FLOAT {
            self.read_raw_float(reader)
        } else {
            error(reader, ErrorCode::ExpectedFloatCode)
        }
    }

    /// The bit pattern of the float that comes next.
    pub fn read_float<'a>(&mut self, reader: &mut ByteReader<'a>) -> (r: Result<u32>)
        requires
            old(reader).wf(),
        ensures
            final(reader).input() == old(reader).input(),
            final(reader).wf(),
            old(reader).remaining().len() == 0 ==> (r matches Err(e) && e.err.code is Eof),
            r is Ok <==> old(reader).remaining().len() >= 5 && old(reader).remaining()[0]
                == codes::FLOAT,
            r matches Ok(bits) ==> bits == be_uint(old(reader).remaining().subrange(1, 5))
                && final(reader).position() == old(reader).position() + 5,
    {
        let ghost rem = reader.remaining();
        let code = *reader.read_u8()?;
        proof {
            assert(reader.remaining() =~= rem.skip(1));
            lemma_byte_as_code(code);
            if rem.len() >= 5 {
                assert(rem.skip(1).take(4) =~= rem.subrange(1, 5));
                lemma_be_uint_bound(rem.subrange(1, 5));
                assert(pow256(4) == 0x1_0000_0000) by {
                    reveal_with_fuel(pow256, 5);
                }
            }
        }
        self.read_float_code(reader, code as i8)
    }

    fn read_raw_float<'a>(&mut self, reader: &mut ByteReader<'a>) -> (r: Result<u32>)
        requires
            old(reader).wf(),
        ensures
            read_all_or_nothing(
                *old(reader),
                *final(reader),
                4,
                r,
                be_uint(old(reader).remaining().take(4)) as u32,
            ),
    {
        let ghost rem = reader.remaining();
        let bytes = reader.read_bytes(4)?;
        proof {
            assert(bytes@ =~= rem.take(4));
            lemma_be_uint_empty(rem);
            lemma_be_uint_take(rem, 0);
            lemma_be_uint_take(rem, 1);
            lemma_be_uint_take(rem, 2);
            lemma_be_uint_take(rem, 3);
        }
        let (a, b, c, d) = (bytes[0] as u32, bytes[1] as u32, bytes[2] as u32, bytes[3] as u32);
        assert((a << 24) | (b << 16) | (c << 8) | d == ((a * 256 + b) * 256 + c) * 256 + d)
            by (bit_vector)
            requires
                a < 256,
                b < 256,
                c < 256,
                d < 256,
        ;
        Ok((a << 24) | (b << 16) | (c << 8) | d)
    }

    fn read_raw_double<'a>(&mut self, reader: &mut ByteReader<'a>) -> (r: Result<u64>)
        requires
            old(reader).wf(),
        ensures
            read_all_or_nothing(
                *old(reader),
                *final(reader),
                8,
                r,
                be_uint(old(reader).remaining().take(8)) as u64,
            ),
    {
        let ghost rem = reader.remaining();
        let bytes = reader.read_bytes(8)?;
        proof {
            assert(bytes@ =~= rem.take(8));
            lemma_be_uint_empty(rem);
            lemma_be_uint_take(rem, 0);
            lemma_be_uint_take(rem, 1);
            lemma_be_uint_take(rem, 2);
            lemma_be_uint_take(rem, 3);
            lemma_be_uint_take(rem, 4);
            lemma_be_uint_take(rem, 5);
            lemma_be_uint_take(rem, 6);
            lemma_be_uint_take(rem, 7);
        }
        let mut v: u64 = 0;
        let mut i: usize = 0;
        while i < 8
            invariant
                i <= 8,
                bytes@ == rem.take(8),
                rem.len() >= 8,
                v == be_uint(rem.take(i as int)),
                v < pow256(i as nat),
            decreases 8 - i,
        {
            proof {
                lemma_be_uint_take(rem, i as int);
                lemma_pow256_mono((i + 1) as nat, 8);
                assert(pow256(8) == 0x1_0000_0000_0000_0000) by {
                    reveal_with_fuel(pow256, 9);
                }
            }
            assert(v * 256 + bytes[i as int] < pow256((i + 1) as nat)) by (nonlinear_arith)
                requires
                    v < pow256(i as nat),
                    bytes[i as int] < 256,
                    pow256((i + 1) as nat) == pow256(i as nat) * 256,
            ;
            v = v * 256 + bytes[i] as u64;
            i = i + 1;
        }
        Ok(v)
    }

    /// The bit pattern of a double whose code has been read already: `DOUBLE_0` and
    /// `DOUBLE_1` stand for the doubles 0.0 and 1.0.
    pub fn read_double_code<'a>(&mut self, reader: &mut ByteReader<'a>, code: i8) -> (r: Result<u64>)
        requires
            old(reader).wf(),
        ensures
            code as u8 == codes::DOUBLE ==> read_all_or_nothing(
                *old(reader),
                *final(reader),
                8,
                r,
                be_uint(old(reader).remaining().take(8)) as u64,
            ),
            code as u8 == codes::DOUBLE_0 ==> (r matches Ok(bits) && bits == 0 && *final(reader)
                == *old(reader)),
            code as u8 == codes::DOUBLE_1 ==> (r matches Ok(bits) && bits == 0x3FF0000000000000
                && *final(reader) == *old(reader)),
            code as u8 != codes::DOUBLE && code as u8 != codes::DOUBLE_0 && code as u8
                != codes::DOUBLE_1 ==> {
                &&& r matches Err(e) && e.err.code is ExpectedDoubleCode && e.err.position == old(
                    reader,
                ).position()
                &&& *final(reader) == *old(reader)
            },
    {
        let c = code as u8;
        if c == codes::DOUBLE {
            self.read_raw_double(reader)
        } else if c == codes::DOUBLE_0 {
            Ok(0)
        } else if c == codes::DOUBLE_1 {
            Ok(0x3FF0000000000000)
        } else {
            error(reader, ErrorCode::ExpectedDoubleCode)
        }
    }

    /// The bit pattern of the double that comes next.
    pub fn read_double<'a>(&mut self, reader: &mut ByteReader<'a>) -> (r: Result<u64>)
        requires
            old(reader).wf(),
        ensures
            final(reader).input() == old(reader).input(),
            final(reader).wf(),
            old(reader).remaining().len() == 0 ==> (r matches Err(e) && e.err.code is Eof),
            old(reader).remaining().len() > 0 && old(reader).remaining()[0] == codes::DOUBLE_0
                ==> (r matches Ok(bits) && bits == 0),
            old(reader).remaining().len() > 0 && old(reader).remaining()[0] == codes::DOUBLE_1
                ==> (r matches Ok(bits) && bits == 0x3FF0000000000000),
            old(reader).remaining().len() >= 9 && old(reader).remaining()[0] == codes::DOUBLE
                ==> (r matches Ok(bits) && bits == be_uint(old(reader).remaining().subrange(1, 9))),
    {
        let ghost rem = reader.remaining();
        let code = *reader.read_u8()?;
        proof {
            assert(reader.remaining() =~= rem.skip(1));
            lemma_byte_as_code(code);
            if rem.len() >= 9 {
                assert(rem.skip(1).take(8) =~= rem.subrange(1, 9));
                lemma_be_uint_bound(rem.subrange(1, 9));
                assert(pow256(8) == 0x1_0000_0000_0000_0000) by {
                    reveal_with_fuel(pow256, 9);
                }
            }
        }
        self.read_double_code(reader, code as i8)
    }

    /// Reads a boolean whose code has been read already.
    pub fn read_boolean_code<'a>(&mut self, reader: &mut ByteReader<'a>, code: i8) -> (r: Result<bool>)
        ensures
            *final(reader) == *old(reader),
            code as u8 == codes::TRUE ==> (r matches Ok(b) && b),
            code as u8 == codes::FALSE ==> (r matches Ok(b) && !b),
            code as u8 != codes::TRUE && code as u8 != codes::FALSE ==> (r matches Err(e)
                && e.err.code is ExpectedBooleanCode && e.err.position == old(reader).position()),
    {
        let c = code as u8;
        if c == codes::TRUE {
            Ok(true)
        } else if c == codes::FALSE {
            Ok(false)
        } else {
            error(reader, ErrorCode::ExpectedBooleanCode)
        }
    }

    /// Reads a boolean.
    pub fn read_boolean<'a>(&mut self, reader: &mut ByteReader<'a>) -> (r: Result<bool>)
        requires
            old(reader).wf(),
        ensures
            final(reader).input() == old(reader).input(),
            final(reader).wf(),
            old(reader).remaining().len() == 0 ==> (r matches Err(e) && e.err.code is Eof
                && final(reader).position() == old(reader).position()),
            old(reader).remaining().len() > 0 ==> {
                &&& final(reader).position() == old(reader).position() + 1
                &&& old(reader).remaining()[0] == codes::TRUE ==> (r matches Ok(b) && b)
                &&& old(reader).remaining()[0] == codes::FALSE ==> (r matches Ok(b) && !b)
                &&& old(reader).remaining()[0] != codes::TRUE && old(reader).remaining()[0]
                    != codes::FALSE ==> (r matches Err(e) && e.err.code is ExpectedBooleanCode)
            },
    {
        let code = reader.read_i8()?;
        assert(code as u8 == old(reader).remaining()[0]) by {
            let x = old(reader).remaining()[0];
            lemma_byte_as_code(x);
        }
        self.read_boolean_code(reader, code)
    }

    fn read_raw_bytes<'a>(&mut self, reader: &mut ByteReader<'a>, length: usize) -> (r: Result<&'a [u8]>)
        requires
            old(reader).wf(),
        ensures
            raw_bytes_outcome(old(reader).input(), old(reader).position(), *final(reader), length as nat, r),
    {
        reader.read_bytes(length)
    }

    /// Reads the count in front of a byte array or a string body: an integer, as a
    /// `usize` through 32 bits.
    pub(crate) fn read_length<'a>(&mut self, reader: &mut ByteReader<'a>) -> (r: Result<usize>)
        requires
            old(reader).wf(),
        ensures
            final(reader).input() == old(reader).input(),
            final(reader).wf(),
            int_read_ok(old(reader).remaining()) ==> (r matches Ok(n)
                && n == count_at(old(reader).input(), old(reader).position())
                && final(reader).position() == after_count(old(reader).input(), old(reader).position())),
            !int_read_ok(old(reader).remaining()) ==> int_read_failure(
                old(reader).input(),
                old(reader).position(),
                *final(reader),
                r,
            ),
    {
        let count = self.read_count(reader)?;
        Ok(count as usize)
    }

    /// Reads a byte array whose code has been read already.
    pub fn read_bytes_code<'a>(&mut self, reader: &mut ByteReader<'a>, code: i8) -> (r: Result<&'a [u8]>)
        requires
            old(reader).wf(),
        ensures
            bytes_code_outcome(old(reader).input(), old(reader).position(), code as u8, *final(reader), r),
    {
        let c = code as u8;
        if codes::BYTES_PACKED_LENGTH_START <= c && c <= codes::BYTES_PACKED_LENGTH_END {
            self.read_raw_bytes(reader, (c - codes::BYTES_PACKED_LENGTH_START) as usize)
        } else if c == codes::BYTES {
            let count = self.read_length(reader)?;
            self.read_raw_bytes(reader, count)
        } else {
            error(reader, ErrorCode::ExpectedBytesCode)
        }
    }

    /// Reads a Fressian byte array (the value type, not raw bytes of the input).
    pub fn read_bytes<'a>(&mut self, reader: &mut ByteReader<'a>) -> (r: Result<&'a [u8]>)
        requires
            old(reader).wf(),
        ensures
            bytes_read_outcome(*old(reader), *final(reader), r),
    {
        let code = *reader.read_u8()?;
        proof {
            lemma_byte_as_code(code);
        }
        self.read_bytes_code(reader, code as i8)
    }

    /// Reads `length` bytes of standard UTF-8. Bytes that are not valid UTF-8 are
    /// refused with `InvalidUTF8`, placed just after them.
    pub fn read_raw_utf8<'a>(&mut self, reader: &mut ByteReader<'a>, length: usize) -> (r: Result<&'a str>)
        requires
            old(reader).wf(),
        ensures
            utf8_outcome(
                old(reader).input(),
                old(reader).position(),
                *final(reader),
                length as nat,
                chars_of(r),
            ),
    {
        let bytes = self.read_raw_bytes(reader, length)?;
        match str_from_utf8(bytes) {
            Some(s) => Ok(s),
            None => error(reader, ErrorCode::InvalidUTF8),
        }
    }


    /// Reads a string body of `length` bytes in Java's modified UTF-8. A leading byte
    /// that starts no sequence, a sequence cut short by the end of the body, or an
    /// unpaired surrogate is refused with `InvalidUTF8`, placed just after the body.
    pub fn read_fressian_string<'a>(&mut self, reader: &mut ByteReader<'a>, length: usize) -> (r: Result<String>)
        requires
            old(reader).wf(),
        ensures
            fressian_string_outcome(
                old(reader).input(),
                old(reader).position(),
                *final(reader),
                length as nat,
                chars_of(r),
            ),
    {
        if length == 0 {
            Ok(String::new())
        } else {
            let bytes = self.read_raw_bytes(reader, length)?;
            let units = match decode_mutf8(bytes) {
                Some(units) => units,
                None => return error(reader, ErrorCode::InvalidUTF8),
            };
            match string_from_utf16(units.as_slice()) {
                Some(s) => Ok(s),
                None => error(reader, ErrorCode::InvalidUTF8),
            }
        }
    }

    /// Reads a string whose code has been read already.
    fn read_string_code<'a>(&mut self, reader: &mut ByteReader<'a>, code: u8) -> (r: Result<String>)
        requires
            old(reader).wf(),
        ensures
            string_code_outcome(old(reader).input(), old(reader).position(), code, *final(reader), chars_of(r)),
    {
        if codes::STRING_PACKED_LENGTH_START <= code && code <= codes::STRING_PACKED_LENGTH_END {
            self.read_fressian_string(reader, (code - codes::STRING_PACKED_LENGTH_START) as usize)
        } else if code == codes::STRING {
            let length = self.read_length(reader)?;
            self.read_fressian_string(reader, length)
        } else if code == codes::UTF8 {
            let length = self.read_length(reader)?;
            let s = self.read_raw_utf8(reader, length)?;
            Ok(s.to_owned())
        } else {
            error(reader, ErrorCode::ExpectedStringCode)
        }
    }

    /// Reads a string: a code, then the body that the code announces.
    pub fn read_string<'a>(&mut self, reader: &mut ByteReader<'a>) -> (r: Result<String>)
        requires
            old(reader).wf(),
        ensures
            string_read_outcome(*old(reader), *final(reader), chars_of(r)),
    {
        let code = *reader.read_u8()?;
        self.read_string_code(reader, code)
    }


    /// Reads a chunked byte array, its first `BYTES_CHUNK` code having been read: the
    /// bytes of all its chunks, gathered in one buffer.
    fn internal_read_chunked_bytes<'a>(&mut self, reader: &mut ByteReader<'a>) -> (r: Result<Vec<u8>>)
        requires
            old(reader).wf(),
        ensures
            final(reader).input() == old(reader).input(),
            final(reader).wf(),
            r is Ok <==> chunk_parse(old(reader).input(), old(reader).position()) is Some,
            r matches Ok(v) ==> chunk_parse(old(reader).input(), old(reader).position())
                == Some((v@, final(reader).position())),
    {
        let ghost input = reader.input();
        let ghost start = reader.position();
        let mut buffer: Vec<u8> = Vec::with_capacity(65536);
        let mut code: u8 = codes::BYTES_CHUNK;
        while code == codes::BYTES_CHUNK
            invariant
                input == old(reader).input(),
                start == old(reader).position(),
                reader.wf(),
                reader.input() == input,
                reader.position() >= start,
                code == codes::BYTES_CHUNK ==> match chunk_parse(input, reader.position()) {
                    Some(rest) => chunk_parse(input, start) == Some((buffer@ + rest.0, rest.1)),
                    None => chunk_parse(input, start) is None,
                },
                code == codes::BYTES ==> chunk_parse(input, start) == Some((buffer@, reader.position())),
                code != codes::BYTES_CHUNK && code != codes::BYTES ==> chunk_parse(input, start) is None,
            decreases input.len() - reader.position(),
        {
            let ghost pos = reader.position();
            let count = match self.read_length(reader) {
                Ok(n) => n,
                Err(e) => return Err(e),
            };
            let bytes = match self.read_raw_bytes(reader, count) {
                Ok(b) => b,
                Err(e) => return Err(e),
            };
            let ghost p = after_count(input, pos);
            let ghost prev = buffer@;
            buffer.extend_from_slice(bytes);
            code = match reader.read_u8() {
                Ok(c) => *c,
                Err(e) => return Err(e),
            };
            proof {
                let n = count_at(input, pos);
                let data = input.subrange(p as int, (p + n) as int);
                assert(buffer@ == prev + data) by {
                    assert(bytes@ == data);
                }
                if code == codes::BYTES_CHUNK {
                    if let Some(rest) = chunk_parse(input, p + n + 1) {
                        assert(prev + (data + rest.0) =~= buffer@ + rest.0);
                    }
                } else if code == codes::BYTES {
                    assert(prev + data =~= buffer@);
                }
            }
        }
        if code != codes::BYTES {
            error(reader, ErrorCode::ExpectedChunkBytesConclusion)
        } else {
            Ok(buffer)
        }
    }

}

/// What a read of exactly `n` bytes does: with `n` bytes left it yields `value` and moves
/// past them; with fewer it fails with `Eof` and consumes nothing.
pub open spec fn read_all_or_nothing<T>(
    before: ByteReader,
    after: ByteReader,
    n: nat,
    r: Result<T>,
    value: T,
) -> bool {
    &&& after.input() == before.input()
    &&& after.wf()
    &&& if before.remaining().len() >= n {
        &&& r matches Ok(v) && v == value
        &&& after.position() == before.position() + n
    } else {
        &&& r matches Err(e) && e.err.code is Eof && e.err.position == before.position()
        &&& after.position() == before.position()
    }
}

pub(crate) proof fn lemma_be_uint_bound(s: Seq<u8>)
    ensures
        be_uint(s) < pow256(s.len()),
    decreases s.len(),
{
    if s.len() > 0 {
        lemma_be_uint_bound(s.drop_last());
        let p = pow256((s.len() - 1) as nat);
        let v = be_uint(s.drop_last());
        assert(v * 256 + s.last() < p * 256) by (nonlinear_arith)
            requires
                v < p,
                s.last() < 256,
        ;
    }
}

proof fn lemma_pow256_mono(i: nat, j: nat)
    requires
        i <= j,
    ensures
        pow256(i) <= pow256(j),
    decreases j - i,
{
    if i < j {
        lemma_pow256_mono(i, (j - 1) as nat);
    }
}

/// A byte taken as a signed code and back is the byte itself.
pub proof fn lemma_byte_as_code(x: u8)
    by (bit_vector)
    ensures
        x as i8 as u8 == x,
{
}

/// `256` to the power `n`.
pub open spec fn pow256(n: nat) -> nat
    decreases n,
{
    if n == 0 {
        1
    } else {
        256 * pow256((n - 1) as nat)
    }
}

} // verus!
