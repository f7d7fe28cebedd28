//! Turns values into their Fressian byte representation and hands the bytes to a writer.
//! `RawOutput` has no state of its own: it is a collection of functions over the writer.

use vstd::prelude::*;
use vstd::arithmetic::power2::{pow2, lemma_pow2_pos, lemma_pow2_unfold, lemma2_to64, lemma2_to64_rest};
use vstd::std_specs::bits::u64_leading_zeros;
use crate::error::{Error, Result};
use crate::imp::io::{IWriteBytes, ByteWriter};
use crate::imp::codes;
use crate::imp::ranges;
use crate::imp::chars::{put_back_chars, put_back_next, put_back_char, put_back_items,
    put_back_has_top, char_count, lemma_utf8_len_at_least_chars, lemma_utf8_len_bounds_char};
use vstd::utf8::encode_utf8;

verus! {

/// The `n` low-order bytes of `v`, most significant first.
pub open spec fn be_bytes(v: i64, n: nat) -> Seq<u8>
    decreases n,
{
    if n == 0 {
        Seq::empty()
    } else {
        be_bytes(v >> 8, (n - 1) as nat).push(v as u8)
    }
}

/// The Fressian encoding of an integer: the shortest packed form whose range holds it.
pub open spec fn int_encoding(i: i64) -> Seq<u8> {
    if -1 <= i < 64 {
        seq![i as u8]
    } else if -0x1000 <= i < 0x1000 {
        seq![(0x50 + (i >> 8)) as u8, i as u8]
    } else if -0x80000 <= i < 0x80000 {
        seq![(0x68 + (i >> 16)) as u8] + be_bytes(i, 2)
    } else if -0x2000000 <= i < 0x2000000 {
        seq![(0x72 + (i >> 24)) as u8] + be_bytes(i, 3)
    } else if -0x200000000 <= i < 0x200000000 {
        seq![(0x76 + (i >> 32)) as u8] + be_bytes(i, 4)
    } else if -0x20000000000 <= i < 0x20000000000 {
        seq![(0x7A + (i >> 40)) as u8] + be_bytes(i, 5)
    } else if -0x2000000000000 <= i < 0x2000000000000 {
        seq![(0x7E + (i >> 48)) as u8] + be_bytes(i, 6)
    } else {
        seq![0xF8u8] + be_bytes(i, 8)
    }
}

/// The encoding of a boolean.
pub open spec fn boolean_encoding(b: bool) -> Seq<u8> {
    if b {
        seq![codes::TRUE]
    } else {
        seq![codes::FALSE]
    }
}

/// The encoding of a float given by its IEEE-754 bits: `FLOAT` and the four bytes.
pub open spec fn float_encoding(bits: u32) -> Seq<u8> {
    seq![codes::FLOAT] + be_bytes(bits as i32 as i64, 4)
}

/// The encoding of a double given by its IEEE-754 bits: the doubles equal to 0.0
/// (either sign) and to 1.0 have codes of their own; any other is `DOUBLE` and its
/// eight bytes.
pub open spec fn double_encoding(bits: u64) -> Seq<u8> {
    if bits == 0 || bits == 0x8000000000000000 {
        seq![codes::DOUBLE_0]
    } else if bits == 0x3FF0000000000000 {
        seq![codes::DOUBLE_1]
    } else {
        seq![codes::DOUBLE] + be_bytes(bits as i64, 8)
    }
}

/// The encoding of a byte array: a packed length code for short arrays; otherwise
/// chunks of at most `BYTE_CHUNK_SIZE` bytes, the last under `BYTES`, the others
/// under `BYTES_CHUNK`, each with its count.
pub open spec fn bytes_encoding(data: Seq<u8>) -> Seq<u8> {
    if data.len() < 8 {
        seq![(0xD0 + data.len()) as u8] + data
    } else {
        bytes_chunks_encoding(data)
    }
}

pub open spec fn bytes_chunks_encoding(data: Seq<u8>) -> Seq<u8>
    decreases data.len(),
{
    if data.len() > 65535 {
        seq![codes::BYTES_CHUNK] + int_encoding(65535) + data.take(65535)
            + bytes_chunks_encoding(data.skip(65535))
    } else {
        seq![codes::BYTES] + int_encoding(data.len() as i64) + data
    }
}

/// `u64_leading_zeros(x) >= k` exactly when `x` fits in `64 - k` bits.
proof fn lemma_leading_zeros_bound(x: u64, k: nat)
    requires
        k <= 64,
    ensures
        (u64_leading_zeros(x) >= k) <==> (x < pow2((64 - k) as nat)),
    decreases x,
{
    reveal(u64_leading_zeros);
    lemma_pow2_pos((64 - k) as nat);
    lemma2_to64();
    lemma2_to64_rest();
    vstd::std_specs::bits::axiom_u64_leading_zeros(x);
    if x == 0 {
    } else if k == 0 {
    } else if k == 64 {
        vstd::std_specs::bits::axiom_u64_leading_zeros(x / 2);
    } else {
        lemma_leading_zeros_bound(x / 2, k + 1);
        lemma_pow2_unfold((64 - k) as nat);
    }
}

/// The number of leading bits of `l` that merely repeat its sign.
fn bit_switch(l: i64) -> (r: u8)
    ensures
        r as int == if l < 0 {
            u64_leading_zeros((-(l + 1)) as u64)
        } else {
            u64_leading_zeros(l as u64)
        },
        1 <= r <= 64,
{
    let m: u64 = if l < 0 {
        let n = !l;
        assert(n == -(l + 1)) by (bit_vector)
            requires
                n == !l,
        ;
        n as u64
    } else {
        l as u64
    };
    proof {
        lemma2_to64();
        lemma2_to64_rest();
        vstd::std_specs::bits::axiom_u64_leading_zeros(m);
        lemma_leading_zeros_bound(m, 1);
    }
    m.leading_zeros() as u8
}

/// Adding a small signed offset to a packed-code base with `wrapping_add`, as the
/// encoder does, lands on the base plus the offset.
proof fn lemma_packed_code(zero: u8, s: i64)
    requires
        -16 <= s < 16,
        16 <= zero <= 239,
    ensures
        zero.wrapping_add(s as u8) == (zero + s) as u8,
{
    if s < 0 {
        let t = s as u8;
        assert(t == (s + 256) as u8) by (bit_vector)
            requires
                t == s as u8,
                -16 <= s < 0,
        ;
    }
}

/// Bytes taken by one UTF-16 code unit (or by a character as a whole) in Java's
/// modified UTF-8, as the encoder counts them.
pub open spec fn encoding_size_spec(ch: u32) -> nat {
    if ch <= 0x7f {
        1
    } else if ch > 0x7ff {
        3
    } else {
        2
    }
}

/// One UTF-16 code unit in Java's modified UTF-8.
pub open spec fn unit_encoding(ch: u32) -> Seq<u8> {
    if ch <= 0x7f {
        seq![ch as u8]
    } else if ch > 0x7ff {
        seq![(0xe0 | (ch >> 12 & 0x0f)) as u8, (0x80 | (ch >> 6 & 0x3f)) as u8, (0x80 | (ch & 0x3f)) as u8]
    } else {
        seq![(0xc0 | (ch >> 6 & 0x1f)) as u8, (0x80 | (ch & 0x3f)) as u8]
    }
}

/// The high surrogate of a character beyond the basic multilingual plane.
pub open spec fn high_surrogate(c: u32) -> u32 {
    (0xD800 + ((c - 0x10000) as u32 >> 10)) as u32
}

/// The low surrogate of a character beyond the basic multilingual plane.
pub open spec fn low_surrogate(c: u32) -> u32 {
    (0xDC00 + ((c - 0x10000) as u32 & 0x3FF)) as u32
}

/// A character in Java's modified UTF-8: characters beyond `0xFFFF` are written as
/// their two UTF-16 surrogates, each encoded on its own.
pub open spec fn char_encoding(c: char) -> Seq<u8> {
    if (c as u32) > 0xFFFF {
        unit_encoding(high_surrogate(c as u32)) + unit_encoding(low_surrogate(c as u32))
    } else {
        unit_encoding(c as u32)
    }
}

/// A character sequence in Java's modified UTF-8.
pub open spec fn chars_encoding(chars: Seq<char>) -> Seq<u8>
    decreases chars.len(),
{
    if chars.len() == 0 {
        Seq::empty()
    } else {
        chars_encoding(chars.drop_last()) + char_encoding(chars.last())
    }
}

/// How many of `chars` the encoder puts into a chunk that already holds `pos` bytes:
/// a character goes in while `pos` plus its counted size stays below `max`.
pub open spec fn chunk_char_count(chars: Seq<char>, max: nat, pos: nat) -> nat
    decreases chars.len(),
{
    if chars.len() == 0 {
        0
    } else if pos + encoding_size_spec(chars[0] as u32) < max {
        1 + chunk_char_count(chars.drop_first(), max, pos + char_encoding(chars[0]).len())
    } else {
        0
    }
}

/// The code (and count) in front of a string chunk of `len` bytes.
pub open spec fn string_chunk_header(len: nat, last: bool) -> Seq<u8> {
    if len < 8 {
        seq![(0xDA + len) as u8]
    } else if last {
        seq![codes::STRING] + int_encoding(len as i64)
    } else {
        seq![codes::STRING_CHUNK] + int_encoding(len as i64)
    }
}

/// The chunks of a string: each chunk takes as many characters as fit below `max`;
/// its header counts the bytes of those characters, and its body is their modified
/// UTF-8.
pub open spec fn string_chunks(chars: Seq<char>, max: nat) -> Seq<u8>
    decreases chars.len(),
{
    if chars.len() == 0 {
        Seq::empty()
    } else {
        let n = chunk_char_count(chars, max, 0);
        if n == 0 || n > chars.len() {
            Seq::empty()
        } else {
            let body = chars_encoding(chars.take(n as int));
            string_chunk_header(body.len(), n == chars.len()) + body + string_chunks(
                chars.skip(n as int),
                max,
            )
        }
    }
}

/// The largest chunk, in bytes, that the encoder prepares for a string.
pub open spec fn string_chunk_limit(chars: Seq<char>) -> nat {
    if 3 * encode_utf8(chars).len() < 65536 {
        3 * encode_utf8(chars).len()
    } else {
        65536
    }
}

/// A string in standard UTF-8: `UTF8`, the byte count, and the bytes.
pub open spec fn utf8_string_encoding(chars: Seq<char>) -> Seq<u8> {
    seq![codes::UTF8] + int_encoding(encode_utf8(chars).len() as i64) + encode_utf8(chars)
}

/// A string that the encoder writes as a single chunk.
pub open spec fn single_chunk(chars: Seq<char>) -> bool {
    chunk_char_count(chars, string_chunk_limit(chars), 0) == chars.len()
}

/// The Fressian encoding of a string.
pub open spec fn string_encoding(chars: Seq<char>) -> Seq<u8> {
    if chars.len() == 0 {
        seq![codes::STRING_PACKED_LENGTH_START]
    } else {
        string_chunks(chars, string_chunk_limit(chars))
    }
}

pub(crate) proof fn lemma_chars_encoding_concat(a: Seq<char>, b: Seq<char>)
    ensures
        chars_encoding(a + b) == chars_encoding(a) + chars_encoding(b),
    decreases b.len(),
{
    if b.len() == 0 {
        assert(a + b =~= a);
        assert(chars_encoding(a) + chars_encoding(b) =~= chars_encoding(a));
    } else {
        lemma_chars_encoding_concat(a, b.drop_last());
        assert((a + b).drop_last() =~= a + b.drop_last());
        assert((a + b).last() == b.last());
        assert(chars_encoding(a + b) =~= chars_encoding(a) + chars_encoding(b));
    }
}

/// A shorter prefix of a string encodes to a prefix of its encoding.
proof fn lemma_chars_encoding_prefix(chars: Seq<char>, i: int, j: int)
    requires
        0 <= i <= j <= chars.len(),
    ensures
        chars_encoding(chars.take(j)) == chars_encoding(chars.take(i)) + chars_encoding(
            chars.subrange(i, j),
        ),
{
    lemma_chars_encoding_concat(chars.take(i), chars.subrange(i, j));
    assert(chars.take(i) + chars.subrange(i, j) =~= chars.take(j));
}

proof fn lemma_chars_encoding_push(chars: Seq<char>, i: int, j: int)
    requires
        0 <= i <= j < chars.len(),
    ensures
        chars_encoding(chars.subrange(i, j + 1)) == chars_encoding(chars.subrange(i, j))
            + char_encoding(chars[j]),
{
    assert(chars.subrange(i, j + 1).drop_last() =~= chars.subrange(i, j));
}

/// The counted size of each character of a non-empty string is below its chunk limit.
proof fn lemma_chunk_limit_fits(chars: Seq<char>, k: int)
    requires
        0 <= k < chars.len(),
    ensures
        encoding_size_spec(chars[k] as u32) < string_chunk_limit(chars),
{
    lemma_utf8_len_bounds_char(chars, k);
}

#[derive(Clone, Debug)]
pub struct RawOutput;

impl RawOutput {
    pub fn write_raw_i16<B: IWriteBytes>(&mut self, writer: &mut B, i: i32) -> (r: Result<()>)
        requires
            old(writer).writer_wf(),
        ensures
            r is Ok,
            final(writer).writer_wf(),
            final(writer).written_bytes() == old(writer).written_bytes() + be_bytes(i as i64, 2),
    {
        let b1 = ((i >> 8) & 0xFF) as u8;
        let b0 = (i & 0xFF) as u8;
        assert(b1 == ((i as i64) >> 8) as u8 && b0 == (i as i64) as u8) by (bit_vector)
            requires
                b1 == ((i >> 8) & 0xFF) as u8,
                b0 == (i & 0xFF) as u8,
        ;
        writer.write_u8(b1)?;
        writer.write_u8(b0)?;
        proof {
            reveal_with_fuel(be_bytes, 3);
            assert(final(writer).written_bytes() =~= old(writer).written_bytes() + be_bytes(i as i64, 2));
        }
        Ok(())
    }

    pub fn write_raw_i24<B: IWriteBytes>(&mut self, writer: &mut B, i: i32) -> (r: Result<()>)
        requires
            old(writer).writer_wf(),
        ensures
            r is Ok,
            final(writer).writer_wf(),
            final(writer).written_bytes() == old(writer).written_bytes() + be_bytes(i as i64, 3),
    {
        let b2 = ((i >> 16) & 0xFF) as u8;
        let b1 = ((i >> 8) & 0xFF) as u8;
        let b0 = (i & 0xFF) as u8;
        assert(b2 == (((i as i64) >> 8) >> 8) as u8 && b1 == ((i as i64) >> 8) as u8 && b0 == (
        i as i64) as u8) by (bit_vector)
            requires
                b2 == ((i >> 16) & 0xFF) as u8,
                b1 == ((i >> 8) & 0xFF) as u8,
                b0 == (i & 0xFF) as u8,
        ;
        writer.write_u8(b2)?;
        writer.write_u8(b1)?;
        writer.write_u8(b0)?;
        proof {
            reveal_with_fuel(be_bytes, 4);
            assert(final(writer).written_bytes() =~= old(writer).written_bytes() + be_bytes(i as i64, 3));
        }
        Ok(())
    }

    pub fn write_raw_i32<B: IWriteBytes>(&mut self, writer: &mut B, i: i32) -> (r: Result<()>)
        requires
            old(writer).writer_wf(),
        ensures
            r is Ok,
            final(writer).writer_wf(),
            final(writer).written_bytes() == old(writer).written_bytes() + be_bytes(i as i64, 4),
    {
        let b3 = ((i >> 24) & 0xFF) as u8;
        let b2 = ((i >> 16) & 0xFF) as u8;
        let b1 = ((i >> 8) & 0xFF) as u8;
        let b0 = (i & 0xFF) as u8;
        assert(b3 == ((((i as i64) >> 8) >> 8) >> 8) as u8 && b2 == (((i as i64) >> 8) >> 8) as u8
            && b1 == ((i as i64) >> 8) as u8 && b0 == (i as i64) as u8) by (bit_vector)
            requires
                b3 == ((i >> 24) & 0xFF) as u8,
                b2 == ((i >> 16) & 0xFF) as u8,
                b1 == ((i >> 8) & 0xFF) as u8,
                b0 == (i & 0xFF) as u8,
        ;
        writer.write_u8(b3)?;
        writer.write_u8(b2)?;
        writer.write_u8(b1)?;
        writer.write_u8(b0)?;
        proof {
            reveal_with_fuel(be_bytes, 5);
            assert(final(writer).written_bytes() =~= old(writer).written_bytes() + be_bytes(i as i64, 4));
        }
        Ok(())
    }

    pub fn write_raw_i40<B: IWriteBytes>(&mut self, writer: &mut B, i: i64) -> (r: Result<()>)
        requires
            old(writer).writer_wf(),
        ensures
            r is Ok,
            final(writer).writer_wf(),
            final(writer).written_bytes() == old(writer).written_bytes() + be_bytes(i, 5),
    {
        let b4 = ((i >> 32) & 0xFF) as u8;
        let b3 = ((i >> 24) & 0xFF) as u8;
        let b2 = ((i >> 16) & 0xFF) as u8;
        let b1 = ((i >> 8) & 0xFF) as u8;
        let b0 = (i & 0xFF) as u8;
        assert(b4 == (((((i >> 8) >> 8) >> 8) >> 8) as u8) && b3 == ((((i >> 8) >> 8) >> 8) as u8)
            && b2 == (((i >> 8) >> 8) as u8) && b1 == ((i >> 8) as u8) && b0 == (i as u8))
            by (bit_vector)
            requires
                b4 == ((i >> 32) & 0xFF) as u8,
                b3 == ((i >> 24) & 0xFF) as u8,
                b2 == ((i >> 16) & 0xFF) as u8,
                b1 == ((i >> 8) & 0xFF) as u8,
                b0 == (i & 0xFF) as u8,
        ;
        writer.write_u8(b4)?;
        writer.write_u8(b3)?;
        writer.write_u8(b2)?;
        writer.write_u8(b1)?;
        writer.write_u8(b0)?;
        proof {
            reveal_with_fuel(be_bytes, 6);
            assert(final(writer).written_bytes() =~= old(writer).written_bytes() + be_bytes(i, 5));
        }
        Ok(())
    }

    pub fn write_raw_i48<B: IWriteBytes>(&mut self, writer: &mut B, i: i64) -> (r: Result<()>)
        requires
            old(writer).writer_wf(),
        ensures
            r is Ok,
            final(writer).writer_wf(),
            final(writer).written_bytes() == old(writer).written_bytes() + be_bytes(i, 6),
    {
        let b5 = ((i >> 40) & 0xFF) as u8;
        let b4 = ((i >> 32) & 0xFF) as u8;
        let b3 = ((i >> 24) & 0xFF) as u8;
        let b2 = ((i >> 16) & 0xFF) as u8;
        let b1 = ((i >> 8) & 0xFF) as u8;
        let b0 = (i & 0xFF) as u8;
        assert(b5 == ((((((i >> 8) >> 8) >> 8) >> 8) >> 8) as u8) && b4 == (((((i >> 8) >> 8)
            >> 8) >> 8) as u8) && b3 == ((((i >> 8) >> 8) >> 8) as u8) && b2 == (((i >> 8) >> 8)
            as u8) && b1 == ((i >> 8) as u8) && b0 == (i as u8)) by (bit_vector)
            requires
                b5 == ((i >> 40) & 0xFF) as u8,
                b4 == ((i >> 32) & 0xFF) as u8,
                b3 == ((i >> 24) & 0xFF) as u8,
                b2 == ((i >> 16) & 0xFF) as u8,
                b1 == ((i >> 8) & 0xFF) as u8,
                b0 == (i & 0xFF) as u8,
        ;
        writer.write_u8(b5)?;
        writer.write_u8(b4)?;
        writer.write_u8(b3)?;
        writer.write_u8(b2)?;
        writer.write_u8(b1)?;
        writer.write_u8(b0)?;
        proof {
            reveal_with_fuel(be_bytes, 7);
            assert(final(writer).written_bytes() =~= old(writer).written_bytes() + be_bytes(i, 6));
        }
        Ok(())
    }

    pub fn write_raw_i64<B: IWriteBytes>(&mut self, writer: &mut B, i: i64) -> (r: Result<()>)
        requires
            old(writer).writer_wf(),
        ensures
            r is Ok,
            final(writer).writer_wf(),
            final(writer).written_bytes() == old(writer).written_bytes() + be_bytes(i, 8),
    {
        let b7 = (i >> 56) as u8;
        let b6 = (i >> 48) as u8;
        let b5 = (i >> 40) as u8;
        let b4 = (i >> 32) as u8;
        let b3 = (i >> 24) as u8;
        let b2 = (i >> 16) as u8;
        let b1 = (i >> 8) as u8;
        let b0 = (i >> 0) as u8;
        assert(b7 == ((((((((i >> 8) >> 8) >> 8) >> 8) >> 8) >> 8) >> 8) as u8) && b6 == (((((((i
            >> 8) >> 8) >> 8) >> 8) >> 8) >> 8) as u8) && b5 == ((((((i >> 8) >> 8) >> 8) >> 8)
            >> 8) as u8) && b4 == (((((i >> 8) >> 8) >> 8) >> 8) as u8) && b3 == ((((i >> 8) >> 8)
            >> 8) as u8) && b2 == (((i >> 8) >> 8) as u8) && b1 == ((i >> 8) as u8) && b0 == (i
            as u8)) by (bit_vector)
            requires
                b7 == (i >> 56) as u8,
                b6 == (i >> 48) as u8,
                b5 == (i >> 40) as u8,
                b4 == (i >> 32) as u8,
                b3 == (i >> 24) as u8,
                b2 == (i >> 16) as u8,
                b1 == (i >> 8) as u8,
                b0 == (i >> 0) as u8,
        ;
        writer.write_u8(b7)?;
        writer.write_u8(b6)?;
        writer.write_u8(b5)?;
        writer.write_u8(b4)?;
        writer.write_u8(b3)?;
        writer.write_u8(b2)?;
        writer.write_u8(b1)?;
        writer.write_u8(b0)?;
        proof {
            reveal_with_fuel(be_bytes, 9);
            assert(final(writer).written_bytes() =~= old(writer).written_bytes() + be_bytes(i, 8));
        }
        Ok(())
    }

    pub fn write_code<B: IWriteBytes>(&mut self, writer: &mut B, code: u8) -> (r: Result<()>)
        requires
            old(writer).writer_wf(),
        ensures
            r is Ok,
            final(writer).writer_wf(),
            final(writer).written_bytes() == old(writer).written_bytes().push(code),
    {
        writer.write_u8(code)
    }

    /// Writes `i` in the shortest packed form whose range holds it.
    pub fn write_int<B: IWriteBytes>(&mut self, writer: &mut B, i: i64) -> (r: Result<()>)
        requires
            old(writer).writer_wf(),
        ensures
            r is Ok,
            final(writer).writer_wf(),
            final(writer).written_bytes() == old(writer).written_bytes() + int_encoding(i),
    {
        let sw = bit_switch(i);
        let ghost m: u64 = if i < 0 { (-(i + 1)) as u64 } else { i as u64 };
        proof {
            lemma2_to64();
            lemma2_to64_rest();
            lemma_leading_zeros_bound(m, 15);
            lemma_leading_zeros_bound(m, 23);
            lemma_leading_zeros_bound(m, 31);
            lemma_leading_zeros_bound(m, 39);
            lemma_leading_zeros_bound(m, 45);
            lemma_leading_zeros_bound(m, 52);
            lemma_leading_zeros_bound(m, 58);
        }
        let ghost start = writer.written_bytes();
        match sw {
            1..=14 => {
                writer.write_u8(codes::INT)?;
                self.write_raw_i64(writer, i)?;
                assert(writer.written_bytes() =~= start + int_encoding(i));
                Ok(())
            },
            15..=22 => {
                assert(-0x2000000000000 <= i < 0x2000000000000);
                assert(-2 <= (i >> 48) < 2) by (bit_vector)
                    requires
                        -0x2000000000000 <= i < 0x2000000000000,
                ;
                proof { lemma_packed_code(codes::INT_PACKED_7_ZERO, i >> 48); }
                writer.write_u8(codes::INT_PACKED_7_ZERO.wrapping_add((i >> 48) as u8))?;
                self.write_raw_i48(writer, i)?;
                assert(writer.written_bytes() =~= start + int_encoding(i));
                Ok(())
            },
            23..=30 => {
                assert(-0x20000000000 <= i < 0x20000000000);
                assert(-2 <= (i >> 40) < 2) by (bit_vector)
                    requires
                        -0x20000000000 <= i < 0x20000000000,
                ;
                proof { lemma_packed_code(codes::INT_PACKED_6_ZERO, i >> 40); }
                writer.write_u8(codes::INT_PACKED_6_ZERO.wrapping_add((i >> 40) as u8))?;
                self.write_raw_i40(writer, i)?;
                assert(writer.written_bytes() =~= start + int_encoding(i));
                Ok(())
            },
            31..=38 => {
                assert(-0x200000000 <= i < 0x200000000);
                assert(-2 <= (i >> 32) < 2) by (bit_vector)
                    requires
                        -0x200000000 <= i < 0x200000000,
                ;
                proof {
                    lemma_packed_code(codes::INT_PACKED_5_ZERO, i >> 32);
                    lemma_low_bytes_i32(i);
                }
                writer.write_u8(codes::INT_PACKED_5_ZERO.wrapping_add((i >> 32) as u8))?;
                self.write_raw_i32(writer, i as i32)?;
                assert(writer.written_bytes() =~= start + int_encoding(i));
                Ok(())
            },
            39..=44 => {
                assert(-0x2000000 <= i < 0x2000000);
                assert(-2 <= (i >> 24) < 2) by (bit_vector)
                    requires
                        -0x2000000 <= i < 0x2000000,
                ;
                proof {
                    lemma_packed_code(codes::INT_PACKED_4_ZERO, i >> 24);
                    lemma_low_bytes_i32(i);
                }
                writer.write_u8(codes::INT_PACKED_4_ZERO.wrapping_add((i >> 24) as u8))?;
                self.write_raw_i24(writer, i as i32)?;
                assert(writer.written_bytes() =~= start + int_encoding(i));
                Ok(())
            },
            45..=51 => {
                assert(-0x80000 <= i < 0x80000);
                assert(-8 <= (i >> 16) < 8) by (bit_vector)
                    requires
                        -0x80000 <= i < 0x80000,
                ;
                proof {
                    lemma_packed_code(codes::INT_PACKED_3_ZERO, i >> 16);
                    lemma_low_bytes_i32(i);
                }
                writer.write_u8(codes::INT_PACKED_3_ZERO.wrapping_add((i >> 16) as u8))?;
                self.write_raw_i16(writer, i as i32)?;
                assert(writer.written_bytes() =~= start + int_encoding(i));
                Ok(())
            },
            52..=57 => {
                assert(-0x1000 <= i < 0x1000);
                assert(-16 <= (i >> 8) < 16) by (bit_vector)
                    requires
                        -0x1000 <= i < 0x1000,
                ;
                proof { lemma_packed_code(codes::INT_PACKED_2_ZERO, i >> 8); }
                writer.write_u8(codes::INT_PACKED_2_ZERO.wrapping_add((i >> 8) as u8))?;
                writer.write_u8(i as u8)?;
                assert(writer.written_bytes() =~= start + int_encoding(i));
                Ok(())
            },
            58..=64 => {
                assert(-64 <= i < 64);
                if i < -1 {
                    assert(-16 <= (i >> 8) < 16) by (bit_vector)
                        requires
                            -64 <= i < 64,
                    ;
                    proof { lemma_packed_code(codes::INT_PACKED_2_ZERO, i >> 8); }
                    writer.write_u8(codes::INT_PACKED_2_ZERO.wrapping_add((i >> 8) as u8))?;
                    writer.write_u8(i as u8)?;
                    assert(writer.written_bytes() =~= start + int_encoding(i));
                    Ok(())
                } else {
                    writer.write_u8(i as u8)?;
                    assert(writer.written_bytes() =~= start + int_encoding(i));
                    Ok(())
                }
            },
            _ => Err(Error::msg("more than 64 bits in a long!".to_owned())),
        }
    }

    /// Writes a count as an integer.
    /// Writes `s` in standard UTF-8: `UTF8`, the byte count, and the bytes.
    pub fn write_raw_utf8<B: IWriteBytes>(&mut self, writer: &mut B, s: &str) -> (r: Result<()>)
        requires
            old(writer).writer_wf(),
        ensures
            r is Ok,
            final(writer).writer_wf(),
            final(writer).written_bytes() == old(writer).written_bytes() + utf8_string_encoding(s@),
    {
        let bytes = s.as_bytes();
        let length = bytes.len();
        writer.write_u8(codes::UTF8)?;
        self.write_count(writer, length)?;
        writer.write_bytes(bytes, 0, length)?;
        assert(bytes@.subrange(0, length as int) =~= bytes@);
        assert(writer.written_bytes() =~= old(writer).written_bytes() + utf8_string_encoding(s@));
        Ok(())
    }

    pub fn write_count<B: IWriteBytes>(&mut self, writer: &mut B, count: usize) -> (r: Result<()>)
        requires
            old(writer).writer_wf(),
        ensures
            r is Ok,
            final(writer).writer_wf(),
            final(writer).written_bytes() == old(writer).written_bytes() + int_encoding(
                count as i64,
            ),
    {
        self.write_int(writer, count as i64)
    }

    pub fn write_null<B: IWriteBytes>(&mut self, writer: &mut B) -> (r: Result<()>)
        requires
            old(writer).writer_wf(),
        ensures
            r is Ok,
            final(writer).writer_wf(),
            final(writer).written_bytes() == old(writer).written_bytes().push(codes::NULL),
    {
        writer.write_u8(codes::NULL)
    }

    pub fn write_boolean<B: IWriteBytes>(&mut self, writer: &mut B, b: bool) -> (r: Result<()>)
        requires
            old(writer).writer_wf(),
        ensures
            r is Ok,
            final(writer).writer_wf(),
            final(writer).written_bytes() == old(writer).written_bytes() + boolean_encoding(b),
    {
        let ghost start = writer.written_bytes();
        let r = if b {
            writer.write_u8(codes::TRUE)
        } else {
            writer.write_u8(codes::FALSE)
        };
        assert(writer.written_bytes() =~= start + boolean_encoding(b));
        r
    }

    /// Writes the four bytes of a float's IEEE-754 bits, most significant first.
    pub fn write_raw_float<B: IWriteBytes>(&mut self, writer: &mut B, bits: u32) -> (r: Result<()>)
        requires
            old(writer).writer_wf(),
        ensures
            r is Ok,
            final(writer).writer_wf(),
            final(writer).written_bytes() == old(writer).written_bytes() + be_bytes(bits as i32 as i64, 4),
    {
        self.write_raw_i32(writer, bits as i32)
    }

    /// Writes the eight bytes of a double's IEEE-754 bits, most significant first.
    pub fn write_raw_double<B: IWriteBytes>(&mut self, writer: &mut B, bits: u64) -> (r: Result<()>)
        requires
            old(writer).writer_wf(),
        ensures
            r is Ok,
            final(writer).writer_wf(),
            final(writer).written_bytes() == old(writer).written_bytes() + be_bytes(bits as i64, 8),
    {
        self.write_raw_i64(writer, bits as i64)
    }

    /// Writes a float, given by its IEEE-754 bits.
    pub fn write_float<B: IWriteBytes>(&mut self, writer: &mut B, bits: u32) -> (r: Result<()>)
        requires
            old(writer).writer_wf(),
        ensures
            r is Ok,
            final(writer).writer_wf(),
            final(writer).written_bytes() == old(writer).written_bytes() + float_encoding(bits),
    {
        let ghost start = writer.written_bytes();
        self.write_code(writer, codes::FLOAT)?;
        self.write_raw_float(writer, bits)?;
        assert(writer.written_bytes() =~= start + float_encoding(bits));
        Ok(())
    }

    /// Writes a double, given by its IEEE-754 bits.
    pub fn write_double<B: IWriteBytes>(&mut self, writer: &mut B, bits: u64) -> (r: Result<()>)
        requires
            old(writer).writer_wf(),
        ensures
            r is Ok,
            final(writer).writer_wf(),
            final(writer).written_bytes() == old(writer).written_bytes() + double_encoding(bits),
    {
        let ghost start = writer.written_bytes();
        if bits == 0 || bits == 0x8000000000000000 {
            self.write_code(writer, codes::DOUBLE_0)?;
        } else if bits == 0x3FF0000000000000 {
            self.write_code(writer, codes::DOUBLE_1)?;
        } else {
            self.write_code(writer, codes::DOUBLE)?;
            self.write_raw_double(writer, bits)?;
        }
        assert(writer.written_bytes() =~= start + double_encoding(bits));
        Ok(())
    }
}

impl RawOutput {
    /// Writes `bytes[offset .. offset + length]` as a Fressian byte array.
    pub fn write_bytes<B: IWriteBytes>(
        &mut self,
        writer: &mut B,
        bytes: &[u8],
        offset: usize,
        length: usize,
    ) -> (r: Result<()>)
        requires
            old(writer).writer_wf(),
            offset + length <= bytes@.len(),
        ensures
            r is Ok,
            final(writer).writer_wf(),
            final(writer).written_bytes() == old(writer).written_bytes() + bytes_encoding(
                bytes@.subrange(offset as int, offset + length),
            ),
    {
        let ghost start = writer.written_bytes();
        let ghost data = bytes@.subrange(offset as int, offset + length);
        if length < ranges::BYTES_PACKED_LENGTH_END {
            writer.write_u8(codes::BYTES_PACKED_LENGTH_START + length as u8)?;
            writer.write_bytes(bytes, offset, length)?;
            assert(writer.written_bytes() =~= start + bytes_encoding(data));
            Ok(())
        } else {
            let mut length = length;
            let mut offset = offset;
            assert(bytes@.len() <= usize::MAX) by {
                assert(bytes.len() == bytes@.len());
            }
            while ranges::BYTE_CHUNK_SIZE < length
                invariant
                    writer.writer_wf(),
                    bytes@.len() <= usize::MAX,
                    offset + length <= bytes@.len(),
                    writer.written_bytes() + bytes_chunks_encoding(
                        bytes@.subrange(offset as int, offset + length),
                    ) == start + bytes_chunks_encoding(data),
                decreases length,
            {
                let ghost cur = bytes@.subrange(offset as int, offset + length);
                let ghost before = writer.written_bytes();
                writer.write_u8(codes::BYTES_CHUNK)?;
                self.write_count(writer, ranges::BYTE_CHUNK_SIZE)?;
                writer.write_bytes(bytes, offset, ranges::BYTE_CHUNK_SIZE)?;
                offset = offset + ranges::BYTE_CHUNK_SIZE;
                length = length - ranges::BYTE_CHUNK_SIZE;
                assert(cur.take(65535) =~= bytes@.subrange(offset - 65535, offset as int));
                assert(cur.skip(65535) =~= bytes@.subrange(offset as int, offset + length));
                assert(writer.written_bytes() =~= before + (seq![codes::BYTES_CHUNK]
                    + int_encoding(65535) + cur.take(65535)));
                assert(writer.written_bytes() + bytes_chunks_encoding(
                    bytes@.subrange(offset as int, offset + length),
                ) =~= before + bytes_chunks_encoding(cur));
            }
            let ghost cur = bytes@.subrange(offset as int, offset + length);
            let ghost before = writer.written_bytes();
            writer.write_u8(codes::BYTES)?;
            self.write_count(writer, length)?;
            writer.write_bytes(bytes, offset, length)?;
            assert(writer.written_bytes() =~= before + bytes_chunks_encoding(cur));
            assert(writer.written_bytes() =~= start + bytes_encoding(data));
            Ok(())
        }
    }
}

impl RawOutput {
    /// Writes `s` in Java's modified UTF-8, in chunks (see `string_encoding`).
    pub fn write_string<B: IWriteBytes>(&mut self, writer: &mut B, s: &str) -> (r: Result<()>)
        requires
            old(writer).writer_wf(),
            3 * encode_utf8(s@).len() <= usize::MAX,
        ensures
            r is Ok,
            final(writer).writer_wf(),
            final(writer).written_bytes() == old(writer).written_bytes() + string_encoding(s@),
    {
        let ghost start = writer.written_bytes();
        let ghost chars = s@;
        proof {
            lemma_utf8_len_at_least_chars(chars);
        }
        let char_length: usize = char_count(s);
        if char_length == 0 {
            writer.write_u8(codes::STRING_PACKED_LENGTH_START)?;
            assert(writer.written_bytes() =~= start + string_encoding(s@));
        } else {
            let ghost all = chars_encoding(chars);
            let mut j_char_length: usize = char_length;
            let mut string_pos: usize = 0;
            let mut j_string_pos: usize = 0;
            let mut iter = put_back_chars(s);
            let byte_len = s.len();
            let max_buf_needed: usize = if byte_len * 3 < 65536 {
                byte_len * 3
            } else {
                65536
            };
            let ghost max = max_buf_needed as nat;
            assert(max == string_chunk_limit(chars));
            let mut buffer: Vec<u8> = Vec::with_capacity(max_buf_needed);
            assert(chars.take(0) =~= Seq::<char>::empty());
            assert(chars.skip(0) =~= chars);
            while string_pos < char_length
                invariant
                    writer.writer_wf(),
                    chars == s@,
                    all == chars_encoding(chars),
                    0 < char_length == chars.len(),
                    3 * char_length <= usize::MAX,
                    max == max_buf_needed,
                    max == string_chunk_limit(chars),
                    max <= 65536,
                    string_pos <= char_length,
                    put_back_items(iter) == chars.skip(string_pos as int),
                    buffer@ == chars_encoding(chars.take(string_pos as int)),
                    j_string_pos <= j_char_length,
                    j_char_length - j_string_pos == char_length - string_pos,
                    j_char_length <= char_length + string_pos,
                    writer.written_bytes() + string_chunks(chars.skip(string_pos as int), max)
                        == start + string_chunks(chars, max),
                decreases char_length - string_pos,
            {
                let ghost c0 = string_pos as int;
                let ghost written0 = writer.written_bytes();
                let chunk_start: usize = buffer.len();
                let mut buf_pos: usize = 0;
                assert(chars.subrange(c0, c0) =~= Seq::<char>::empty());
                proof {
                    lemma_chunk_limit_fits(chars, c0);
                    assert(chars.skip(c0)[0] == chars[c0]);
                }
                loop
                    invariant_except_break
                        chars == s@,
                        0 < char_length == chars.len(),
                        3 * char_length <= usize::MAX,
                        max == max_buf_needed,
                        max == string_chunk_limit(chars),
                        max <= 65536,
                        c0 <= string_pos <= char_length,
                        0 <= c0 < char_length,
                        encoding_size_spec(chars[c0] as u32) < max,
                        string_pos == c0 ==> buf_pos == 0,
                        chunk_start == chars_encoding(chars.take(c0)).len(),
                        put_back_items(iter) == chars.skip(string_pos as int),
                        buffer@ == chars_encoding(chars.take(string_pos as int)),
                        buf_pos == chars_encoding(chars.subrange(c0, string_pos as int)).len(),
                        buf_pos < max + 6,
                        buf_pos <= buffer@.len(),
                        string_pos > c0 ==> buf_pos > 0,
                        chunk_char_count(chars.skip(c0), max, 0) == (string_pos - c0)
                            + chunk_char_count(chars.skip(string_pos as int), max, buf_pos as nat),
                        j_string_pos <= j_char_length,
                        j_char_length - j_string_pos == char_length - string_pos,
                        j_char_length <= char_length + string_pos,
                        writer.written_bytes() == written0,
                        writer.writer_wf(),
                    ensures
                        chars == s@,
                        0 < char_length == chars.len(),
                        3 * char_length <= usize::MAX,
                        max == max_buf_needed,
                        c0 < string_pos <= char_length,
                        chunk_start == chars_encoding(chars.take(c0)).len(),
                        put_back_items(iter) == chars.skip(string_pos as int),
                        buffer@ == chars_encoding(chars.take(string_pos as int)),
                        buf_pos == chars_encoding(chars.subrange(c0, string_pos as int)).len(),
                        chunk_char_count(chars.skip(c0), max, 0) == string_pos - c0,
                        j_string_pos <= j_char_length,
                        j_char_length - j_string_pos == char_length - string_pos,
                        j_char_length <= char_length + string_pos,
                        writer.written_bytes() == written0,
                        writer.writer_wf(),
                    decreases char_length - string_pos,
                {
                    let ghost it_before = iter;
                    let ch = put_back_next(&mut iter);
                    match ch {
                        Some(ch) => {
                            let ghost k = string_pos as int;
                            assert(put_back_items(it_before).len() > 0);
                            assert(k < chars.len());
                            assert(chars.skip(k)[0] == chars[k]);
                            assert(ch == chars[k]);
                            proof {
                                vstd::utf8::char_is_scalar(ch);
                            }
                            let enc_size = encoding_size(ch as u32);
                            if buf_pos + enc_size < max_buf_needed {
                                proof {
                                    lemma_chars_encoding_push(chars, 0, k);
                                    lemma_chars_encoding_push(chars, c0, k);
                                    assert(chars.take(k) =~= chars.subrange(0, k));
                                    assert(chars.take(k + 1) =~= chars.subrange(0, k + 1));
                                    assert(chars.skip(k).drop_first() =~= chars.skip(k + 1));
                                }
                                if 0xFFFF < ch as u32 {
                                    let c = ch as u32 - 0x10000;
                                    assert(c >> 10 <= 0x3FF) by (bit_vector)
                                        requires
                                            c <= 0x10FFFF - 0x10000,
                                    ;
                                    assert(c & 0x3FF <= 0x3FF) by (bit_vector);
                                    let hi: u32 = 0xD800 + (c >> 10);
                                    let lo: u32 = 0xDC00 + (c & 0x3FF);
                                    assert(hi == high_surrogate(ch as u32));
                                    assert(lo == low_surrogate(ch as u32));
                                    write_char(hi, &mut buffer, &mut buf_pos);
                                    write_char(lo, &mut buffer, &mut buf_pos);
                                    string_pos = string_pos + 1;
                                    j_string_pos = j_string_pos + 2;
                                    j_char_length = j_char_length + 1;
                                    assert(buffer@ =~= chars_encoding(chars.take(string_pos as int)));
                                    continue;
                                } else {
                                    write_char(ch as u32, &mut buffer, &mut buf_pos);
                                    string_pos = string_pos + 1;
                                    j_string_pos = j_string_pos + 1;
                                    continue;
                                }
                            } else {
                                put_back_char(&mut iter, ch);
                                assert(put_back_items(iter) =~= chars.skip(string_pos as int));
                                break;
                            }
                        },
                        None => {
                            assert(string_pos == char_length);
                            assert(chars.skip(string_pos as int) =~= Seq::<char>::empty());
                            break;
                        },
                    }
                }
                let ghost n = (string_pos - c0) as nat;
                let ghost rest = chars.skip(c0);
                let ghost body = chars_encoding(chars.subrange(c0, string_pos as int));
                proof {
                    assert(rest.take(n as int) =~= chars.subrange(c0, string_pos as int));
                    assert(rest.skip(n as int) =~= chars.skip(string_pos as int));
                    lemma_chars_encoding_prefix(chars, c0, string_pos as int);
                    assert(buffer@.subrange(chunk_start as int, chunk_start + buf_pos) =~= body);
                }
                if buf_pos < ranges::STRING_PACKED_LENGTH_END {
                    writer.write_u8(codes::STRING_PACKED_LENGTH_START.wrapping_add(buf_pos as u8))?;
                } else if j_string_pos == j_char_length {
                    self.write_code(writer, codes::STRING)?;
                    self.write_count(writer, buf_pos)?;
                } else {
                    self.write_code(writer, codes::STRING_CHUNK)?;
                    self.write_count(writer, buf_pos)?;
                }
                let ghost header = string_chunk_header(buf_pos as nat, n == rest.len());
                assert(writer.written_bytes() =~= written0 + header);
                writer.write_bytes(buffer.as_slice(), chunk_start, buf_pos)?;
                assert(string_chunks(rest, max) =~= header + body
                    + string_chunks(chars.skip(string_pos as int), max));
                assert(writer.written_bytes() + string_chunks(chars.skip(string_pos as int), max)
                    =~= start + string_chunks(chars, max));
            }
            assert(chars.skip(char_length as int) =~= Seq::<char>::empty());
            assert(writer.written_bytes() =~= start + string_encoding(s@));
        }
        Ok(())
    }
}

/// The size that the encoder counts for a code unit or character.
fn encoding_size(ch: u32) -> (n: usize)
    ensures
        n == encoding_size_spec(ch),
{
    if ch <= 0x007f {
        return 1;
    } else if ch > 0x07ff {
        return 3;
    } else {
        return 2;
    }
}

/// Appends `byte` to `v` and advances `index`; `index` must not be past the end of `v`.
fn add_byte_at_index(v: &mut Vec<u8>, index: &mut usize, byte: u8)
    requires
        *old(index) <= old(v)@.len(),
        *old(index) < usize::MAX,
    ensures
        final(v)@ == old(v)@.push(byte),
        *final(index) == *old(index) + 1,
{
    let length = v.len();
    if *index <= length {
        v.push(byte);
        *index = *index + 1;
    } else {
        v.set(*index, byte);
        *index = *index + 1;
    }
}

/// Appends one code unit in Java's modified UTF-8 to `buffer`.
fn write_char(ch: u32, buffer: &mut Vec<u8>, buf_pos: &mut usize)
    requires
        *old(buf_pos) <= old(buffer)@.len(),
        *old(buf_pos) + 3 <= usize::MAX,
    ensures
        final(buffer)@ == old(buffer)@ + unit_encoding(ch),
        *final(buf_pos) == *old(buf_pos) + unit_encoding(ch).len(),
{
    let ghost start = buffer@;
    match encoding_size(ch) {
        1 => {
            add_byte_at_index(buffer, buf_pos, ch as u8);
        },
        2 => {
            add_byte_at_index(buffer, buf_pos, (0xc0 | ch as u32 >> 6 & 0x1f) as u8);
            add_byte_at_index(buffer, buf_pos, (0x80 | ch as u32 >> 0 & 0x3f) as u8);
            assert(ch >> 0 == ch) by (bit_vector);
        },
        _ => {
            add_byte_at_index(buffer, buf_pos, (0xe0 | ch as u32 >> 12 & 0x0f) as u8);
            add_byte_at_index(buffer, buf_pos, (0x80 | ch as u32 >> 6 & 0x3f) as u8);
            add_byte_at_index(buffer, buf_pos, (0x80 | ch as u32 >> 0 & 0x3f) as u8);
            assert(ch >> 0 == ch) by (bit_vector);
        },
    }
    assert(buffer@ =~= start + unit_encoding(ch));
}

/// The low bytes of an integer survive truncation to 32 bits.
proof fn lemma_low_bytes_i32(i: i64)
    ensures
        be_bytes((i as i32) as i64, 2) == be_bytes(i, 2),
        be_bytes((i as i32) as i64, 3) == be_bytes(i, 3),
        be_bytes((i as i32) as i64, 4) == be_bytes(i, 4),
{
    let j = (i as i32) as i64;
    assert(j as u8 == i as u8 && (j >> 8) as u8 == (i >> 8) as u8 && ((j >> 8) >> 8) as u8 == ((i
        >> 8) >> 8) as u8 && (((j >> 8) >> 8) >> 8) as u8 == (((i >> 8) >> 8) >> 8) as u8)
        by (bit_vector)
        requires
            j == (i as i32) as i64,
    ;
    reveal_with_fuel(be_bytes, 5);
    assert(be_bytes(j, 2) =~= be_bytes(i, 2));
    assert(be_bytes(j, 3) =~= be_bytes(i, 3));
    assert(be_bytes(j, 4) =~= be_bytes(i, 4));
}

} // verus!

verus! {

/// A byte writer that encodes Fressian values directly.
pub struct FressianWriter {
    out: ByteWriter,
}

impl FressianWriter {
    /// The bytes written since creation or the last reset.
    pub closed spec fn written(&self) -> Seq<u8> {
        self.out.written()
    }

    pub closed spec fn wf(&self) -> bool {
        self.out.wf()
    }

    pub fn from_vec(v: Vec<u8>) -> (w: Self)
        ensures
            w.wf(),
            w.written() == Seq::<u8>::empty(),
    {
        FressianWriter { out: ByteWriter::from_vec(v) }
    }

    /// A copy of the bytes written.
    pub fn to_vec(&mut self) -> (v: Vec<u8>)
        requires
            old(self).wf(),
        ensures
            *final(self) == *old(self),
            v@ == old(self).written(),
    {
        self.out.to_vec()
    }

    /// Starts writing again from the front of the buffer.
    pub fn reset(&mut self)
        ensures
            final(self).wf(),
            final(self).written() == Seq::<u8>::empty(),
    {
        self.out.reset()
    }

    /// The number of bytes written.
    pub fn get_bytes_written(&self) -> (n: u64)
        requires
            self.wf(),
        ensures
            n == self.written().len(),
    {
        self.out.get_bytes_written()
    }

    pub fn write_code(&mut self, code: u8) -> (r: Result<()>)
        requires
            old(self).wf(),
        ensures
            r is Ok,
            final(self).wf(),
            final(self).written() == old(self).written().push(code),
    {
        RawOutput.write_code(&mut self.out, code)
    }

    pub fn write_int(&mut self, i: i64) -> (r: Result<()>)
        requires
            old(self).wf(),
        ensures
            r is Ok,
            final(self).wf(),
            final(self).written() == old(self).written() + int_encoding(i),
    {
        RawOutput.write_int(&mut self.out, i)
    }

    pub fn write_count(&mut self, count: usize) -> (r: Result<()>)
        requires
            old(self).wf(),
        ensures
            r is Ok,
            final(self).wf(),
            final(self).written() == old(self).written() + int_encoding(count as i64),
    {
        RawOutput.write_count(&mut self.out, count)
    }

    pub fn write_null(&mut self) -> (r: Result<()>)
        requires
            old(self).wf(),
        ensures
            r is Ok,
            final(self).wf(),
            final(self).written() == old(self).written().push(codes::NULL),
    {
        RawOutput.write_null(&mut self.out)
    }

    pub fn write_boolean(&mut self, b: bool) -> (r: Result<()>)
        requires
            old(self).wf(),
        ensures
            r is Ok,
            final(self).wf(),
            final(self).written() == old(self).written() + boolean_encoding(b),
    {
        RawOutput.write_boolean(&mut self.out, b)
    }

    /// Writes a float, given by its IEEE-754 bits.
    pub fn write_float(&mut self, bits: u32) -> (r: Result<()>)
        requires
            old(self).wf(),
        ensures
            r is Ok,
            final(self).wf(),
            final(self).written() == old(self).written() + float_encoding(bits),
    {
        RawOutput.write_float(&mut self.out, bits)
    }

    /// Writes a double, given by its IEEE-754 bits.
    pub fn write_double(&mut self, bits: u64) -> (r: Result<()>)
        requires
            old(self).wf(),
        ensures
            r is Ok,
            final(self).wf(),
            final(self).written() == old(self).written() + double_encoding(bits),
    {
        RawOutput.write_double(&mut self.out, bits)
    }

    pub fn write_bytes(&mut self, bytes: &[u8], offset: usize, length: usize) -> (r: Result<()>)
        requires
            old(self).wf(),
            offset + length <= bytes@.len(),
        ensures
            r is Ok,
            final(self).wf(),
            final(self).written() == old(self).written() + bytes_encoding(
                bytes@.subrange(offset as int, offset + length),
            ),
    {
        RawOutput.write_bytes(&mut self.out, bytes, offset, length)
    }

    /// Writes `s` in standard UTF-8: `UTF8`, the byte count, and the bytes.
    pub fn write_raw_utf8(&mut self, s: &str) -> (r: Result<()>)
        requires
            old(self).wf(),
        ensures
            r is Ok,
            final(self).wf(),
            final(self).written() == old(self).written() + utf8_string_encoding(s@),
    {
        RawOutput.write_raw_utf8(&mut self.out, s)
    }

    pub fn write_string(&mut self, s: &str) -> (r: Result<()>)
        requires
            old(self).wf(),
            3 * encode_utf8(s@).len() <= usize::MAX,
        ensures
            r is Ok,
            final(self).wf(),
            final(self).written() == old(self).written() + string_encoding(s@),
    {
        RawOutput.write_string(&mut self.out, s)
    }
}

} // verus!
