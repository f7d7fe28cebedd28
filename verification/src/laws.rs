//! What the encoders and the decoders promise of each other: a value written and then
//! read back is the value itself, and the read consumes exactly what was written.

use vstd::prelude::*;
use crate::imp::rawoutput::{be_bytes, int_encoding};
use crate::imp::rawinput::{be_uint, pow256, int_tail_len, int_read_ok, int_read_len, int_read_value};
use crate::imp::rawoutput::{unit_encoding, char_encoding, chars_encoding, high_surrogate,
    low_surrogate, lemma_chars_encoding_concat, encoding_size_spec, chunk_char_count,
    string_chunks, string_chunk_limit, string_chunk_header, string_encoding, single_chunk};
use crate::imp::chars::lemma_utf8_len_bounds_char;
use crate::imp::rawoutput::{bytes_encoding, bytes_chunks_encoding, boolean_encoding};
use crate::imp::rawinput::{int_read_outcome, bytes_read_outcome, string_read_outcome,
    fressian_string_value, count_at, after_count, string_at, string_body_at, utf8_body_at};
use crate::imp::cache::{default_hash_of, first_occurrence};
use crate::ser::{cached_string_encoding, cached_string_cache, cache_index};
use crate::de::{cached_string_at, named_at, long_at, longs_at, ints_at, booleans_at, array_header_at, Decode};
use crate::ser::{Encode, seq_encodes, list_encodes, list_header, plain, encodes_from_empty, map_encodes,
    encodes_with_footer, footer_encoding};
use crate::de::{items_at, list_header_at, event_at, plain_event_at, skip_puts, kind_of, EventView,
    ValueKind, list_start_at, is_string_code, events_at, event_after};
use crate::imp::rawoutput::{float_encoding, double_encoding, utf8_string_encoding};
use vstd::utf8::{encode_utf8_valid_utf8, encode_utf8_decode_utf8};
use crate::imp::rawinput::{bytes_at, lemma_be_uint_bound, chunked_bytes_at};
use crate::types::regex::REGEX;
use crate::types::uri::URI;
use crate::types::uuid::UUID;
use crate::types::set::{SET, HASHSET};
use std::hash::Hash;
use crate::types::sym::SYM;
use crate::types::key::KEY;
use crate::types::inst::INST;
use crate::types::typed_arrays::{LongArray, IntArray, BooleanArray, ints_encoding, booleans_encoding, widen};
use crate::types::sym::{cached_namespace_encoding, cached_namespace_cache};
use crate::imp::io::ByteReader;
use crate::imp::codes;
use crate::error::Result;
use vstd::utf8::{encode_utf8, encode_scalar};
use crate::imp::mutf8::{mutf8_decode, utf16_decode, prepend, two_byte_unit, three_byte_unit};
use vstd::utf8::char_is_scalar;

verus! {

/// `v` shifted right (arithmetically) by `8 * n` bits, one byte at a time.
pub open spec fn shr8(v: i64, n: nat) -> i64
    decreases n,
{
    if n == 0 {
        v
    } else {
        shr8(v >> 8, (n - 1) as nat)
    }
}

proof fn lemma_be_bytes_value(v: i64, n: nat)
    ensures
        be_uint(be_bytes(v, n)) + shr8(v, n) * pow256(n) == v,
    decreases n,
{
    if n > 0 {
        let w = v >> 8;
        lemma_be_bytes_value(w, (n - 1) as nat);
        let bytes = be_bytes(v, n);
        assert(bytes.drop_last() =~= be_bytes(w, (n - 1) as nat));
        let b = be_uint(be_bytes(w, (n - 1) as nat));
        let s = shr8(w, (n - 1) as nat);
        let p = pow256((n - 1) as nat);
        let low = v as u8;
        assert(w * 256 + low == v) by (bit_vector)
            requires
                w == v >> 8,
                low == v as u8,
        ;
        assert(be_uint(bytes) == b * 256 + low);
        assert(shr8(v, n) == s);
        assert(pow256(n) == 256 * p);
        assert((b * 256 + low) + s * (256 * p) == v) by (nonlinear_arith)
            requires
                b + s * p == w,
                w * 256 + low == v,
        ;
    } else {
        assert(be_uint(be_bytes(v, 0)) == 0);
        assert(pow256(0) == 1);
        assert(shr8(v, 0) * pow256(0) == v);
    }
}

proof fn lemma_shifts(i: i64)
    by (bit_vector)
    ensures
        ((i >> 8) >> 8) == i >> 16,
        (((i >> 8) >> 8) >> 8) == i >> 24,
        ((((i >> 8) >> 8) >> 8) >> 8) == i >> 32,
        (((((i >> 8) >> 8) >> 8) >> 8) >> 8) == i >> 40,
        ((((((i >> 8) >> 8) >> 8) >> 8) >> 8) >> 8) == i >> 48,
        i >= 0 ==> ((((((((i >> 8) >> 8) >> 8) >> 8) >> 8) >> 8) >> 8) >> 8) == 0,
        i < 0 ==> ((((((((i >> 8) >> 8) >> 8) >> 8) >> 8) >> 8) >> 8) >> 8) == -1,
{
}

/// The packed ranges of the integer encoding, and the casts of its one-byte and
/// eight-byte forms.
proof fn lemma_int_ranges(i: i64)
    by (bit_vector)
    ensures
        i == -1 ==> i as u8 == 0xFF,
        0 <= i < 64 ==> i as u8 == i,
        -0x1000 <= i < 0x1000 ==> -16 <= (i >> 8) < 16,
        -0x80000 <= i < 0x80000 ==> -8 <= (i >> 16) < 8,
        -0x2000000 <= i < 0x2000000 ==> -2 <= (i >> 24) < 2,
        -0x200000000 <= i < 0x200000000 ==> -2 <= (i >> 32) < 2,
        -0x20000000000 <= i < 0x20000000000 ==> -2 <= (i >> 40) < 2,
        -0x2000000000000 <= i < 0x2000000000000 ==> -2 <= (i >> 48) < 2,
        i >= 0 ==> i as u64 == i,
        i < 0 ==> i as u64 == i + 0x10000000000000000,
        (i as u64) as i64 == i,
        0 <= i < 0x8000_0000 ==> i as i32 as usize == i,
{
}

proof fn lemma_shr8_values(i: i64)
    ensures
        shr8(i, 1) == i >> 8,
        shr8(i, 2) == i >> 16,
        shr8(i, 3) == i >> 24,
        shr8(i, 4) == i >> 32,
        shr8(i, 5) == i >> 40,
        shr8(i, 6) == i >> 48,
        i >= 0 ==> shr8(i, 8) == 0,
        i < 0 ==> shr8(i, 8) == -1,
{
    reveal_with_fuel(shr8, 9);
    lemma_shifts(i);
}

proof fn lemma_pow256_values()
    ensures
        pow256(1) == 0x100,
        pow256(2) == 0x10000,
        pow256(3) == 0x1000000,
        pow256(4) == 0x100000000,
        pow256(5) == 0x10000000000,
        pow256(6) == 0x1000000000000,
        pow256(8) == 0x10000000000000000,
{
    reveal_with_fuel(pow256, 9);
}

/// An integer encoded with a code `base + (i >> 8n)` and `n` bytes of `i` reads back.
proof fn lemma_packed_int_reads(i: i64, base: int, n: nat, rest: Seq<u8>)
    requires
        1 <= n <= 6,
        0 <= base + shr8(i, n) < 256,
        int_tail_len((base + shr8(i, n)) as u8) == Some(n),
        base == 0x50 || base == 0x68 || base == 0x72 || base == 0x76 || base == 0x7A || base
            == 0x7E,
        n == 1 ==> base == 0x50,
        n == 2 ==> base == 0x68,
        n == 3 ==> base == 0x72,
        n == 4 ==> base == 0x76,
        n == 5 ==> base == 0x7A,
        n == 6 ==> base == 0x7E,
    ensures
        ({
            let bytes = seq![(base + shr8(i, n)) as u8] + be_bytes(i, n) + rest;
            &&& int_read_ok(bytes)
            &&& int_read_len(bytes) == 1 + n
            &&& int_read_value(bytes) == i
        }),
{
    let code = (base + shr8(i, n)) as u8;
    let bytes = seq![code] + be_bytes(i, n) + rest;
    assert(be_bytes(i, n).len() == n) by {
        lemma_be_bytes_len(i, n);
    }
    assert(bytes.subrange(1, 1 + n as int) =~= be_bytes(i, n));
    lemma_be_bytes_value(i, n);
    lemma_pow256_values();
    assert(code - base == shr8(i, n));
}

proof fn lemma_be_bytes_len(v: i64, n: nat)
    ensures
        be_bytes(v, n).len() == n,
    decreases n,
{
    if n > 0 {
        lemma_be_bytes_len(v >> 8, (n - 1) as nat);
    }
}

/// Reading the encoding of an integer, whatever follows it, gives the integer back
/// and consumes exactly its encoding.
pub proof fn law_int_roundtrip(i: i64, rest: Seq<u8>)
    ensures
        int_read_ok(int_encoding(i) + rest),
        int_read_len(int_encoding(i) + rest) == int_encoding(i).len(),
        int_read_value(int_encoding(i) + rest) == i,
{
    let bytes = int_encoding(i) + rest;
    lemma_shr8_values(i);
    lemma_be_bytes_len(i, 2);
    lemma_be_bytes_len(i, 3);
    lemma_be_bytes_len(i, 4);
    lemma_be_bytes_len(i, 5);
    lemma_be_bytes_len(i, 6);
    if -1 <= i < 64 {
        lemma_int_ranges(i);
    } else if -0x1000 <= i < 0x1000 {
        lemma_int_ranges(i);
        reveal_with_fuel(be_bytes, 2);
        assert(seq![i as u8] =~= be_bytes(i, 1));
        assert(int_encoding(i) =~= seq![(0x50 + shr8(i, 1)) as u8] + be_bytes(i, 1));
        lemma_packed_int_reads(i, 0x50, 1, rest);
    } else if -0x80000 <= i < 0x80000 {
        lemma_int_ranges(i);
        lemma_packed_int_reads(i, 0x68, 2, rest);
    } else if -0x2000000 <= i < 0x2000000 {
        lemma_int_ranges(i);
        lemma_packed_int_reads(i, 0x72, 3, rest);
    } else if -0x200000000 <= i < 0x200000000 {
        lemma_int_ranges(i);
        lemma_packed_int_reads(i, 0x76, 4, rest);
    } else if -0x20000000000 <= i < 0x20000000000 {
        lemma_int_ranges(i);
        lemma_packed_int_reads(i, 0x7A, 5, rest);
    } else if -0x2000000000000 <= i < 0x2000000000000 {
        lemma_int_ranges(i);
        lemma_packed_int_reads(i, 0x7E, 6, rest);
    } else {
        lemma_be_bytes_len(i, 8);
        assert(bytes.subrange(1, 9) =~= be_bytes(i, 8));
        lemma_be_bytes_value(i, 8);
        lemma_pow256_values();
        let u = i as u64;
        lemma_int_ranges(i);
        assert(be_uint(be_bytes(i, 8)) == u);
    }
}

/// The UTF-16 code units of a character: itself below `0x10000`, else its surrogates.
pub open spec fn char_units(c: char) -> Seq<u16> {
    if (c as u32) > 0xFFFF {
        seq![high_surrogate(c as u32) as u16, low_surrogate(c as u32) as u16]
    } else {
        seq![c as u32 as u16]
    }
}

/// The UTF-16 code units of a character sequence.
pub open spec fn utf16_units(chars: Seq<char>) -> Seq<u16>
    decreases chars.len(),
{
    if chars.len() == 0 {
        Seq::empty()
    } else {
        char_units(chars[0]) + utf16_units(chars.drop_first())
    }
}

/// One encoded code unit, whatever follows it, decodes to that unit first.
proof fn lemma_unit_decodes(u: u32, rest: Seq<u8>)
    requires
        u <= 0xFFFF,
    ensures
        mutf8_decode(unit_encoding(u) + rest) == prepend(seq![u as u16], mutf8_decode(rest)),
{
    let bytes = unit_encoding(u) + rest;
    if u <= 0x7f {
        let b = u as u8;
        assert(b >> 4 <= 7 && b as u16 == u as u16) by (bit_vector)
            requires
                u <= 0x7f,
                b == u as u8,
        ;
        assert(bytes.skip(1) =~= rest);
    } else if u > 0x7ff {
        let b0 = (0xe0 | (u >> 12 & 0x0f)) as u8;
        let b1 = (0x80 | (u >> 6 & 0x3f)) as u8;
        let b2 = (0x80 | (u & 0x3f)) as u8;
        assert(b0 >> 4 == 14 && (((b0 as u32 & 0x0f) << 12) | ((b1 as u32 & 0x3f) << 6) | (b2 as u32
            & 0x3f)) as u16 == u as u16) by (bit_vector)
            requires
                0x7ff < u <= 0xFFFF,
                b0 == (0xe0 | (u >> 12 & 0x0f)) as u8,
                b1 == (0x80 | (u >> 6 & 0x3f)) as u8,
                b2 == (0x80 | (u & 0x3f)) as u8,
        ;
        assert(three_byte_unit(b0, b1, b2) == u as u16);
        assert(bytes.skip(3) =~= rest);
    } else {
        let b0 = (0xc0 | (u >> 6 & 0x1f)) as u8;
        let b1 = (0x80 | (u & 0x3f)) as u8;
        assert((b0 >> 4 == 12 || b0 >> 4 == 13) && (((b0 as u32 & 0x1f) << 6) | (b1 as u32 & 0x3f))
            as u16 == u as u16) by (bit_vector)
            requires
                0x7f < u <= 0x7ff,
                b0 == (0xc0 | (u >> 6 & 0x1f)) as u8,
                b1 == (0x80 | (u & 0x3f)) as u8,
        ;
        assert(two_byte_unit(b0, b1) == u as u16);
        assert(bytes.skip(2) =~= rest);
    }
}

proof fn lemma_surrogates(c: char)
    requires
        (c as u32) > 0xFFFF,
    ensures
        high_surrogate(c as u32) <= 0xFFFF,
        low_surrogate(c as u32) <= 0xFFFF,
        0xD800 <= high_surrogate(c as u32) as u16 <= 0xDBFF,
        0xDC00 <= low_surrogate(c as u32) as u16 <= 0xDFFF,
        0x10000 + (high_surrogate(c as u32) as u16 - 0xD800) * 0x400 + (low_surrogate(c as u32)
            as u16 - 0xDC00) == c as u32,
{
    char_is_scalar(c);
    let x = c as u32;
    assert(x <= 0x10FFFF);
    let h = high_surrogate(x);
    let l = low_surrogate(x);
    assert(h <= 0xFFFF && l <= 0xFFFF && 0xD800 <= h as u16 <= 0xDBFF && 0xDC00 <= l as u16 <= 0xDFFF
        && 0x10000 + (h as u16 - 0xD800) * 0x400 + (l as u16 - 0xDC00) == x) by (bit_vector)
        requires
            0xFFFF < x <= 0x10FFFF,
            h == (0xD800 + ((x - 0x10000) as u32 >> 10)) as u32,
            l == (0xDC00 + ((x - 0x10000) as u32 & 0x3FF)) as u32,
    ;
}

/// The modified UTF-8 of a character sequence decodes to its UTF-16 code units.
proof fn lemma_chars_decode_to_units(chars: Seq<char>)
    ensures
        mutf8_decode(chars_encoding(chars)) == Some(utf16_units(chars)),
    decreases chars.len(),
{
    if chars.len() == 0 {
        assert(chars_encoding(chars) =~= Seq::<u8>::empty());
    } else {
        let c = chars[0];
        let tail = chars.drop_first();
        lemma_chars_decode_to_units(tail);
        lemma_chars_encoding_concat(seq![c], tail);
        assert(seq![c] + tail =~= chars);
        assert(seq![c].drop_last() =~= Seq::<char>::empty());
        assert(chars_encoding(Seq::<char>::empty()) =~= Seq::<u8>::empty());
        assert(seq![c].last() == c);
        assert(chars_encoding(seq![c]) == chars_encoding(Seq::<char>::empty()) + char_encoding(c));
        assert(chars_encoding(seq![c]) =~= char_encoding(c));
        let rest = chars_encoding(tail);
        if (c as u32) > 0xFFFF {
            lemma_surrogates(c);
            let h = high_surrogate(c as u32);
            let l = low_surrogate(c as u32);
            lemma_unit_decodes(l, rest);
            lemma_unit_decodes(h, unit_encoding(l) + rest);
            assert(char_encoding(c) + rest =~= unit_encoding(h) + (unit_encoding(l) + rest));
            assert(seq![h as u16] + (seq![l as u16] + utf16_units(tail)) =~= char_units(c)
                + utf16_units(tail));
        } else {
            lemma_unit_decodes(c as u32, rest);
            assert(seq![c as u32 as u16] + utf16_units(tail) =~= char_units(c) + utf16_units(tail));
        }
    }
}

/// The UTF-16 code units of a character sequence decode back to it.
proof fn lemma_units_decode_to_chars(chars: Seq<char>)
    ensures
        utf16_decode(utf16_units(chars)) == Some(chars),
    decreases chars.len(),
{
    if chars.len() > 0 {
        let c = chars[0];
        let tail = chars.drop_first();
        lemma_units_decode_to_chars(tail);
        let units = utf16_units(chars);
        char_is_scalar(c);
        if (c as u32) > 0xFFFF {
            lemma_surrogates(c);
            assert(units.skip(2) =~= utf16_units(tail));
            let x = c as u32;
            let cc = 0x10000 + (units[0] - 0xD800) * 0x400 + (units[1] - 0xDC00);
            assert(cc == x);
            vstd::utf8::char_u32_cast(c, x);
            assert(seq![cc as char] + tail =~= chars);
        } else {
            let x = c as u32;
            let u = x as u16;
            assert(units.skip(1) =~= utf16_units(tail));
            assert(u == x);
            vstd::utf8::char_u32_cast(c, x);
            assert(seq![u as char] + tail =~= chars);
        }
    }
}

/// The body of a string, as the encoder writes it, decodes back to the string.
pub proof fn law_string_body_roundtrip(chars: Seq<char>)
    ensures
        mutf8_decode(chars_encoding(chars)) == Some(utf16_units(chars)),
        utf16_decode(utf16_units(chars)) == Some(chars),
{
    lemma_chars_decode_to_units(chars);
    lemma_units_decode_to_chars(chars);
}

proof fn lemma_unit_encoding_len(u: u32)
    ensures
        unit_encoding(u).len() == encoding_size_spec(u),
        unit_encoding(u).len() <= 3,
{
}

/// A character's modified UTF-8 takes at most three times its UTF-8 width, and the
/// size the encoder counts for it is below that.
proof fn lemma_char_sizes(cs: Seq<char>)
    requires
        cs.len() > 0,
    ensures
        char_encoding(cs[0]).len() <= 3 * encode_scalar(cs[0] as u32).len(),
        encoding_size_spec(cs[0] as u32) < 3 * encode_scalar(cs[0] as u32).len(),
{
    lemma_utf8_len_bounds_char(cs, 0);
    let c = cs[0];
    if (c as u32) > 0xFFFF {
        lemma_unit_encoding_len(high_surrogate(c as u32));
        lemma_unit_encoding_len(low_surrogate(c as u32));
    } else {
        lemma_unit_encoding_len(c as u32);
    }
}

proof fn lemma_chars_encoding_front(cs: Seq<char>)
    requires
        cs.len() > 0,
    ensures
        chars_encoding(cs) == char_encoding(cs[0]) + chars_encoding(cs.drop_first()),
{
    let c = cs[0];
    lemma_chars_encoding_concat(seq![c], cs.drop_first());
    assert(seq![c] + cs.drop_first() =~= cs);
    assert(seq![c].drop_last() =~= Seq::<char>::empty());
    assert(chars_encoding(Seq::<char>::empty()) =~= Seq::<u8>::empty());
    assert(chars_encoding(seq![c]) == chars_encoding(Seq::<char>::empty()) + char_encoding(c));
    assert(chars_encoding(seq![c]) =~= char_encoding(c));
}

proof fn lemma_chars_encoding_len(cs: Seq<char>)
    ensures
        chars_encoding(cs).len() <= 3 * encode_utf8(cs).len(),
    decreases cs.len(),
{
    if cs.len() > 0 {
        lemma_chars_encoding_front(cs);
        lemma_char_sizes(cs);
        lemma_chars_encoding_len(cs.drop_first());
    }
}

/// While three times the UTF-8 length fits below the limit, every character goes
/// into the chunk.
proof fn lemma_chunk_takes_all(cs: Seq<char>, max: nat, pos: nat)
    requires
        pos + 3 * encode_utf8(cs).len() <= max,
    ensures
        chunk_char_count(cs, max, pos) == cs.len(),
    decreases cs.len(),
{
    if cs.len() > 0 {
        lemma_char_sizes(cs);
        lemma_chunk_takes_all(cs.drop_first(), max, pos + char_encoding(cs[0]).len());
    }
}

/// A character takes at most six bytes of modified UTF-8.
proof fn lemma_char_encoding_len(c: char)
    ensures
        char_encoding(c).len() <= 6,
{
}

/// Where every character of `cs` goes into the chunk, the chunk ends below `max`
/// plus the largest character.
proof fn lemma_chunk_bound(cs: Seq<char>, max: nat, pos: nat)
    requires
        cs.len() > 0,
        chunk_char_count(cs, max, pos) == cs.len(),
    ensures
        pos + chars_encoding(cs).len() < max + 6,
    decreases cs.len(),
{
    lemma_chars_encoding_front(cs);
    lemma_char_encoding_len(cs[0]);
    let next = pos + char_encoding(cs[0]).len();
    if cs.len() > 1 {
        lemma_chunk_bound(cs.drop_first(), max, next);
    } else {
        assert(cs.drop_first() =~= Seq::<char>::empty());
    }
}

/// Every string whose UTF-8 length, tripled, stays below 65536 is written as one chunk.
pub proof fn lemma_short_strings_single(chars: Seq<char>)
    requires
        3 * encode_utf8(chars).len() < 65536,
    ensures
        single_chunk(chars),
{
    lemma_chunk_takes_all(chars, string_chunk_limit(chars), 0);
}

/// A string written as one chunk is its header (a packed length, or `STRING` and a
/// count) and its modified UTF-8.
pub proof fn lemma_single_chunk(chars: Seq<char>)
    requires
        chars.len() > 0,
        single_chunk(chars),
    ensures
        chars_encoding(chars).len() < 0x8000_0000,
        string_encoding(chars) == string_chunk_header(chars_encoding(chars).len(), true)
            + chars_encoding(chars),
{
    let max = string_chunk_limit(chars);
    lemma_chunk_bound(chars, max, 0);
    let n = chars.len();
    assert(chars.take(n as int) =~= chars);
    assert(chars.skip(n as int) =~= Seq::<char>::empty());
    assert(string_chunks(chars.skip(n as int), max) =~= Seq::<u8>::empty());
}

/// Reading an integer where one was written gives it back and moves past its
/// encoding, whatever follows.
pub proof fn law_read_int_after_write(i: i64, rest: Seq<u8>, before: ByteReader, after: ByteReader, r: Result<i64>)
    requires
        before.wf(),
        before.remaining() == int_encoding(i) + rest,
        int_read_outcome(before, after, r, int_read_value(before.remaining())),
    ensures
        r matches Ok(v) && v == i,
        after.position() == before.position() + int_encoding(i).len(),
{
    law_int_roundtrip(i, rest);
}

/// A boolean is written as the code that the reader takes for it.
pub proof fn law_boolean_codes(b: bool)
    ensures
        boolean_encoding(b).len() == 1,
        b ==> boolean_encoding(b)[0] == codes::TRUE,
        !b ==> boolean_encoding(b)[0] == codes::FALSE,
{
}

/// Reading a byte array where a non-empty one of at most 65535 bytes was written gives
/// it back and moves past its encoding. (An empty array is written under the packed
/// code for length 0, which the reader refuses; a longer one is written in chunks,
/// which the reader does not take.)
pub proof fn law_read_bytes_after_write(
    data: Seq<u8>,
    rest: Seq<u8>,
    before: ByteReader,
    after: ByteReader,
    r: Result<&[u8]>,
)
    requires
        0 < data.len() <= 65535,
        before.wf(),
        before.remaining() == bytes_encoding(data) + rest,
        bytes_read_outcome(before, after, r),
    ensures
        r matches Ok(s) && s@ == data,
        after.position() == before.position() + bytes_encoding(data).len(),
{
    let input = before.input();
    let pos: int = before.position() as int;
    assert(input.len() == pos + before.remaining().len());
    if data.len() < 8 {
        assert(before.remaining()[0] == (0xD0 + data.len()) as u8);
        assert(input.subrange(pos + 1, pos + 1 + data.len()) =~= data) by {
            assert forall|k: int| 0 <= k < data.len() implies input[pos + 1 + k] == data[k] by {
                assert(input[pos + 1 + k] == before.remaining()[1 + k]);
            }
        }
    } else {
        let n = data.len() as i64;
        let enc = int_encoding(n);
        let tail = data + rest;
        assert(bytes_encoding(data) == seq![codes::BYTES] + enc + data);
        law_int_roundtrip(n, tail);
        assert(input.skip(pos + 1) =~= enc + tail) by {
            assert forall|k: int| 0 <= k < input.len() - pos - 1 implies input.skip(pos + 1)[k]
                == (enc + tail)[k] by {
                assert(input.skip(pos + 1)[k] == before.remaining()[1 + k]);
            }
        }
        assert(count_at(input, (pos + 1) as nat) == data.len()) by {
            lemma_int_ranges(n);
        }
        let p: int = after_count(input, (pos + 1) as nat) as int;
        assert(p == pos + 1 + enc.len());
        assert(input.subrange(p, p + data.len()) =~= data) by {
            assert forall|k: int| 0 <= k < data.len() implies input[p + k] == data[k] by {
                assert(input[p + k] == before.remaining()[1 + enc.len() + k]);
            }
        }
    }
}

/// Reading a string where one was written gives it back and moves past its encoding,
/// for every string that the encoder writes as a single chunk (every string whose
/// UTF-8 length, tripled, is below 65536, among others: see `lemma_short_strings_single`).
/// Longer strings are written in chunks under `STRING_CHUNK`, which the reader refuses.
pub proof fn law_read_string_after_write(
    chars: Seq<char>,
    rest: Seq<u8>,
    before: ByteReader,
    after: ByteReader,
    r: Result<Seq<char>>,
)
    requires
        single_chunk(chars),
        before.wf(),
        before.remaining() == string_encoding(chars) + rest,
        string_read_outcome(before, after, r),
    ensures
        r == Result::<Seq<char>>::Ok(chars),
        after.position() == before.position() + string_encoding(chars).len(),
{
    let input = before.input();
    let pos: int = before.position() as int;
    assert(input.len() == pos + before.remaining().len());
    if chars.len() == 0 {
        assert(before.remaining()[0] == codes::STRING_PACKED_LENGTH_START);
        assert(chars =~= Seq::<char>::empty());
    } else {
        lemma_single_chunk(chars);
        law_string_body_roundtrip(chars);
        let body = chars_encoding(chars);
        let len = body.len();
        assert(fressian_string_value(body) == Some(chars));
        if len < 8 {
            assert(string_encoding(chars) == seq![(0xDA + len) as u8] + body);
            assert(input.subrange(pos + 1, pos + 1 + len) =~= body) by {
                assert forall|k: int| 0 <= k < len implies input[pos + 1 + k] == body[k] by {
                    assert(input[pos + 1 + k] == before.remaining()[1 + k]);
                }
            }
        } else {
            let n = len as i64;
            let enc = int_encoding(n);
            let tail = body + rest;
            assert(string_encoding(chars) == seq![codes::STRING] + enc + body);
            law_int_roundtrip(n, tail);
            assert(input.skip(pos + 1) =~= enc + tail) by {
                assert forall|k: int| 0 <= k < input.len() - pos - 1 implies input.skip(pos + 1)[k]
                    == (enc + tail)[k] by {
                    assert(input.skip(pos + 1)[k] == before.remaining()[1 + k]);
                }
            }
            assert(count_at(input, (pos + 1) as nat) == len) by {
                lemma_int_ranges(n);
            }
            let p: int = after_count(input, (pos + 1) as nat) as int;
            assert(p == pos + 1 + enc.len());
            assert(input.subrange(p, p + len) =~= body) by {
                assert forall|k: int| 0 <= k < len implies input[p + k] == body[k] by {
                    assert(input[p + k] == before.remaining()[1 + enc.len() + k]);
                }
            }
        }
    }
}

/// A string whose body takes 8 bytes or more, written at `prefix.len()`, is found
/// there under `STRING` and its count.
#[verifier::spinoff_prover]
proof fn lemma_long_string_at(chars: Seq<char>, prefix: Seq<u8>, rest: Seq<u8>)
    requires
        chars.len() > 0,
        single_chunk(chars),
        chars_encoding(chars).len() >= 8,
    ensures
        string_at(prefix + string_encoding(chars) + rest, prefix.len()) == Some(
            (chars, prefix.len() + string_encoding(chars).len()),
        ),
{
    let input = prefix + string_encoding(chars) + rest;
    let pos: int = prefix.len() as int;
    let enc = string_encoding(chars);
    lemma_single_chunk(chars);
    law_string_body_roundtrip(chars);
    let body = chars_encoding(chars);
    let len = body.len();
    let n = len as i64;
    let ienc = int_encoding(n);
    let tail = body + rest;
    assert(enc == seq![codes::STRING] + ienc + body);
    law_int_roundtrip(n, tail);
    assert(input.skip(pos + 1) =~= ienc + tail) by {
        assert forall|k: int| 0 <= k < input.len() - pos - 1 implies input.skip(pos + 1)[k]
            == (ienc + tail)[k] by {
            if k < ienc.len() + len {
                assert(input[pos + 1 + k] == enc[1 + k]);
            } else {
                assert(input[pos + 1 + k] == rest[k - ienc.len() - len]);
            }
        }
    }
    assert(count_at(input, (pos + 1) as nat) == len) by {
        lemma_int_ranges(n);
    }
    let p: int = after_count(input, (pos + 1) as nat) as int;
    assert(p == pos + 1 + ienc.len());
    assert(input.subrange(p, p + len) =~= body) by {
        assert forall|k: int| 0 <= k < len implies input[p + k] == body[k] by {
            assert(input[p + k] == enc[1 + ienc.len() + k]);
        }
    }
}

/// The string written at `prefix.len()`, whatever surrounds it, is the string found
/// there, for every string that the encoder writes as one chunk.
#[verifier::spinoff_prover]
pub proof fn lemma_string_at_encoding(chars: Seq<char>, prefix: Seq<u8>, rest: Seq<u8>)
    requires
        single_chunk(chars),
    ensures
        string_at(prefix + string_encoding(chars) + rest, prefix.len()) == Some(
            (chars, prefix.len() + string_encoding(chars).len()),
        ),
{
    let input = prefix + string_encoding(chars) + rest;
    let pos: int = prefix.len() as int;
    let enc = string_encoding(chars);
    if chars.len() == 0 {
        assert(chars =~= Seq::<char>::empty());
    } else if chars_encoding(chars).len() >= 8 {
        lemma_long_string_at(chars, prefix, rest);
    } else {
        lemma_single_chunk(chars);
        law_string_body_roundtrip(chars);
        let body = chars_encoding(chars);
        let len = body.len();
        assert(enc == seq![(0xDA + len) as u8] + body);
        assert(input.subrange(pos + 1, pos + 1 + len) =~= body) by {
            assert forall|k: int| 0 <= k < len implies input[pos + 1 + k] == body[k] by {
                assert(input[pos + 1 + k] == enc[1 + k]);
            }
        }
    }
}

/// The hashes that the writer's cache holds are those of the strings that the reader's
/// cache holds, slot for slot.
pub open spec fn caches_agree(hashes: Seq<u64>, strings: Seq<Seq<char>>) -> bool {
    &&& hashes.len() == strings.len()
    &&& forall|j: int| 0 <= j < hashes.len() ==> hashes[j] == default_hash_of(#[trigger] strings[j])
}

/// No string of the reader's cache other than `s` has the hash of `s`.
pub open spec fn no_collision(s: Seq<char>, strings: Seq<Seq<char>>) -> bool {
    forall|j: int|
        0 <= j < strings.len() && default_hash_of(#[trigger] strings[j]) == default_hash_of(s)
            ==> strings[j] == s
}

proof fn lemma_first_occurrence_exists(hashes: Seq<u64>, h: u64) -> (i: int)
    requires
        hashes.contains(h),
    ensures
        crate::imp::cache::first_occurrence(hashes, h, i),
    decreases hashes.len(),
{
    let front = hashes.drop_last();
    if front.contains(h) {
        let i = lemma_first_occurrence_exists(front, h);
        assert(hashes[i] == front[i]);
        assert forall|j: int| 0 <= j < i implies hashes[j] != h by {
            assert(front[j] == hashes[j]);
        }
        assert(crate::imp::cache::first_occurrence(hashes, h, i));
        i
    } else {
        let i = hashes.len() - 1;
        assert forall|j: int| 0 <= j < i implies hashes[j] != h by {
            assert(front[j] == hashes[j]);
        }
        assert(crate::imp::cache::first_occurrence(hashes, h, i));
        i
    }
}

/// A string written where values are cached reads back, and the two caches keep
/// agreeing, while the cache has at most 32 slots and no other cached string shares
/// the string's hash.
pub proof fn lemma_cached_string_roundtrip(
    chars: Seq<char>,
    hashes: Seq<u64>,
    strings: Seq<Seq<char>>,
    prefix: Seq<u8>,
    rest: Seq<u8>,
)
    requires
        single_chunk(chars),
        caches_agree(hashes, strings),
        hashes.len() <= 32,
        chars.len() > 0 ==> no_collision(chars, strings),
    ensures
        ({
            let enc = cached_string_encoding(chars, hashes);
            let found = cached_string_at(prefix + enc + rest, prefix.len(), strings);
            &&& found matches Some(f)
            &&& f.0 == chars
            &&& f.1 == prefix.len() + enc.len()
            &&& caches_agree(cached_string_cache(chars, hashes), f.2)
            &&& f.2.len() <= strings.len() + 1
            &&& (f.2 == strings || f.2 == strings.push(chars))
            &&& chars.len() == 0 ==> f.2 == strings
        }),
{
    let h = default_hash_of(chars);
    let enc = cached_string_encoding(chars, hashes);
    let input = prefix + enc + rest;
    let pos = prefix.len();
    assert(input[pos as int] == enc[0]);
    if chars.len() == 0 {
        lemma_string_at_encoding(chars, prefix, rest);
    } else if hashes.contains(h) {
        let w = lemma_first_occurrence_exists(hashes, h);
        assert(crate::imp::cache::first_occurrence(hashes, h, w));
        let i = cache_index(hashes, h);
        assert(crate::imp::cache::first_occurrence(hashes, h, i));
        assert(hashes[i] == default_hash_of(strings[i]));
        assert(strings[i] == chars);
    } else {
        assert(input =~= (prefix + seq![codes::PUT_PRIORITY_CACHE]) + string_encoding(chars) + rest);
        lemma_string_at_encoding(chars, prefix + seq![codes::PUT_PRIORITY_CACHE], rest);
        let after = strings.push(chars);
        assert(caches_agree(hashes.push(h), after)) by {
            assert forall|j: int| 0 <= j < hashes.push(h).len() implies hashes.push(h)[j]
                == default_hash_of(#[trigger] after[j]) by {
                if j < hashes.len() {
                    assert(after[j] == strings[j]);
                }
            }
        }
    }
}

/// A cached string's encoding never starts with `NULL`.
proof fn lemma_cached_not_null(n: Seq<char>, hashes: Seq<u64>)
    requires
        single_chunk(n),
    ensures
        cached_string_encoding(n, hashes).len() > 0,
        cached_string_encoding(n, hashes)[0] != codes::NULL,
{
    let enc = cached_string_encoding(n, hashes);
    if n.len() == 0 {
        assert(enc == seq![codes::STRING_PACKED_LENGTH_START]);
    } else if !hashes.contains(default_hash_of(n)) {
        assert(enc[0] == codes::PUT_PRIORITY_CACHE);
    } else {
        let w = lemma_first_occurrence_exists(hashes, default_hash_of(n));
        assert(crate::imp::cache::first_occurrence(hashes, default_hash_of(n), w));
        let i = cache_index(hashes, default_hash_of(n));
        assert(crate::imp::cache::first_occurrence(hashes, default_hash_of(n), i));
        if i < 32 {
            assert(enc == seq![(codes::PRIORITY_CACHE_PACKED_START + i) as u8]);
        } else {
            assert(enc[0] == codes::GET_PRIORITY_CACHE);
        }
    }
}

/// After a namespace `n` is read into an empty cache, the name finds no other string
/// with its hash there.
proof fn lemma_name_no_collision(n: Seq<char>, name: Seq<char>, strings: Seq<Seq<char>>)
    requires
        strings == Seq::<Seq<char>>::empty() || strings == Seq::<Seq<char>>::empty().push(n),
        n.len() > 0 && name.len() > 0 && n != name ==> default_hash_of(n) != default_hash_of(name),
        strings.len() > 0 ==> n.len() > 0,
    ensures
        name.len() > 0 ==> no_collision(name, strings),
{
    if name.len() > 0 && strings.len() > 0 {
        assert forall|j: int|
            0 <= j < strings.len() && default_hash_of(#[trigger] strings[j]) == default_hash_of(name)
            implies strings[j] == name by {
            assert(strings[j] == n);
        }
    }
}

#[verifier::rlimit(40)]
proof fn lemma_namespace_some(code: u8, n: Seq<char>, name: Seq<char>, rest: Seq<u8>)
    requires
        single_chunk(name),
        single_chunk(n),
        n.len() > 0 && name.len() > 0 && n != name ==> default_hash_of(n) != default_hash_of(name),
    ensures
        ({
            let empty = Seq::<u64>::empty();
            let ns_enc = cached_string_encoding(n, empty);
            let name_enc = cached_string_encoding(name, cached_string_cache(n, empty));
            let input = seq![code] + ns_enc + name_enc + rest;
            &&& cached_string_at(input, 1, Seq::empty()) matches Some(f)
            &&& f.0 == n
            &&& f.1 == 1 + ns_enc.len()
            &&& input[1] != codes::NULL
            &&& cached_string_at(input, f.1, f.2) matches Some(g)
            &&& g.0 == name
            &&& g.1 == 1 + ns_enc.len() + name_enc.len()
        }),
{
    let empty = Seq::<u64>::empty();
    let strings0 = Seq::<Seq<char>>::empty();
    let ns_enc = cached_string_encoding(n, empty);
    let name_cache = cached_string_cache(n, empty);
    let name_enc = cached_string_encoding(name, name_cache);
    let input = seq![code] + ns_enc + name_enc + rest;
    assert(caches_agree(empty, strings0));
    assert(input =~= seq![code] + ns_enc + (name_enc + rest));
    lemma_cached_string_roundtrip(n, empty, strings0, seq![code], name_enc + rest);
    let f = cached_string_at(input, 1, strings0)->0;
    lemma_cached_not_null(n, empty);
    assert(input[1] == ns_enc[0]);
    assert(input =~= (seq![code] + ns_enc) + name_enc + rest);
    lemma_name_no_collision(n, name, f.2);
    lemma_cached_string_roundtrip(name, name_cache, f.2, seq![code] + ns_enc, rest);
}

/// Reading a symbol or a keyword where one was written with a fresh cache gives back
/// its namespace and name, and moves past it, whatever follows. It fails only where the
/// namespace and the name are different non-empty strings with the same hash: the name
/// is then written as a reference to the cached namespace. Both strings must be short
/// enough for one chunk.
pub proof fn law_named_roundtrip(code: u8, ns: Option<Seq<char>>, name: Seq<char>, rest: Seq<u8>)
    requires
        code == codes::SYM || code == codes::KEY,
        single_chunk(name),
        ns matches Some(n) ==> single_chunk(n),
        ns matches Some(n) ==> (n.len() > 0 && name.len() > 0 && n != name ==> default_hash_of(n)
            != default_hash_of(name)),
    ensures
        ({
            let empty = Seq::<u64>::empty();
            let bytes = seq![code] + cached_namespace_encoding(ns, empty) + cached_string_encoding(
                name,
                cached_namespace_cache(ns, empty),
            );
            &&& named_at(bytes + rest, 0, Seq::empty()) matches Some(found)
            &&& found.0 == (ns, name)
            &&& found.1 == bytes.len()
        }),
{
    let empty = Seq::<u64>::empty();
    let strings0 = Seq::<Seq<char>>::empty();
    let ns_enc = cached_namespace_encoding(ns, empty);
    let name_enc = cached_string_encoding(name, cached_namespace_cache(ns, empty));
    let bytes = seq![code] + ns_enc + name_enc;
    let input = bytes + rest;
    assert(input[0] == code);
    match ns {
        None => {
            assert(caches_agree(empty, strings0));
            assert(input[1] == codes::NULL);
            assert(input =~= (seq![code] + ns_enc) + name_enc + rest);
            lemma_cached_string_roundtrip(name, empty, strings0, seq![code] + ns_enc, rest);
        },
        Some(n) => {
            lemma_namespace_some(code, n, name, rest);
        },
    }
}

/// A symbol written with a fresh cache reads back as itself, except where its namespace
/// and name are different non-empty strings with the same hash.
pub proof fn law_sym_roundtrip(sym: SYM, bytes: Seq<u8>, after: Seq<u64>, rest: Seq<u8>)
    requires
        sym.encodes(Seq::empty(), bytes, after),
        single_chunk(sym@.1),
        sym@.0 matches Some(n) ==> single_chunk(n),
        sym@.0 matches Some(n) ==> (n.len() > 0 && sym@.1.len() > 0 && n != sym@.1
            ==> default_hash_of(n) != default_hash_of(sym@.1)),
    ensures
        SYM::decoding(bytes + rest, 0, Seq::empty()) matches Some(found) && found.0 == sym@
            && found.1 == bytes.len(),
{
    law_named_roundtrip(codes::SYM, sym@.0, sym@.1, rest);
}

/// A keyword written with a fresh cache reads back as itself, except where its
/// namespace and name are different non-empty strings with the same hash.
pub proof fn law_key_roundtrip(key: KEY, bytes: Seq<u8>, after: Seq<u64>, rest: Seq<u8>)
    requires
        key.encodes(Seq::empty(), bytes, after),
        single_chunk(key@.1),
        key@.0 matches Some(n) ==> single_chunk(n),
        key@.0 matches Some(n) ==> (n.len() > 0 && key@.1.len() > 0 && n != key@.1
            ==> default_hash_of(n) != default_hash_of(key@.1)),
    ensures
        KEY::decoding(bytes + rest, 0, Seq::empty()) matches Some(found) && found.0 == key@
            && found.1 == bytes.len(),
{
    law_named_roundtrip(codes::KEY, key@.0, key@.1, rest);
}

/// An instant reads back as itself, whatever the cache and whatever follows.
pub proof fn law_inst_roundtrip(inst: INST, cache: Seq<u64>, bytes: Seq<u8>, after: Seq<u64>, rest: Seq<u8>, strings: Seq<Seq<char>>)
    requires
        inst.encodes(cache, bytes, after),
    ensures
        INST::decoding(bytes + rest, 0, strings) == Some((inst@, bytes.len(), strings)),
{
    let input = bytes + rest;
    let enc = int_encoding(inst@);
    law_int_roundtrip(inst@, rest);
    assert(input.skip(1) =~= enc + rest);
    assert(input[0] == codes::INST);
    assert(int_tail_len(codes::INST) is None);
    assert(input.skip(0)[0] == input[0]);
}

/// The integers written one after the other read back one after the other.
proof fn lemma_longs_roundtrip(items: Seq<i64>, prefix: Seq<u8>, rest: Seq<u8>)
    ensures
        longs_at(prefix + ints_encoding(items) + rest, prefix.len(), items.len())
            == Some((items, prefix.len() + ints_encoding(items).len())),
    decreases items.len(),
{
    if items.len() > 0 {
        let front = items.drop_last();
        let x = items.last();
        let enc_x = int_encoding(x);
        assert(prefix + ints_encoding(items) + rest =~= prefix + ints_encoding(front) + (enc_x + rest));
        lemma_longs_roundtrip(front, prefix, enc_x + rest);
        let input = prefix + ints_encoding(items) + rest;
        let p = prefix.len() + ints_encoding(front).len();
        law_int_roundtrip(x, rest);
        assert(input.skip(p as int) =~= enc_x + rest);
        assert(front.push(x) =~= items);
    } else {
        assert(ints_encoding(items) =~= Seq::<u8>::empty());
    }
}

/// An array of 64-bit integers reads back as itself, whatever the cache and whatever
/// follows, while its length stays below 2^31 (the reader takes the count as an
/// `i32`).
pub proof fn law_long_array_roundtrip(
    arr: LongArray,
    cache: Seq<u64>,
    bytes: Seq<u8>,
    after: Seq<u64>,
    rest: Seq<u8>,
    strings: Seq<Seq<char>>,
)
    requires
        arr.encodes(cache, bytes, after),
        arr@.len() < 0x8000_0000,
    ensures
        LongArray::decoding(bytes + rest, 0, strings) == Some((arr@, bytes.len(), strings)),
{
    let items = arr@;
    let n = items.len() as i64;
    let cenc = int_encoding(n);
    let input = bytes + rest;
    law_int_roundtrip(n, ints_encoding(items) + rest);
    assert(input.skip(1) =~= cenc + (ints_encoding(items) + rest));
    lemma_int_ranges(n);
    assert(input =~= (seq![codes::LONG_ARRAY] + cenc) + ints_encoding(items) + rest);
    lemma_longs_roundtrip(items, seq![codes::LONG_ARRAY] + cenc, rest);
    assert(array_header_at(input, 0) == Some((1 + cenc.len(), items.len())));
}

/// The encodings of strings, one after the other.
pub open spec fn strings_encoding(items: Seq<String>) -> Seq<u8>
    decreases items.len(),
{
    if items.len() == 0 {
        Seq::empty()
    } else {
        strings_encoding(items.drop_last()) + string_encoding(items.last()@)
    }
}

/// The characters of each string.
pub open spec fn strings_view(items: Seq<String>) -> Seq<Seq<char>> {
    Seq::new(items.len(), |i: int| items[i].deep_view())
}

/// Strings are written as themselves, one after the other, leaving the cache alone.
proof fn lemma_strings_written(items: Seq<String>, cache: Seq<u64>, bytes: Seq<u8>, after: Seq<u64>)
    requires
        seq_encodes(items, cache, bytes, after),
    ensures
        bytes == strings_encoding(items),
        after == cache,
    decreases items.len(),
{
    if items.len() > 0 {
        let (k, mid) = choose|k: int, mid: Seq<u64>|
            0 <= k <= bytes.len() && seq_encodes(items.drop_last(), cache, bytes.take(k), mid)
                && #[trigger] items.last().encodes(mid, bytes.skip(k), after);
        lemma_strings_written(items.drop_last(), cache, bytes.take(k), mid);
        assert(bytes =~= bytes.take(k) + bytes.skip(k));
    } else {
        assert(bytes =~= Seq::<u8>::empty());
    }
}

/// Strings written one after the other read back one after the other.
/// A string, as written on its own, starts with a string code: neither
/// `PUT_PRIORITY_CACHE` nor a cache reference.
proof fn lemma_plain_string_code(chars: Seq<char>)
    requires
        single_chunk(chars),
    ensures
        string_encoding(chars).len() > 0,
        string_encoding(chars)[0] != codes::PUT_PRIORITY_CACHE,
        !(codes::PRIORITY_CACHE_PACKED_START <= string_encoding(chars)[0]
            < codes::PRIORITY_CACHE_PACKED_END),
{
    if chars.len() > 0 {
        lemma_single_chunk(chars);
        let l = chars_encoding(chars).len();
        if l >= 8 {
            assert(string_encoding(chars)[0] == codes::STRING);
        }
    }
}

#[verifier::rlimit(40)]
proof fn lemma_strings_read(items: Seq<String>, prefix: Seq<u8>, rest: Seq<u8>, strings: Seq<Seq<char>>)
    requires
        forall|k: int| 0 <= k < items.len() ==> single_chunk(#[trigger] items[k]@),
    ensures
        items_at::<String>(prefix + strings_encoding(items) + rest, prefix.len(), strings, items.len())
            == Some((strings_view(items), prefix.len() + strings_encoding(items).len(), strings)),
    decreases items.len(),
{
    if items.len() > 0 {
        let front = items.drop_last();
        let x = items.last();
        let enc_x = string_encoding(x@);
        assert(prefix + strings_encoding(items) + rest =~= prefix + strings_encoding(front) + (enc_x + rest));
        assert forall|k: int| 0 <= k < front.len() implies single_chunk(#[trigger] front[k]@) by {
            assert(front[k] == items[k]);
        }
        lemma_strings_read(front, prefix, enc_x + rest, strings);
        let input = prefix + strings_encoding(items) + rest;
        let p = prefix + strings_encoding(front);
        assert(single_chunk(x@)) by {
            assert(x == items[items.len() - 1]);
        }
        lemma_string_at_encoding(x@, p, rest);
        assert(input =~= p + enc_x + rest);
        lemma_plain_string_code(x@);
        assert(input[p.len() as int] == enc_x[0]);
        assert(strings_view(front).push(x.deep_view()) =~= strings_view(items));
    } else {
        assert(strings_encoding(items) =~= Seq::<u8>::empty());
        assert(strings_view(items) =~= Seq::<Seq<char>>::empty());
        assert(prefix + Seq::<u8>::empty() + rest =~= prefix + rest);
    }
}

/// A vector of strings reads back as itself, whatever the caches and whatever follows,
/// for every vector whose strings each fit one chunk. Lengths of 2^31 and more are left
/// out: the reader takes their count as a negative `i32`.
pub proof fn law_string_vec_roundtrip(
    v: Vec<String>,
    cache: Seq<u64>,
    bytes: Seq<u8>,
    after: Seq<u64>,
    rest: Seq<u8>,
    strings: Seq<Seq<char>>,
)
    requires
        v.encodes(cache, bytes, after),
        forall|k: int| 0 <= k < v@.len() ==> single_chunk(#[trigger] v@[k]@),
        v@.len() < 0x8000_0000,
    ensures
        Vec::<String>::decoding(bytes + rest, 0, strings) == Some((v.deep_view(), bytes.len(), strings)),
{
    let items = v@;
    let n = items.len();
    let h = list_header(n as usize);
    let body = bytes.skip(h.len() as int);
    lemma_strings_written(items, cache, body, after);
    assert(bytes =~= h + strings_encoding(items));
    let input = bytes + rest;
    if n < 8 {
        assert(h == seq![(0xE4 + (n as usize)) as u8]);
        assert(list_header_at(input, 0) == Some((1nat, n)));
    } else {
        let ni = n as i64;
        let cenc = int_encoding(ni);
        assert(h == seq![codes::LIST] + cenc);
        law_int_roundtrip(ni, strings_encoding(items) + rest);
        assert(input.skip(1) =~= cenc + (strings_encoding(items) + rest));
        lemma_int_ranges(ni);
        assert(list_header_at(input, 0) == Some((1 + cenc.len(), n)));
    }
    assert(input =~= h + strings_encoding(items) + rest);
    lemma_strings_read(items, h, rest, strings);
    assert(strings_view(items) =~= v.deep_view());
}


/// Where the first byte is no `PUT_PRIORITY_CACHE`, the event there is the plain one.
proof fn lemma_no_put(input: Seq<u8>, cache: Seq<Seq<char>>)
    requires
        input.len() > 0,
        input[0] != codes::PUT_PRIORITY_CACHE,
    ensures
        skip_puts(input, 0) == 0,
        event_at(input, 0, cache) == plain_event_at(input, 0, cache),
{
}

/// A self-described read where null was written gives null back.
pub proof fn law_event_null(cache: Seq<Seq<char>>, rest: Seq<u8>)
    ensures
        event_at(seq![codes::NULL] + rest, 0, cache) == Some((EventView::Null, 1nat, cache)),
{
    lemma_no_put(seq![codes::NULL] + rest, cache);
}

/// A self-described read where a boolean was written gives it back.
pub proof fn law_event_boolean(b: bool, cache: Seq<Seq<char>>, rest: Seq<u8>)
    ensures
        event_at(boolean_encoding(b) + rest, 0, cache) == Some((EventView::Bool(b), 1nat, cache)),
{
    lemma_no_put(boolean_encoding(b) + rest, cache);
}

/// A self-described read where an integer was written gives the integer back and
/// consumes its encoding, whatever the cache and whatever follows.
pub proof fn law_event_int(i: i64, cache: Seq<Seq<char>>, rest: Seq<u8>)
    ensures
        event_at(int_encoding(i) + rest, 0, cache) == Some(
            (EventView::Int(i), int_encoding(i).len() as nat, cache),
        ),
{
    let input = int_encoding(i) + rest;
    law_int_roundtrip(i, rest);
    assert(input.skip(0) =~= input);
    lemma_no_put(input, cache);
}

proof fn lemma_float_bits(bits: u32)
    by (bit_vector)
    ensures
        bits < 0x8000_0000 ==> (bits as i32 as i64) == bits && ((bits as i32 as i64) >> 32) == 0,
        bits >= 0x8000_0000 ==> (bits as i32 as i64) == bits - 0x1_0000_0000 && ((bits as i32
            as i64) >> 32) == -1,
{
}

proof fn lemma_double_bits(bits: u64)
    by (bit_vector)
    ensures
        (bits as i64) >= 0 ==> (bits as i64) == bits,
        (bits as i64) < 0 ==> (bits as i64) == bits - 0x1_0000_0000_0000_0000,
{
}

/// A self-described read where a float was written gives its bits back.
pub proof fn law_event_float(bits: u32, cache: Seq<Seq<char>>, rest: Seq<u8>)
    ensures
        event_at(float_encoding(bits) + rest, 0, cache) == Some((EventView::Float(bits), 5nat, cache)),
{
    let v = bits as i32 as i64;
    let input = float_encoding(bits) + rest;
    lemma_be_bytes_len(v, 4);
    lemma_be_bytes_value(v, 4);
    lemma_shr8_values(v);
    lemma_pow256_values();
    lemma_float_bits(bits);
    assert(input.subrange(1, 5) =~= be_bytes(v, 4));
    assert(be_uint(be_bytes(v, 4)) == bits);
    lemma_no_put(input, cache);
}

/// A self-described read where a double was written gives its bits back, for every
/// double but negative zero, which is written under the code of zero and so reads
/// back as positive zero.
pub proof fn law_event_double(bits: u64, cache: Seq<Seq<char>>, rest: Seq<u8>)
    requires
        bits != 0x8000_0000_0000_0000,
    ensures
        event_at(double_encoding(bits) + rest, 0, cache) == Some(
            (EventView::Double(bits), double_encoding(bits).len() as nat, cache),
        ),
{
    let input = double_encoding(bits) + rest;
    if bits != 0 && bits != 0x3FF0000000000000 {
        let v = bits as i64;
        lemma_be_bytes_len(v, 8);
        lemma_be_bytes_value(v, 8);
        lemma_shr8_values(v);
        lemma_pow256_values();
        lemma_double_bits(bits);
        assert(input.subrange(1, 9) =~= be_bytes(v, 8));
        assert(be_uint(be_bytes(v, 8)) == bits);
    }
    lemma_no_put(input, cache);
}

/// A non-empty byte array of at most 65535 bytes, as written, is found by `bytes_at`
/// under a byte-array code.
proof fn lemma_bytes_at_encoding(data: Seq<u8>, rest: Seq<u8>)
    requires
        0 < data.len() <= 65535,
    ensures
        bytes_at(bytes_encoding(data) + rest, 0) == Some((data, bytes_encoding(data).len() as nat)),
        kind_of((bytes_encoding(data) + rest)[0]) == ValueKind::Bytes,
{
    let input = bytes_encoding(data) + rest;
    if data.len() < 8 {
        assert(input.subrange(1, 1 + data.len() as int) =~= data);
    } else {
        let n = data.len() as i64;
        let enc = int_encoding(n);
        let tail = data + rest;
        assert(bytes_encoding(data) == seq![codes::BYTES] + enc + data);
        law_int_roundtrip(n, tail);
        assert(input.skip(1) =~= enc + tail);
        assert(count_at(input, 1) == data.len()) by {
            lemma_int_ranges(n);
        }
        let p: int = after_count(input, 1) as int;
        assert(p == 1 + enc.len());
        assert(input.subrange(p, p + data.len()) =~= data);
    }
}

/// A self-described read where a non-empty byte array of at most 65535 bytes was
/// written gives it back. (An empty array is written under the packed code for length
/// 0, which the reader refuses; a longer one is written in chunks, which the reader
/// does not take.)
pub proof fn law_event_bytes(data: Seq<u8>, cache: Seq<Seq<char>>, rest: Seq<u8>)
    requires
        0 < data.len() <= 65535,
    ensures
        event_at(bytes_encoding(data) + rest, 0, cache) == Some(
            (EventView::Bytes(data), bytes_encoding(data).len() as nat, cache),
        ),
{
    lemma_bytes_at_encoding(data, rest);
    lemma_no_put(bytes_encoding(data) + rest, cache);
}

/// A string as written on its own starts with a plain string code.
proof fn lemma_string_starts_plain(chars: Seq<char>)
    requires
        single_chunk(chars),
    ensures
        string_encoding(chars).len() > 0,
        is_string_code(string_encoding(chars)[0]),
        string_encoding(chars)[0] != codes::UTF8,
{
    if chars.len() > 0 {
        lemma_single_chunk(chars);
    }
}

/// A self-described read where a string was written gives it back, for every string
/// that the writer writes as a single chunk.
pub proof fn law_event_string(chars: Seq<char>, cache: Seq<Seq<char>>, rest: Seq<u8>)
    requires
        single_chunk(chars),
    ensures
        event_at(string_encoding(chars) + rest, 0, cache) == Some(
            (EventView::Str(chars), string_encoding(chars).len() as nat, cache),
        ),
{
    let input = string_encoding(chars) + rest;
    lemma_string_at_encoding(chars, Seq::empty(), rest);
    assert(Seq::<u8>::empty() + string_encoding(chars) + rest =~= input);
    lemma_string_starts_plain(chars);
    lemma_no_put(input, cache);
}

/// A self-described read of a string behind `PUT_PRIORITY_CACHE` gives the string and
/// adds it to the cache, for every string that the writer writes as a single chunk.
pub proof fn law_event_put_string(chars: Seq<char>, cache: Seq<Seq<char>>, rest: Seq<u8>)
    requires
        single_chunk(chars),
    ensures
        event_at(seq![codes::PUT_PRIORITY_CACHE] + string_encoding(chars) + rest, 0, cache) == Some(
            (EventView::Str(chars), 1 + string_encoding(chars).len() as nat, cache.push(chars)),
        ),
{
    let input = seq![codes::PUT_PRIORITY_CACHE] + string_encoding(chars) + rest;
    lemma_string_at_encoding(chars, seq![codes::PUT_PRIORITY_CACHE], rest);
    lemma_string_starts_plain(chars);
    assert(input[1] == string_encoding(chars)[0]);
    assert(skip_puts(input, 1) == 1);
    assert(skip_puts(input, 0) == 1);
}

/// A self-described read where a list header was written gives the length back, for
/// every length below 2^31, which the reader takes as a positive `i32`.
pub proof fn law_event_list(n: usize, cache: Seq<Seq<char>>, rest: Seq<u8>)
    requires
        n < 0x8000_0000,
    ensures
        event_at(list_header(n) + rest, 0, cache) == Some(
            (EventView::List(n), list_header(n).len() as nat, cache),
        ),
{
    let input = list_header(n) + rest;
    let h = list_header(n);
    lemma_list_header_at_encoding(n, rest);
    assert(list_start_at(input, 0) == Some((EventView::List(n), h.len() as nat)));
    lemma_no_put(input, cache);
}

/// A list header, as written, is found by `list_header_at` with its length.
#[verifier::spinoff_prover]
proof fn lemma_list_header_at_encoding(n: usize, rest: Seq<u8>)
    requires
        n < 0x8000_0000,
    ensures
        list_header_at(list_header(n) + rest, 0) == Some((list_header(n).len() as nat, n as nat)),
        (list_header(n) + rest)[0] != codes::PUT_PRIORITY_CACHE,
        (list_header(n) + rest)[0] != codes::BEGIN_CLOSED_LIST,
        (list_header(n) + rest)[0] != codes::BEGIN_OPEN_LIST,
        kind_of((list_header(n) + rest)[0]) is PackedList || kind_of((list_header(n) + rest)[0]) is List,
{
    let input = list_header(n) + rest;
    let h = list_header(n);
    if n >= 8 {
        let ni = n as i64;
        let cenc = int_encoding(ni);
        assert(h == seq![codes::LIST] + cenc);
        law_int_roundtrip(ni, rest);
        assert(input.skip(1) =~= cenc + rest);
        lemma_int_ranges(ni);
    }
}


/// A string written after `prefix` is found there by a self-described read, with
/// nothing waiting for the cache.
proof fn lemma_event_string_at(chars: Seq<char>, prefix: Seq<u8>, rest: Seq<u8>, cache: Seq<Seq<char>>)
    requires
        single_chunk(chars),
    ensures
        event_after(prefix + string_encoding(chars) + rest, prefix.len(), cache, false) == Some(
            (EventView::Str(chars), prefix.len() + string_encoding(chars).len(), cache, false),
        ),
{
    let input = prefix + string_encoding(chars) + rest;
    lemma_string_at_encoding(chars, prefix, rest);
    lemma_string_starts_plain(chars);
    assert(input[prefix.len() as int] == string_encoding(chars)[0]);
    assert(skip_puts(input, prefix.len()) == prefix.len());
}

/// The events from `pos` are the first one followed by those after it.
proof fn lemma_events_cons(input: Seq<u8>, pos: nat, cache: Seq<Seq<char>>, pending: bool, k: nat)
    requires
        event_after(input, pos, cache, pending) is Some,
    ensures
        ({
            let first = event_after(input, pos, cache, pending)->0;
            events_at(input, pos, cache, pending, k + 1) == match events_at(input, first.1, first.2, first.3, k) {
                Some(r) => Some((seq![first.0] + r.0, r.1, r.2, r.3)),
                None => None,
            }
        }),
    decreases k,
{
    let first = event_after(input, pos, cache, pending)->0;
    if k == 0 {
        assert(events_at(input, pos, cache, pending, 0) == Some((Seq::<EventView>::empty(), pos, cache, pending)));
        assert(seq![first.0] + Seq::<EventView>::empty() =~= Seq::<EventView>::empty().push(first.0));
    } else {
        lemma_events_cons(input, pos, cache, pending, (k - 1) as nat);
        match events_at(input, first.1, first.2, first.3, (k - 1) as nat) {
            Some(r) => {
                match event_after(input, r.1, r.2, r.3) {
                    Some(e) => {
                        assert(seq![first.0] + r.0.push(e.0) =~= (seq![first.0] + r.0).push(e.0));
                    },
                    None => {},
                }
            },
            None => {},
        }
    }
}

/// The characters of each string, as the events that a self-described read gives.
pub open spec fn string_events(items: Seq<String>) -> Seq<EventView> {
    Seq::new(items.len(), |i: int| EventView::Str(items[i]@))
}

#[verifier::rlimit(40)]
#[verifier::spinoff_prover]
proof fn lemma_string_events(items: Seq<String>, prefix: Seq<u8>, rest: Seq<u8>, cache: Seq<Seq<char>>)
    requires
        forall|k: int| 0 <= k < items.len() ==> single_chunk(#[trigger] items[k]@),
    ensures
        events_at(prefix + strings_encoding(items) + rest, prefix.len(), cache, false, items.len()) == Some(
            (string_events(items), prefix.len() + strings_encoding(items).len(), cache, false),
        ),
    decreases items.len(),
{
    if items.len() > 0 {
        let front = items.drop_last();
        let x = items.last();
        let enc_x = string_encoding(x@);
        assert(prefix + strings_encoding(items) + rest =~= prefix + strings_encoding(front) + (enc_x
            + rest));
        assert forall|k: int| 0 <= k < front.len() implies single_chunk(#[trigger] front[k]@) by {
            assert(front[k] == items[k]);
        }
        lemma_string_events(front, prefix, enc_x + rest, cache);
        let input = prefix + strings_encoding(items) + rest;
        let p = prefix + strings_encoding(front);
        assert(single_chunk(x@)) by {
            assert(x == items[items.len() - 1]);
        }
        lemma_event_string_at(x@, p, rest, cache);
        assert(input =~= p + enc_x + rest);
        assert(strings_encoding(items) == strings_encoding(front) + enc_x);
        let ghost n = items.len();
        assert(front.len() == (n - 1) as nat);
        let ghost before = events_at(input, prefix.len(), cache, false, (n - 1) as nat);
        assert(before == Some((string_events(front), p.len(), cache, false)));
        assert(event_after(input, p.len(), cache, false) == Some(
            (EventView::Str(x@), p.len() + enc_x.len(), cache, false),
        ));
        assert(string_events(front).push(EventView::Str(x@)) =~= string_events(items));
    } else {
        assert(strings_encoding(items) =~= Seq::<u8>::empty());
        assert(string_events(items) =~= Seq::<EventView>::empty());
    }
}

#[verifier::rlimit(80)]
#[verifier::spinoff_prover]
/// What a self-described read finds where a vector of strings was written: the list's
/// length, then each string, the cache untouched. As for the typed read, vectors whose
/// count the reader takes as negative (2^31 and more) are left out, and each string
/// must fit one chunk.
pub proof fn law_string_vec_events(
    v: Vec<String>,
    cache: Seq<u64>,
    bytes: Seq<u8>,
    after: Seq<u64>,
    rest: Seq<u8>,
    strings: Seq<Seq<char>>,
)
    requires
        v.encodes(cache, bytes, after),
        forall|k: int| 0 <= k < v@.len() ==> single_chunk(#[trigger] v@[k]@),
        v@.len() < 0x8000_0000,
    ensures
        events_at(bytes + rest, 0, strings, false, v@.len() + 1) == Some(
            (seq![EventView::List(v@.len() as usize)] + string_events(v@), bytes.len(), strings, false),
        ),
{
    let items = v@;
    let n = items.len();
    let h = list_header(n as usize);
    let enc = strings_encoding(items);
    let body = bytes.skip(h.len() as int);
    lemma_strings_written(items, cache, body, after);
    assert(bytes =~= h + enc);
    let input = bytes + rest;
    assert(input =~= h + (enc + rest));
    assert(input =~= h + enc + rest);
    law_event_list(n as usize, strings, enc + rest);
    lemma_list_header_at_encoding(n as usize, enc + rest);
    assert(event_after(input, 0, strings, false) == Some(
        (EventView::List(n as usize), h.len() as nat, strings, false),
    ));
    lemma_string_events(items, h, rest, strings);
    assert(events_at(input, h.len(), strings, false, n) == Some(
        (string_events(items), h.len() + enc.len(), strings, false),
    ));
    lemma_events_cons(input, 0, strings, false, n);
}


/// A string written in standard UTF-8 is found by `string_at`.
#[verifier::spinoff_prover]
#[verifier::rlimit(40)]
proof fn lemma_raw_utf8_string_at(chars: Seq<char>, rest: Seq<u8>)
    requires
        0 < encode_utf8(chars).len() < 0x8000_0000,
    ensures
        string_at(utf8_string_encoding(chars) + rest, 0) == Some(
            (chars, utf8_string_encoding(chars).len() as nat),
        ),
{
    let body = encode_utf8(chars);
    let input = utf8_string_encoding(chars) + rest;
    let n = body.len() as i64;
    let cenc = int_encoding(n);
    law_int_roundtrip(n, body + rest);
    assert(input.skip(1) =~= cenc + (body + rest));
    lemma_int_ranges(n);
    let p: int = 1 + cenc.len() as int;
    assert(count_at(input, 1) == body.len());
    assert(after_count(input, 1) == p);
    assert(input.subrange(p, p + body.len()) =~= body);
    encode_utf8_valid_utf8(chars);
    encode_utf8_decode_utf8(chars);
    assert(utf8_body_at(input, p as nat, body.len()) == Some((chars, (p + body.len()) as nat)));
}

/// A self-described read where a string was written in standard UTF-8 gives it back,
/// for every non-empty string of fewer than 2^31 bytes. (The reader refuses a
/// standard UTF-8 body of length 0.)
pub proof fn law_event_raw_utf8(chars: Seq<char>, cache: Seq<Seq<char>>, rest: Seq<u8>)
    requires
        0 < encode_utf8(chars).len() < 0x8000_0000,
    ensures
        event_at(utf8_string_encoding(chars) + rest, 0, cache) == Some(
            (EventView::Str(chars), utf8_string_encoding(chars).len() as nat, cache),
        ),
{
    lemma_raw_utf8_string_at(chars, rest);
    lemma_no_put(utf8_string_encoding(chars) + rest, cache);
}


/// Writing `value` from an empty cache can give only one byte string.
pub open spec fn writes_one_way<T: Encode>(value: &T) -> bool {
    forall|b1: Seq<u8>, a1: Seq<u64>, b2: Seq<u8>, a2: Seq<u64>|
        #![trigger value.encodes(Seq::empty(), b1, a1), value.encodes(Seq::empty(), b2, a2)]
        value.encodes(Seq::empty(), b1, a1) && value.encodes(Seq::empty(), b2, a2) ==> b1 == b2
}

/// What `to_vec_footer` gives is what `to_vec` gives followed by the footer: the magic
/// word, the number of bytes before it, and a zero checksum; for every value that can
/// be written in only one way (every value but a hash set, whose items come in the
/// order the set yields them).
pub proof fn law_footer_after_plain<T: Encode>(value: &T, plain_bytes: Seq<u8>, framed: Seq<u8>)
    requires
        writes_one_way(value),
        encodes_from_empty(value, plain_bytes),
        encodes_with_footer(value, framed),
    ensures
        framed == plain_bytes + footer_encoding(plain_bytes.len()),
{
    let n = choose|n: int|
        0 <= n <= framed.len() && #[trigger] encodes_from_empty(value, framed.take(n)) && framed.skip(n)
            == footer_encoding(n as nat);
    let a1 = choose|a: Seq<u64>| value.encodes(Seq::empty(), plain_bytes, a);
    let a2 = choose|a: Seq<u64>| value.encodes(Seq::empty(), framed.take(n), a);
    assert(value.encodes(Seq::empty(), plain_bytes, a1));
    assert(value.encodes(Seq::empty(), framed.take(n), a2));
    assert(plain_bytes == framed.take(n));
    assert(framed =~= framed.take(n) + framed.skip(n));
}

/// An integer, a boolean and a string can each be written in only one way.
pub proof fn lemma_plain_values_write_one_way(i: i64, b: bool, s: String)
    ensures
        writes_one_way(&i),
        writes_one_way(&b),
        writes_one_way(&s),
{
}


/// Integers written one after the other.
pub open spec fn ints_bytes(items: Seq<i64>) -> Seq<u8>
    decreases items.len(),
{
    if items.len() == 0 {
        Seq::empty()
    } else {
        ints_bytes(items.drop_last()) + int_encoding(items.last())
    }
}

/// Integers are written as their encodings, one after the other, leaving the cache
/// alone.
proof fn lemma_int_seq_encodes(items: Seq<i64>, cache: Seq<u64>, bytes: Seq<u8>, after: Seq<u64>)
    requires
        seq_encodes(items, cache, bytes, after),
    ensures
        bytes == ints_bytes(items),
        after == cache,
    decreases items.len(),
{
    if items.len() > 0 {
        let (k, mid) = choose|k: int, mid: Seq<u64>|
            0 <= k <= bytes.len() && seq_encodes(items.drop_last(), cache, bytes.take(k), mid)
                && #[trigger] items.last().encodes(mid, bytes.skip(k), after);
        lemma_int_seq_encodes(items.drop_last(), cache, bytes.take(k), mid);
        assert(bytes =~= bytes.take(k) + bytes.skip(k));
    } else {
        assert(bytes =~= Seq::<u8>::empty());
    }
}

/// A vector of integers can be written in only one way.
pub proof fn lemma_int_vec_writes_one_way(v: Vec<i64>)
    ensures
        writes_one_way(&v),
{
    assert forall|b1: Seq<u8>, a1: Seq<u64>, b2: Seq<u8>, a2: Seq<u64>|
        v.encodes(Seq::empty(), b1, a1) && v.encodes(Seq::empty(), b2, a2) implies b1 == b2 by {
        let h = list_header(v@.len() as usize);
        lemma_int_seq_encodes(v@, Seq::empty(), b1.skip(h.len() as int), a1);
        lemma_int_seq_encodes(v@, Seq::empty(), b2.skip(h.len() as int), a2);
        assert(b1 =~= b1.take(h.len() as int) + b1.skip(h.len() as int));
        assert(b2 =~= b2.take(h.len() as int) + b2.skip(h.len() as int));
    }
}


/// A self-described read where a map's header was written (`MAP`, then the header of
/// a list of its keys and values together) gives the number of keys and values back,
/// for every count below 2^31.
#[verifier::spinoff_prover]
pub proof fn law_event_map(n: usize, cache: Seq<Seq<char>>, rest: Seq<u8>)
    requires
        n < 0x8000_0000,
    ensures
        event_at(seq![codes::MAP] + list_header(n) + rest, 0, cache) == Some(
            (EventView::Entries(n), 1 + list_header(n).len() as nat, cache),
        ),
{
    let input = seq![codes::MAP] + list_header(n) + rest;
    lemma_list_header_after_code(codes::MAP, n, rest);
    lemma_no_put(input, cache);
}

/// The footer: the magic word, then the number `n` of bytes written before it, read
/// big-endian, then a zero checksum, for every `n` below 2^31.
pub proof fn law_footer_fields(n: nat)
    requires
        n < 0x8000_0000,
    ensures
        footer_encoding(n).len() == 12,
        footer_encoding(n).take(4) == seq![0xCFu8, 0xCF, 0xCF, 0xCF],
        be_uint(footer_encoding(n).subrange(4, 8)) == n,
        footer_encoding(n).skip(8) == seq![0u8, 0, 0, 0],
{
    let v = (n as i32) as i64;
    assert(v == n);
    lemma_be_bytes_len(v, 4);
    lemma_be_bytes_value(v, 4);
    lemma_be_uint_bound(be_bytes(v, 4));
    lemma_pow256_values();
    let f = footer_encoding(n);
    assert(f.subrange(4, 8) =~= be_bytes(v, 4));
    assert(f.take(4) =~= seq![0xCFu8, 0xCF, 0xCF, 0xCF]);
    assert(f.skip(8) =~= seq![0u8, 0, 0, 0]);
}

/// What `to_vec_footer` gives ends with the number of bytes before the footer, read
/// big-endian, between the magic word and the zero checksum, whenever that number is
/// below 2^31.
pub proof fn law_footer_counts_what_precedes<T: Encode>(value: &T, framed: Seq<u8>)
    requires
        encodes_with_footer(value, framed),
        framed.len() < 0x8000_0000 + 12,
    ensures
        framed.len() >= 12,
        framed.subrange(framed.len() - 12, framed.len() - 8) == seq![0xCFu8, 0xCF, 0xCF, 0xCF],
        be_uint(framed.subrange(framed.len() - 8, framed.len() - 4)) == framed.len() - 12,
        framed.subrange(framed.len() - 4, framed.len() as int) == seq![0u8, 0, 0, 0],
{
    let n = choose|n: int|
        0 <= n <= framed.len() && #[trigger] encodes_from_empty(value, framed.take(n)) && framed.skip(n)
            == footer_encoding(n as nat);
    let f = footer_encoding(n as nat);
    assert(f.len() == 12) by {
        lemma_be_bytes_len((n as i32) as i64, 4);
    }
    assert(n == framed.len() - 12);
    law_footer_fields(n as nat);
    assert(framed.subrange(n, n + 4) =~= f.take(4));
    assert(framed.subrange(n + 4, n + 8) =~= f.subrange(4, 8));
    assert(framed.subrange(n + 8, n + 12) =~= f.skip(8));
}

/// A regular expression, as written, starts with the code of a regular expression, and
/// a self-described read gives its text back, whatever the cache and whatever follows,
/// for every text written as one chunk.
pub proof fn law_regex_read_back(
    r: REGEX,
    cache: Seq<u64>,
    bytes: Seq<u8>,
    after: Seq<u64>,
    strings: Seq<Seq<char>>,
    rest: Seq<u8>,
)
    requires
        r.encodes(cache, bytes, after),
        single_chunk(r.text()),
    ensures
        bytes.len() > 0,
        kind_of(bytes[0]) == ValueKind::Regex,
        after == cache,
        event_at(bytes + rest, 0, strings) == Some((EventView::Str(r.text()), bytes.len(), strings)),
{
    lemma_string_at_encoding(r.text(), seq![codes::REGEX], rest);
    assert(bytes + rest =~= seq![codes::REGEX] + string_encoding(r.text()) + rest);
    lemma_no_put(bytes + rest, strings);
}

/// A URI, as written, starts with the code of a URI, and a self-described read gives
/// its text back, for every text written as one chunk.
pub proof fn law_uri_read_back(
    u: URI,
    cache: Seq<u64>,
    bytes: Seq<u8>,
    after: Seq<u64>,
    strings: Seq<Seq<char>>,
    rest: Seq<u8>,
)
    requires
        u.encodes(cache, bytes, after),
        single_chunk(u.text()),
    ensures
        bytes.len() > 0,
        kind_of(bytes[0]) == ValueKind::Uri,
        after == cache,
        event_at(bytes + rest, 0, strings) == Some((EventView::Str(u.text()), bytes.len(), strings)),
{
    lemma_string_at_encoding(u.text(), seq![codes::URI], rest);
    assert(bytes + rest =~= seq![codes::URI] + string_encoding(u.text()) + rest);
    lemma_no_put(bytes + rest, strings);
}

/// An instant, as written, starts with the code of an instant, and a self-described
/// read gives its milliseconds back.
pub proof fn law_inst_read_back(
    i: INST,
    cache: Seq<u64>,
    bytes: Seq<u8>,
    after: Seq<u64>,
    strings: Seq<Seq<char>>,
    rest: Seq<u8>,
)
    requires
        i.encodes(cache, bytes, after),
    ensures
        bytes.len() > 0,
        kind_of(bytes[0]) == ValueKind::Inst,
        after == cache,
        event_at(bytes + rest, 0, strings) == Some((EventView::Int(i.millis()), bytes.len(), strings)),
{
    let input = bytes + rest;
    law_int_roundtrip(i.millis(), rest);
    assert(input.skip(1) =~= int_encoding(i.millis()) + rest);
    assert(!int_read_ok(input.skip(0))) by {
        assert(input.skip(0)[0] == codes::INST);
    }
    lemma_no_put(input, strings);
}

/// A UUID, as written, starts with the code of a UUID, and a self-described read gives
/// its bytes back, for every UUID of 1 to 65535 bytes.
pub proof fn law_uuid_read_back(
    u: UUID,
    cache: Seq<u64>,
    bytes: Seq<u8>,
    after: Seq<u64>,
    strings: Seq<Seq<char>>,
    rest: Seq<u8>,
)
    requires
        u.encodes(cache, bytes, after),
        0 < u.bytes().len() <= 65535,
    ensures
        bytes.len() > 0,
        kind_of(bytes[0]) == ValueKind::Uuid,
        after == cache,
        event_at(bytes + rest, 0, strings) == Some((EventView::Bytes(u.bytes()), bytes.len(), strings)),
{
    let input = bytes + rest;
    let data = u.bytes();
    lemma_bytes_at_encoding_after(data, seq![codes::UUID], rest);
    assert(input =~= seq![codes::UUID] + bytes_encoding(data) + rest);
    lemma_no_put(input, strings);
}


/// A non-empty byte array of at most 65535 bytes, written after `prefix`, is found
/// there by `bytes_at`.
#[verifier::spinoff_prover]
proof fn lemma_bytes_at_encoding_after(data: Seq<u8>, prefix: Seq<u8>, rest: Seq<u8>)
    requires
        0 < data.len() <= 65535,
    ensures
        bytes_at(prefix + bytes_encoding(data) + rest, prefix.len()) == Some(
            (data, prefix.len() + bytes_encoding(data).len()),
        ),
{
    let input = prefix + bytes_encoding(data) + rest;
    let pos: int = prefix.len() as int;
    if data.len() < 8 {
        assert(input[pos] == (0xD0 + data.len()) as u8);
        assert(input.subrange(pos + 1, pos + 1 + data.len() as int) =~= data);
    } else {
        let n = data.len() as i64;
        let enc = int_encoding(n);
        let tail = data + rest;
        assert(bytes_encoding(data) == seq![codes::BYTES] + enc + data);
        law_int_roundtrip(n, tail);
        assert(input[pos] == codes::BYTES);
        assert(input.skip(pos + 1) =~= enc + tail);
        assert(count_at(input, (pos + 1) as nat) == data.len()) by {
            lemma_int_ranges(n);
        }
        let p: int = after_count(input, (pos + 1) as nat) as int;
        assert(p == pos + 1 + enc.len());
        assert(input.subrange(p, p + data.len()) =~= data);
    }
}


/// A string whose hash the cache already holds is written as a reference to the first
/// slot that holds it: slot `i` below 32 as the single code `0x80 + i`; slot 32 or
/// more as `GET_PRIORITY_CACHE` followed by an integer that reads back as `i`.
pub proof fn law_cached_string_reference(s: Seq<char>, cache: Seq<u64>, i: int)
    requires
        s.len() > 0,
        first_occurrence(cache, default_hash_of(s), i),
        cache.len() <= i64::MAX,
    ensures
        ({
            let enc = cached_string_encoding(s, cache);
            &&& i < 32 ==> enc.len() == 1 && enc[0] == codes::PRIORITY_CACHE_PACKED_START + i
            &&& i >= 32 ==> {
                &&& enc.len() > 1
                &&& enc[0] == codes::GET_PRIORITY_CACHE
                &&& int_read_ok(enc.skip(1))
                &&& int_read_len(enc.skip(1)) == enc.len() - 1
                &&& int_read_value(enc.skip(1)) == i
            }
        }),
        cached_string_cache(s, cache) == cache,
{
    let h = default_hash_of(s);
    assert(cache[i] == h);
    assert(cache.contains(h));
    let j = cache_index(cache, h);
    assert(first_occurrence(cache, h, j));
    if j < i {
        assert(cache[j] == h);
    } else if j > i {
        assert(cache[i] == h);
    }
    assert(j == i);
    let enc = cached_string_encoding(s, cache);
    if i >= 32 {
        let x = int_encoding(i as i64) + Seq::<u8>::empty();
        law_int_roundtrip(i as i64, Seq::empty());
        assert(enc == seq![codes::GET_PRIORITY_CACHE] + int_encoding(i as i64));
        assert(enc.skip(1) =~= x);
        assert(int_read_value(x) == i);
    }
}


/// The chunks of a long byte array, written after `prefix`, are found there with their
/// bytes joined back into the array.
#[verifier::spinoff_prover]
proof fn lemma_byte_chunks_read(data: Seq<u8>, prefix: Seq<u8>, rest: Seq<u8>)
    ensures
        chunked_bytes_at(prefix + bytes_chunks_encoding(data) + rest, prefix.len()) == Some(
            (data, prefix.len() + bytes_chunks_encoding(data).len()),
        ),
    decreases data.len(),
{
    let input = prefix + bytes_chunks_encoding(data) + rest;
    let pos: int = prefix.len() as int;
    if data.len() > 65535 {
        let head = data.take(65535);
        let tail = data.skip(65535);
        let cenc = int_encoding(65535);
        let front = prefix + seq![codes::BYTES_CHUNK] + cenc + head;
        assert(bytes_chunks_encoding(data) == seq![codes::BYTES_CHUNK] + cenc + head
            + bytes_chunks_encoding(tail));
        assert(input =~= front + bytes_chunks_encoding(tail) + rest);
        law_int_roundtrip(65535, head + bytes_chunks_encoding(tail) + rest);
        assert(input.skip(pos + 1) =~= cenc + (head + bytes_chunks_encoding(tail) + rest));
        assert(count_at(input, (pos + 1) as nat) == 65535) by {
            lemma_int_ranges(65535);
        }
        let q: int = after_count(input, (pos + 1) as nat) as int;
        assert(q == pos + 1 + cenc.len());
        assert(input.subrange(q, q + 65535) =~= head);
        lemma_byte_chunks_read(tail, front, rest);
        assert(front.len() == q + 65535);
        assert(head + tail =~= data);
    } else {
        let n = data.len() as i64;
        let cenc = int_encoding(n);
        assert(bytes_chunks_encoding(data) == seq![codes::BYTES] + cenc + data);
        law_int_roundtrip(n, data + rest);
        assert(input.skip(pos + 1) =~= cenc + (data + rest));
        assert(count_at(input, (pos + 1) as nat) == data.len()) by {
            lemma_int_ranges(n);
        }
        let q: int = after_count(input, (pos + 1) as nat) as int;
        assert(q == pos + 1 + cenc.len());
        assert(input.subrange(q, q + data.len()) =~= data);
    }
}

/// A byte array, as written, is read back whole, whatever its length: the bytes of its
/// chunks, in order, are the array.
pub proof fn law_bytes_chunks_read_back(data: Seq<u8>, rest: Seq<u8>)
    ensures
        chunked_bytes_at(bytes_encoding(data) + rest, 0) == Some((data, bytes_encoding(data).len())),
{
    let input = bytes_encoding(data) + rest;
    if data.len() < 8 {
        assert(input.subrange(1, 1 + data.len() as int) =~= data);
    } else {
        lemma_byte_chunks_read(data, Seq::empty(), rest);
        assert(Seq::<u8>::empty() + bytes_chunks_encoding(data) + rest =~= input);
    }
}


/// A typed array's header, `code` and its count, is read by a self-described read as
/// a list of that many items.
proof fn lemma_array_event(code: u8, n: nat, rest: Seq<u8>, strings: Seq<Seq<char>>)
    requires
        code == codes::INT_ARRAY || code == codes::LONG_ARRAY || code == codes::BOOLEAN_ARRAY,
        n < 0x8000_0000,
    ensures
        event_at(seq![code] + int_encoding(n as i64) + rest, 0, strings) == Some(
            (EventView::List(n as usize), 1 + int_encoding(n as i64).len() as nat, strings),
        ),
{
    let input = seq![code] + int_encoding(n as i64) + rest;
    law_int_roundtrip(n as i64, rest);
    assert(input.skip(1) =~= int_encoding(n as i64) + rest);
    lemma_int_ranges(n as i64);
    lemma_no_put(input, strings);
}

/// A typed array of 32-bit integers, as written, starts with the code of such an array
/// and is read by a self-described read as a list of as many items, for fewer than
/// 2^31 items.
pub proof fn law_int_array_header(a: IntArray, cache: Seq<u64>, bytes: Seq<u8>, after: Seq<u64>, strings: Seq<Seq<char>>)
    requires
        a.encodes(cache, bytes, after),
        a.items().len() < 0x8000_0000,
    ensures
        bytes.len() > 0,
        bytes[0] == codes::INT_ARRAY,
        kind_of(bytes[0]) == ValueKind::TypedArray,
        after == cache,
        event_at(bytes, 0, strings) matches Some(e) && e.0 == EventView::List(a.items().len() as usize),
{
    let n = a.items().len();
    let body = ints_encoding(widen(a.items()));
    lemma_array_event(codes::INT_ARRAY, n, body, strings);
    assert(bytes =~= seq![codes::INT_ARRAY] + int_encoding(n as i64) + body);
}

/// A typed array of 64-bit integers, as written, starts with the code of such an array
/// and is read by a self-described read as a list of as many items, for fewer than
/// 2^31 items.
pub proof fn law_long_array_header(a: LongArray, cache: Seq<u64>, bytes: Seq<u8>, after: Seq<u64>, strings: Seq<Seq<char>>)
    requires
        a.encodes(cache, bytes, after),
        a.items().len() < 0x8000_0000,
    ensures
        bytes.len() > 0,
        bytes[0] == codes::LONG_ARRAY,
        kind_of(bytes[0]) == ValueKind::TypedArray,
        after == cache,
        event_at(bytes, 0, strings) matches Some(e) && e.0 == EventView::List(a.items().len() as usize),
{
    let n = a.items().len();
    let body = ints_encoding(a.items());
    lemma_array_event(codes::LONG_ARRAY, n, body, strings);
    assert(bytes =~= seq![codes::LONG_ARRAY] + int_encoding(n as i64) + body);
}

/// A typed array of booleans, as written, starts with the code of such an array and is
/// read by a self-described read as a list of as many items, for fewer than 2^31 items.
pub proof fn law_boolean_array_header(a: BooleanArray, cache: Seq<u64>, bytes: Seq<u8>, after: Seq<u64>, strings: Seq<Seq<char>>)
    requires
        a.encodes(cache, bytes, after),
        a.items().len() < 0x8000_0000,
    ensures
        bytes.len() > 0,
        bytes[0] == codes::BOOLEAN_ARRAY,
        kind_of(bytes[0]) == ValueKind::TypedArray,
        after == cache,
        event_at(bytes, 0, strings) matches Some(e) && e.0 == EventView::List(a.items().len() as usize),
{
    let n = a.items().len();
    let body = booleans_encoding(a.items());
    lemma_array_event(codes::BOOLEAN_ARRAY, n, body, strings);
    assert(bytes =~= seq![codes::BOOLEAN_ARRAY] + int_encoding(n as i64) + body);
}

/// A symbol and a keyword, as written, start with their own codes, which a
/// self-described read takes as a list of two: the namespace and the name.
pub proof fn law_named_codes(
    sym: SYM,
    key: KEY,
    cache: Seq<u64>,
    sb: Seq<u8>,
    sa: Seq<u64>,
    kb: Seq<u8>,
    ka: Seq<u64>,
    strings: Seq<Seq<char>>,
)
    requires
        sym.encodes(cache, sb, sa),
        key.encodes(cache, kb, ka),
    ensures
        sb.len() > 0 && kind_of(sb[0]) == ValueKind::Sym,
        kb.len() > 0 && kind_of(kb[0]) == ValueKind::Key,
        event_at(sb, 0, strings) == Some((EventView::List(2), 1nat, strings)),
        event_at(kb, 0, strings) == Some((EventView::List(2), 1nat, strings)),
{
    lemma_no_put(sb, strings);
    lemma_no_put(kb, strings);
}


/// A list header written after one code is found after that code, with its length.
proof fn lemma_list_header_after_code(code: u8, n: usize, rest: Seq<u8>)
    requires
        n < 0x8000_0000,
    ensures
        list_header_at(seq![code] + list_header(n) + rest, 1) == Some((1 + list_header(n).len() as nat, n as nat)),
{
    let h = list_header(n);
    let input = seq![code] + h + rest;
    if n >= 8 {
        let ni = n as i64;
        let cenc = int_encoding(ni);
        assert(h == seq![codes::LIST] + cenc);
        law_int_roundtrip(ni, rest);
        assert(input.skip(2) =~= cenc + rest);
        lemma_int_ranges(ni);
    } else {
        assert(input[1] == (0xE4 + n) as u8);
    }
}

/// A set wrapped in `SET`, as written, starts with the code of a set, which a
/// self-described read takes as a list of as many items as the set holds, for fewer
/// than 2^31 items.
pub proof fn law_set_header<T: Encode + Ord>(s: SET<T>, cache: Seq<u64>, bytes: Seq<u8>, after: Seq<u64>, strings: Seq<Seq<char>>)
    requires
        s.encodes(cache, bytes, after),
        s.inner()@.len() < 0x8000_0000,
    ensures
        kind_of(bytes[0]) == ValueKind::SetValue,
        event_at(bytes, 0, strings) matches Some(e) && e.0 == EventView::List(s.inner()@.len() as usize),
{
    let n = s.inner()@.len() as usize;
    let walk = choose|walk: Seq<&T>|
        walk.unref().to_set() == s.inner()@ && walk.unref().no_duplicates() && walk.len() == s.inner()@.len()
            && vstd::std_specs::btree::increasing_seq(walk) && #[trigger] list_encodes(walk.unref(), cache, bytes.skip(1), after);
    let h = list_header(n);
    let body = bytes.skip(1);
    assert(walk.unref().len() == n);
    let rest = body.skip(h.len() as int);
    assert(bytes =~= seq![codes::SET] + h + rest) by {
        assert(body.take(h.len() as int) == h);
        assert(body =~= body.take(h.len() as int) + rest);
        assert(bytes =~= seq![bytes[0]] + body);
    }
    lemma_list_header_after_code(codes::SET, n, rest);
    lemma_no_put(bytes, strings);
}

/// A set wrapped in `HASHSET`, as written, starts with the code of a set, which a
/// self-described read takes as a list of as many items as the set holds, for fewer
/// than 2^31 items.
pub proof fn law_hashset_header<T: Encode + Ord + Hash>(s: HASHSET<T>, cache: Seq<u64>, bytes: Seq<u8>, after: Seq<u64>, strings: Seq<Seq<char>>)
    requires
        s.encodes(cache, bytes, after),
        s.inner()@.len() < 0x8000_0000,
    ensures
        kind_of(bytes[0]) == ValueKind::SetValue,
        event_at(bytes, 0, strings) matches Some(e) && e.0 == EventView::List(s.inner()@.len() as usize),
{
    let n = s.inner()@.len() as usize;
    let q = choose|q: Seq<T>|
        q.to_set() == s.inner()@ && q.no_duplicates() && q.len() == s.inner()@.len()
            && #[trigger] list_encodes(q, cache, bytes.skip(1), after);
    let h = list_header(n);
    let body = bytes.skip(1);
    let rest = body.skip(h.len() as int);
    assert(bytes =~= seq![codes::SET] + h + rest) by {
        assert(body.take(h.len() as int) == h);
        assert(body =~= body.take(h.len() as int) + rest);
        assert(bytes =~= seq![bytes[0]] + body);
    }
    lemma_list_header_after_code(codes::SET, n, rest);
    lemma_no_put(bytes, strings);
}


/// A map, as `write_map` writes it, starts with the code of a map, which a
/// self-described read takes as the start of a map of all its keys and values
/// together, for fewer than 2^30 pairs.
pub proof fn law_map_header<K: Encode, V: Encode>(
    keys: Seq<K>,
    values: Seq<V>,
    cache: Seq<u64>,
    bytes: Seq<u8>,
    after: Seq<u64>,
    strings: Seq<Seq<char>>,
)
    requires
        map_encodes(keys, values, cache, bytes, after),
        keys.len() < 0x4000_0000,
    ensures
        kind_of(bytes[0]) == ValueKind::MapValue,
        event_at(bytes, 0, strings) matches Some(e) && e.0 == EventView::Entries((2 * keys.len()) as usize),
{
    let n = (2 * keys.len()) as usize;
    let h = list_header(n);
    let rest = bytes.skip(1 + h.len() as int);
    assert(bytes =~= seq![codes::MAP] + h + rest) by {
        assert(bytes.take(1 + h.len() as int) == seq![codes::MAP] + h);
        assert(bytes =~= bytes.take(1 + h.len() as int) + rest);
    }
    law_event_map(n, strings, rest);
}

} // verus!
