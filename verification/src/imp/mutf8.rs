//! Java's modified UTF-8, read back: bytes to UTF-16 code units, and code units to
//! characters.

use vstd::prelude::*;
use vstd::utf8::{valid_utf8, decode_utf8};

verus! {

/// The code unit that a two-byte sequence `b0 b1` stands for.
pub open spec fn two_byte_unit(b0: u8, b1: u8) -> u16 {
    (((b0 as u32 & 0x1f) << 6) | (b1 as u32 & 0x3f)) as u16
}

/// The code unit that a three-byte sequence `b0 b1 b2` stands for.
pub open spec fn three_byte_unit(b0: u8, b1: u8, b2: u8) -> u16 {
    (((b0 as u32 & 0x0f) << 12) | ((b1 as u32 & 0x3f) << 6) | (b2 as u32 & 0x3f)) as u16
}

/// Decodes modified UTF-8 into UTF-16 code units. A byte whose high nibble is below 8
/// is a unit of its own; `0xC_` and `0xD_` start a two-byte sequence, `0xE_` a
/// three-byte one. Any other leading byte, or a sequence cut short, gives `None`.
pub open spec fn mutf8_decode(bytes: Seq<u8>) -> Option<Seq<u16>>
    decreases bytes.len(),
{
    if bytes.len() == 0 {
        Some(Seq::empty())
    } else {
        let b = bytes[0];
        if b >> 4 <= 7 {
            prepend(seq![b as u16], mutf8_decode(bytes.skip(1)))
        } else if (b >> 4 == 12 || b >> 4 == 13) && bytes.len() >= 2 {
            prepend(seq![two_byte_unit(b, bytes[1])], mutf8_decode(bytes.skip(2)))
        } else if b >> 4 == 14 && bytes.len() >= 3 {
            prepend(seq![three_byte_unit(b, bytes[1], bytes[2])], mutf8_decode(bytes.skip(3)))
        } else {
            None
        }
    }
}

/// `front` followed by what `rest` holds, if it holds anything.
pub open spec fn prepend<T>(front: Seq<T>, rest: Option<Seq<T>>) -> Option<Seq<T>> {
    match rest {
        Some(r) => Some(front + r),
        None => None,
    }
}

/// `u` is a UTF-16 high surrogate.
pub open spec fn is_high_surrogate(u: u16) -> bool {
    0xD800 <= u <= 0xDBFF
}

/// `u` is a UTF-16 low surrogate.
pub open spec fn is_low_surrogate(u: u16) -> bool {
    0xDC00 <= u <= 0xDFFF
}

/// Decodes UTF-16: a unit outside the surrogate range is a character; a high surrogate
/// followed by a low one is the character beyond `0xFFFF` that they encode. Anything
/// else (an unpaired surrogate) gives `None`.
pub open spec fn utf16_decode(units: Seq<u16>) -> Option<Seq<char>>
    decreases units.len(),
{
    if units.len() == 0 {
        Some(Seq::empty())
    } else {
        let u = units[0];
        if u < 0xD800 || u > 0xDFFF {
            prepend(seq![u as char], utf16_decode(units.skip(1)))
        } else if is_high_surrogate(u) && units.len() >= 2 && is_low_surrogate(units[1]) {
            let c = 0x10000 + (u - 0xD800) * 0x400 + (units[1] - 0xDC00);
            prepend(seq![c as char], utf16_decode(units.skip(2)))
        } else {
            None
        }
    }
}

/// Builds a `String` from UTF-16 code units with `String::from_utf16`, which the
/// standard library documents as decoding UTF-16 and refusing any invalid data (an
/// unpaired surrogate). The contract states that decoding as `utf16_decode`.
#[verifier::external_body]
pub(crate) fn string_from_utf16(units: &[u16]) -> (r: Option<String>)
    ensures
        match utf16_decode(units@) {
            Some(chars) => r matches Some(s) && s@ == chars,
            None => r is None,
        },
{
    String::from_utf16(units).ok()
}

/// Reads `bytes` as UTF-8 with `std::str::from_utf8`, which the standard library
/// documents as succeeding exactly on valid UTF-8. The contract states that with
/// vstd's `valid_utf8` and `decode_utf8`.
#[verifier::external_body]
pub(crate) fn str_from_utf8(bytes: &[u8]) -> (r: Option<&str>)
    ensures
        r is Some <==> valid_utf8(bytes@),
        r matches Some(s) ==> s@ == decode_utf8(bytes@),
{
    std::str::from_utf8(bytes).ok()
}

/// Decodes the modified UTF-8 in `bytes` into UTF-16 code units.
pub(crate) fn decode_mutf8(bytes: &[u8]) -> (r: Option<Vec<u16>>)
    ensures
        match mutf8_decode(bytes@) {
            Some(units) => r matches Some(v) && v@ == units,
            None => r is None,
        },
{
    let length = bytes.len();
    let mut buf: Vec<u16> = Vec::with_capacity(length);
    let mut pos: usize = 0;
    proof {
        assert(bytes@.skip(0) =~= bytes@);
        if let Some(t) = mutf8_decode(bytes@) {
            assert(buf@ + t =~= t);
        }
    }
    while pos < length
        invariant
            length == bytes@.len(),
            pos <= length,
            mutf8_decode(bytes@) == prepend(buf@, mutf8_decode(bytes@.skip(pos as int))),
        decreases length - pos,
    {
        let ghost rest = bytes@.skip(pos as int);
        let ch = bytes[pos];
        let high = ch >> 4;
        if high <= 7 {
            buf.push(ch as u16);
            proof {
                assert(rest.skip(1) =~= bytes@.skip(pos + 1));
                let u = ch as u16;
                assert(buf@.drop_last() + seq![u] =~= buf@);
                if let Some(t) = mutf8_decode(rest.skip(1)) {
                    assert(buf@.drop_last() + (seq![u] + t) =~= buf@ + t);
                }
            }
            pos = pos + 1;
        } else if (high == 12 || high == 13) && length - pos >= 2 {
            let ch1 = bytes[pos + 1];
            let n: u32 = ((ch as u32 & 0x1f) << 6) | (ch1 as u32 & 0x3f);
            buf.push(#[verifier::truncate] (n as u16));
            proof {
                assert(rest.skip(2) =~= bytes@.skip(pos + 2));
                let u = two_byte_unit(ch, ch1);
                assert(buf@.drop_last() + seq![u] =~= buf@);
                if let Some(t) = mutf8_decode(rest.skip(2)) {
                    assert(buf@.drop_last() + (seq![u] + t) =~= buf@ + t);
                }
            }
            pos = pos + 2;
        } else if high == 14 && length - pos >= 3 {
            let ch1 = bytes[pos + 1];
            let ch2 = bytes[pos + 2];
            let n: u32 = ((ch as u32 & 0x0f) << 12) | ((ch1 as u32 & 0x3f) << 6) | (ch2 as u32 & 0x3f);
            buf.push(#[verifier::truncate] (n as u16));
            proof {
                assert(rest.skip(3) =~= bytes@.skip(pos + 3));
                let u = three_byte_unit(ch, ch1, ch2);
                assert(buf@.drop_last() + seq![u] =~= buf@);
                if let Some(t) = mutf8_decode(rest.skip(3)) {
                    assert(buf@.drop_last() + (seq![u] + t) =~= buf@ + t);
                }
            }
            pos = pos + 3;
        } else {
            return None;
        }
    }
    proof {
        assert(bytes@.skip(pos as int) =~= Seq::<u8>::empty());
        assert(buf@ + Seq::<u16>::empty() =~= buf@);
    }
    Some(buf)
}

} // verus!
