use vstd::prelude::*;
use crate::error::{Error, ErrorCode, Result};
use vstd::slice::slice_subrange;

verus! {

/// A cursor over a borrowed byte slice.
pub struct ByteReader<'a> {
    input: &'a [u8],
    bytes_read: usize,
}

impl<'a> ByteReader<'a> {
    /// The bytes being read.
    pub closed spec fn input(&self) -> Seq<u8> {
        self.input@
    }

    /// How many bytes have been consumed so far.
    pub closed spec fn position(&self) -> nat {
        self.bytes_read as nat
    }

    /// The bytes not yet consumed.
    pub open spec fn remaining(&self) -> Seq<u8> {
        self.input().skip(self.position() as int)
    }

    /// The position lies within the input. Reading keeps this; only
    /// `notify_bytes_read` can move the position past the end.
    pub open spec fn wf(&self) -> bool {
        self.position() <= self.input().len()
    }

    pub fn new(bytes: &'a [u8]) -> (r: Self)
        ensures
            r.input() == bytes@,
            r.position() == 0,
    {
        ByteReader { input: bytes, bytes_read: 0 }
    }

    pub fn from_vec(v: &'a Vec<u8>) -> (r: Self)
        ensures
            r.input() == v@,
            r.position() == 0,
    {
        ByteReader::new(v.as_slice())
    }

    pub fn notify_bytes_read(&mut self, count: usize)
        requires
            old(self).position() + count <= usize::MAX,
        ensures
            final(self).input() == old(self).input(),
            final(self).position() == old(self).position() + count,
    {
        self.bytes_read = self.bytes_read + count;
    }

    pub fn get_bytes_read(&self) -> (n: usize)
        ensures
            n == self.position(),
    {
        self.bytes_read
    }

    pub fn reset(&mut self)
        ensures
            final(self).input() == old(self).input(),
            final(self).position() == 0,
    {
        self.bytes_read = 0;
    }

    /// Consumes one byte; at the end of the input, fails with `Eof` and consumes nothing.
    pub fn read_u8(&mut self) -> (r: Result<&'a u8>)
        ensures
            final(self).input() == old(self).input(),
            old(self).position() < old(self).input().len() ==> {
                &&& r matches Ok(b) && *b == old(self).input()[old(self).position() as int]
                &&& final(self).position() == old(self).position() + 1
            },
            old(self).position() >= old(self).input().len() ==> {
                &&& r matches Err(e) && e.err.code is Eof && e.err.position == old(self).position()
                &&& final(self).position() == old(self).position()
            },
    {
        if self.bytes_read < self.input.len() {
            let byte: &'a u8 = &self.input[self.bytes_read];
            self.notify_bytes_read(1);
            Ok(byte)
        } else {
            Err(Error::eof(self.bytes_read))
        }
    }

    /// Like `read_u8`, with the byte taken as a signed value.
    pub fn read_i8(&mut self) -> (r: Result<i8>)
        ensures
            final(self).input() == old(self).input(),
            old(self).position() < old(self).input().len() ==> {
                &&& r matches Ok(b) && b == old(self).input()[old(self).position() as int] as i8
                &&& final(self).position() == old(self).position() + 1
            },
            old(self).position() >= old(self).input().len() ==> {
                &&& r matches Err(e) && e.err.code is Eof && e.err.position == old(self).position()
                &&& final(self).position() == old(self).position()
            },
    {
        let b = self.read_u8()?;
        Ok(*b as i8)
    }

    /// Looks at the next byte without consuming it.
    pub fn peek_u8(&mut self) -> (r: Result<&'a u8>)
        ensures
            *final(self) == *old(self),
            old(self).position() < old(self).input().len() ==> (r matches Ok(b) && *b
                == old(self).input()[old(self).position() as int]),
            old(self).position() >= old(self).input().len() ==> (r matches Err(e)
                && e.err.code is Eof && e.err.position == old(self).position()),
    {
        if self.bytes_read < self.input.len() {
            Ok(&self.input[self.bytes_read])
        } else {
            Err(Error::eof(self.bytes_read))
        }
    }

    /// Consumes the next `length` bytes. A length of zero is refused; a length past the
    /// end of the input fails with `Eof`. On failure nothing is consumed.
    pub fn read_bytes(&mut self, length: usize) -> (r: Result<&'a [u8]>)
        ensures
            final(self).input() == old(self).input(),
            length == 0 ==> {
                &&& r matches Err(e) && e.err.code is ExpectedNonZeroReadLength
                    && e.err.position == old(self).position()
                &&& final(self).position() == old(self).position()
            },
            length > 0 && old(self).position() + length <= old(self).input().len() ==> {
                &&& r matches Ok(s) && s@ == old(self).input().subrange(
                    old(self).position() as int,
                    old(self).position() + length,
                )
                &&& final(self).position() == old(self).position() + length
            },
            length > 0 && old(self).position() + length > old(self).input().len() ==> {
                &&& r matches Err(e) && e.err.code is Eof && e.err.position == old(self).position()
                &&& final(self).position() == old(self).position()
            },
    {
        if length == 0 {
            Err(Error::syntax(ErrorCode::ExpectedNonZeroReadLength, self.bytes_read))
        } else {
            if self.bytes_read > self.input.len() || self.input.len() - self.bytes_read < length {
                Err(Error::eof(self.bytes_read))
            } else {
                let start = self.bytes_read;
                let end = start + length;
                self.notify_bytes_read(length);
                let bytes: &'a [u8] = slice_subrange(self.input, start, end);
                Ok(bytes)
            }
        }
    }
}


/// A sink of bytes. `written_bytes` is the stream written so far; every write
/// appends to it and succeeds.
pub trait IWriteBytes {
    spec fn writer_wf(&self) -> bool;

    spec fn written_bytes(&self) -> Seq<u8>;

    fn write_u8(&mut self, byte: u8) -> (r: Result<()>)
        requires
            old(self).writer_wf(),
        ensures
            r is Ok,
            final(self).writer_wf(),
            final(self).written_bytes() == old(self).written_bytes().push(byte),
    ;

    /// Appends `bytes[off .. off + len]`.
    fn write_bytes(&mut self, bytes: &[u8], off: usize, len: usize) -> (r: Result<()>)
        requires
            old(self).writer_wf(),
            off + len <= bytes@.len(),
        ensures
            r is Ok,
            final(self).writer_wf(),
            final(self).written_bytes() == old(self).written_bytes() + bytes@.subrange(
                off as int,
                off + len,
            ),
    ;

    fn get_bytes_written(&self) -> (n: u64)
        requires
            self.writer_wf(),
        ensures
            n == self.written_bytes().len(),
    ;
}

/// Writes into a growable buffer. Bytes at and past `bytes_written` are left over from
/// before a `reset` and are overwritten by later writes.
pub struct ByteWriter {
    out: Vec<u8>,
    bytes_written: u64,
}

impl ByteWriter {
    /// The whole underlying buffer, including bytes past the write position.
    pub closed spec fn buffer(&self) -> Seq<u8> {
        self.out@
    }

    /// The write position.
    pub closed spec fn position(&self) -> nat {
        self.bytes_written as nat
    }

    pub open spec fn wf(&self) -> bool {
        self.position() <= self.buffer().len()
    }

    /// The bytes written since creation or the last reset.
    pub open spec fn written(&self) -> Seq<u8> {
        self.buffer().take(self.position() as int)
    }

    pub fn from_vec(out: Vec<u8>) -> (w: Self)
        ensures
            w.wf(),
            w.buffer() == out@,
            w.position() == 0,
            w.written() == Seq::<u8>::empty(),
    {
        ByteWriter { bytes_written: 0, out: out }
    }

    /// The underlying buffer, including any bytes past the write position.
    pub fn into_inner(self) -> (v: Vec<u8>)
        ensures
            v@ == self.buffer(),
    {
        self.out
    }

    /// The underlying buffer.
    pub fn get_ref(&self) -> (v: &Vec<u8>)
        ensures
            v@ == self.buffer(),
    {
        &self.out
    }

    /// Mutable access to the underlying buffer; the write position is kept.
    pub fn get_mut(&mut self) -> (v: &mut Vec<u8>)
        ensures
            v@ == old(self).buffer(),
            final(self).buffer() == final(v)@,
            final(self).position() == old(self).position(),
    {
        &mut self.out
    }

    /// A copy of the bytes written.
    pub fn to_vec(&mut self) -> (v: Vec<u8>)
        requires
            old(self).wf(),
        ensures
            *final(self) == *old(self),
            v@ == old(self).written(),
    {
        if self.bytes_written == 0 {
            Vec::new()
        } else {
            assert(self.out@.len() <= usize::MAX) by {
                assert(self.out.len() == self.out@.len());
            }
            let n = self.bytes_written as usize;
            let mut v: Vec<u8> = Vec::with_capacity(n);
            let mut i: usize = 0;
            while i < n
                invariant
                    n == self.position(),
                    n <= self.out@.len(),
                    i <= n,
                    v@ == self.out@.take(i as int),
                decreases n - i,
            {
                v.push(self.out[i]);
                i = i + 1;
                assert(v@ =~= self.out@.take(i as int));
            }
            v
        }
    }

    /// Starts writing again from the front of the buffer.
    pub fn reset(&mut self)
        ensures
            final(self).buffer() == old(self).buffer(),
            final(self).position() == 0,
            final(self).wf(),
            final(self).written() == Seq::<u8>::empty(),
    {
        self.bytes_written = 0;
    }

    pub fn notify_bytes_written(&mut self, count: u64)
        requires
            old(self).position() + count <= u64::MAX,
        ensures
            final(self).buffer() == old(self).buffer(),
            final(self).position() == old(self).position() + count,
    {
        self.bytes_written = self.bytes_written + count;
    }
}

/// `buf` with `data` written over it from `pos`: the bytes before `pos` are kept,
/// `data` replaces what stood at its place, and what stood past it is kept; where
/// `data` runs past the end, the buffer grows.
pub open spec fn overwrite(buf: Seq<u8>, pos: nat, data: Seq<u8>) -> Seq<u8> {
    buf.take(pos as int) + data + if pos + data.len() < buf.len() {
        buf.skip((pos + data.len()) as int)
    } else {
        Seq::empty()
    }
}

impl IWriteBytes for ByteWriter {
    open spec fn writer_wf(&self) -> bool {
        self.wf()
    }

    open spec fn written_bytes(&self) -> Seq<u8> {
        self.written()
    }

    fn write_u8(&mut self, byte: u8) -> (r: Result<()>)
        ensures
            final(self).buffer() == overwrite(old(self).buffer(), old(self).position(), seq![byte]),
            final(self).position() == old(self).position() + 1,
    {
        vec_write_byte(&mut self.out, self.bytes_written, byte);
        assert(self.out@.len() <= usize::MAX) by {
            assert(self.out.len() == self.out@.len());
        }
        self.notify_bytes_written(1);
        assert(self.written() =~= old(self).written().push(byte));
        assert(self.buffer() =~= overwrite(old(self).buffer(), old(self).position(), seq![byte]));
        Ok(())
    }

    fn write_bytes(&mut self, bytes: &[u8], off: usize, len: usize) -> (r: Result<()>)
        ensures
            final(self).buffer() == overwrite(
                old(self).buffer(),
                old(self).position(),
                bytes@.subrange(off as int, off + len),
            ),
            final(self).position() == old(self).position() + len,
    {
        assert(bytes@.len() <= usize::MAX) by {
            assert(bytes.len() == bytes@.len());
        }
        let buf = slice_subrange(bytes, off, off + len);
        assert(self.out@.len() <= usize::MAX) by {
            assert(self.out.len() == self.out@.len());
        }
        let pos = self.bytes_written as usize;
        vec_write_bytes(&mut self.out, pos, buf);
        assert(self.out@.len() <= usize::MAX) by {
            assert(self.out.len() == self.out@.len());
        }
        self.notify_bytes_written(len as u64);
        let ghost expect = old(self).written() + bytes@.subrange(off as int, off + len);
        assert forall|i: int| 0 <= i < expect.len() implies #[trigger] self.written()[i] == expect[i] by {
            if i < pos {
            } else {
                assert(self.out@[pos + (i - pos)] == buf@[i - pos]);
            }
        }
        assert(self.written() =~= expect);
        assert(self.buffer() =~= overwrite(old(self).buffer(), old(self).position(), buf@));
        Ok(())
    }

    fn get_bytes_written(&self) -> (n: u64) {
        self.bytes_written
    }
}

/// Puts `byte` at index `bytes_written` of `vec`, or appends it when that index is at
/// or past the end.
fn vec_write_byte(vec: &mut Vec<u8>, bytes_written: u64, byte: u8)
    ensures
        bytes_written < old(vec)@.len() ==> final(vec)@ == old(vec)@.update(
            bytes_written as int,
            byte,
        ),
        bytes_written >= old(vec)@.len() ==> final(vec)@ == old(vec)@.push(byte),
{
    let len = vec.len();
    if bytes_written < len as u64 {
        vec.set(bytes_written as usize, byte);
    } else {
        vec.push(byte);
    }
}

/// Writes `buf` into `vec` starting at `pos`: bytes inside the vector are overwritten,
/// the rest is appended; a gap before `pos` is filled with zeros.
fn vec_write_bytes(vec: &mut Vec<u8>, pos: usize, buf: &[u8])
    ensures
        final(vec)@.len() == if old(vec)@.len() < pos + buf@.len() {
            pos + buf@.len()
        } else {
            old(vec)@.len() as int
        },
        forall|i: int| 0 <= i < pos ==> #[trigger] final(vec)@[i] == if i < old(vec)@.len() {
            old(vec)@[i]
        } else {
            0u8
        },
        forall|i: int| 0 <= i < buf@.len() ==> #[trigger] final(vec)@[pos + i] == buf@[i],
        forall|i: int|
            pos + buf@.len() <= i < old(vec)@.len() ==> #[trigger] final(vec)@[i] == old(vec)@[i],
{
    let len = vec.len();
    if len < pos {
        let mut k: usize = len;
        while k < pos
            invariant
                len <= k <= pos,
                vec@.len() == k,
                forall|i: int| 0 <= i < len ==> #[trigger] vec@[i] == old(vec)@[i],
                forall|i: int| len <= i < k ==> #[trigger] vec@[i] == 0u8,
                len == old(vec)@.len(),
            decreases pos - k,
        {
            vec.push(0u8);
            k = k + 1;
        }
    }
    let ghost base = vec@;
    assert(vec@.len() <= usize::MAX) by {
        assert(vec.len() == vec@.len());
    }
    let space = vec.len() - pos;
    let n = buf.len();
    let split = if space < n { space } else { n };
    let mut i: usize = 0;
    while i < split
        invariant
            split <= n,
            n == buf@.len(),
            split <= vec@.len() - pos,
            pos <= vec@.len(),
            vec@.len() <= usize::MAX,
            vec@.len() == base.len(),
            i <= split,
            forall|j: int| 0 <= j < pos ==> #[trigger] vec@[j] == base[j],
            forall|j: int| 0 <= j < i ==> #[trigger] vec@[pos + j] == buf@[j],
            forall|j: int| pos + i <= j < base.len() ==> #[trigger] vec@[j] == base[j],
        decreases split - i,
    {
        vec.set(pos + i, buf[i]);
        i = i + 1;
    }
    while i < n
        invariant
            split <= i <= n,
            n == buf@.len(),
            split == if space < n { space } else { n },
            space == base.len() - pos,
            pos <= base.len(),
            i > split ==> vec@.len() == pos + i,
            i == split ==> vec@.len() == base.len(),
            vec@.len() >= pos + i,
            forall|j: int| 0 <= j < pos ==> #[trigger] vec@[j] == base[j],
            forall|j: int| 0 <= j < i ==> #[trigger] vec@[pos + j] == buf@[j],
            forall|j: int| pos + i <= j < base.len() ==> #[trigger] vec@[j] == base[j],
        decreases n - i,
    {
        vec.push(buf[i]);
        i = i + 1;
    }
}

} // verus!
