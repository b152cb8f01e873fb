//! A cursor over a byte buffer, and the fixed-width reads built on it.

use vstd::prelude::*;
use vstd::slice::slice_subrange;
use vstd::slice::slice_to_vec;
use vstd::utf8::decode_utf8;
use vstd::utf8::valid_utf8;
use byteorder::BigEndian;
use byteorder::ByteOrder;
use crate::error::CborError;

verus! {

/// The number that `s` spells in base 256, most significant byte first.
pub open spec fn be_value(s: Seq<u8>) -> nat
    decreases s.len(),
{
    if s.len() == 0 {
        0
    } else {
        be_value(s.drop_last()) * 256 + s.last() as nat
    }
}

/// A sequence of `n` bytes spells a number below `256^n`; stated here for the
/// widths that the format uses.
pub proof fn lemma_be_value_bound(s: Seq<u8>)
    ensures
        s.len() == 1 ==> be_value(s) == s[0],
        s.len() == 2 ==> be_value(s) == s[0] * 0x100 + s[1],
        s.len() == 4 ==> be_value(s) == s[0] * 0x100_0000 + s[1] * 0x1_0000 + s[2] * 0x100 + s[3],
        s.len() == 1 ==> be_value(s) <= u8::MAX,
        s.len() == 2 ==> be_value(s) <= u16::MAX,
        s.len() == 4 ==> be_value(s) <= u32::MAX,
        s.len() == 8 ==> be_value(s) <= u64::MAX,
{
    reveal_with_fuel(be_value, 9);
    if s.len() == 2 {
        assert(s.drop_last().drop_last().len() == 0);
    }
    if s.len() == 4 {
        let a = s.drop_last();
        let b = a.drop_last();
        let c = b.drop_last();
        assert(c.drop_last().len() == 0);
    }
    if s.len() == 8 {
        let s7 = s.drop_last();
        let s6 = s7.drop_last();
        let s5 = s6.drop_last();
        let s4 = s5.drop_last();
        let s3 = s4.drop_last();
        let s2 = s3.drop_last();
        let s1 = s2.drop_last();
        assert(s1.drop_last().len() == 0);
        assert(be_value(s1) <= 0xff);
        assert(be_value(s2) <= 0xffff);
        assert(be_value(s3) <= 0xff_ffff);
        assert(be_value(s4) <= 0xffff_ffff);
        assert(be_value(s5) <= 0xff_ffff_ffff);
        assert(be_value(s6) <= 0xffff_ffff_ffff);
        assert(be_value(s7) <= 0xff_ffff_ffff_ffff);
    }
}

/// `byteorder::BigEndian::read_u16`: the first two bytes of `buf` as a
/// big-endian number. The outside function panics on a shorter slice.
#[verifier::external_body]
fn be_u16(buf: &[u8]) -> (v: u16)
    requires
        buf@.len() >= 2,
    ensures
        v == be_value(buf@.take(2)),
{
    BigEndian::read_u16(buf)
}

/// `byteorder::BigEndian::read_u32`: the first four bytes of `buf` as a
/// big-endian number. The outside function panics on a shorter slice.
#[verifier::external_body]
fn be_u32(buf: &[u8]) -> (v: u32)
    requires
        buf@.len() >= 4,
    ensures
        v == be_value(buf@.take(4)),
{
    BigEndian::read_u32(buf)
}

/// `byteorder::BigEndian::read_u64`: the first eight bytes of `buf` as a
/// big-endian number. The outside function panics on a shorter slice.
#[verifier::external_body]
fn be_u64(buf: &[u8]) -> (v: u64)
    requires
        buf@.len() >= 8,
    ensures
        v == be_value(buf@.take(8)),
{
    BigEndian::read_u64(buf)
}

/// `core::str::Utf8Error`, the error of [`str_from_utf8`]; nothing is read
/// of it.
#[verifier::external_type_specification]
#[verifier::external_body]
pub struct ExUtf8Error(core::str::Utf8Error);

/// `core::str::from_utf8`: succeeds exactly on well-formed UTF-8, and the
/// string it gives is the decoding of the bytes.
#[verifier::external_body]
fn str_from_utf8(bytes: &[u8]) -> (res: Result<&str, core::str::Utf8Error>)
    ensures
        res is Ok <==> valid_utf8(bytes@),
        res matches Ok(s) ==> s@ == decode_utf8(bytes@),
{
    core::str::from_utf8(bytes)
}

/// A read position in a borrowed byte buffer.
pub struct ByteReader<'a> {
    data: &'a [u8],
    pos: usize,
}

impl<'a> View for ByteReader<'a> {
    type V = Seq<u8>;

    /// The bytes that have not been read yet.
    open spec fn view(&self) -> Seq<u8> {
        self.buffer().skip(self.consumed() as int)
    }
}

/// A source of bytes that hands out a requested number of them at a time.
pub trait ReadExt {
    /// The bytes that are still to come.
    spec fn upcoming(&self) -> Seq<u8>;

    /// Takes the next `len` bytes; fails, on a source that holds fewer, with
    /// `UnexpectedEof`.
    fn read_n(&mut self, len: usize) -> (res: Result<Vec<u8>, CborError>)
        ensures
            match res {
                Ok(bytes) => {
                    &&& len <= old(self).upcoming().len()
                    &&& bytes@ == old(self).upcoming().take(len as int)
                    &&& final(self).upcoming() == old(self).upcoming().skip(len as int)
                },
                Err(e) => len > old(self).upcoming().len() && e == CborError::UnexpectedEof,
            },
    ;
}

impl<'a> ByteReader<'a> {
    /// The read position lies within the buffer.
    #[verifier::type_invariant]
    pub open spec fn in_bounds(self) -> bool {
        self.consumed() <= self.buffer().len()
    }

    /// The whole buffer, read or not.
    pub closed spec fn buffer(&self) -> Seq<u8> {
        self.data@
    }

    /// How many bytes of the buffer have been read.
    pub closed spec fn consumed(&self) -> nat {
        self.pos as nat
    }

    /// `self` reads the same buffer as `before`, at the same place or further on.
    pub open spec fn follows(&self, before: &Self) -> bool {
        &&& self.buffer() == before.buffer()
        &&& before.consumed() <= self.consumed() <= self.buffer().len()
    }

    /// A reader at the start of `data`.
    pub fn new(data: &'a [u8]) -> (r: Self)
        ensures
            r@ == data@,
            r.buffer() == data@,
            r.consumed() == 0,
    {
        let r = ByteReader { data, pos: 0 };
        assert(data@.skip(0) =~= data@);
        r
    }

    /// The number of unread bytes.
    pub fn remaining(&self) -> (n: usize)
        ensures
            n == self@.len(),
            self.consumed() + n == self.buffer().len(),
    {
        proof {
            use_type_invariant(self);
        }
        self.data.len() - self.pos
    }

    /// The number of bytes read so far.
    pub fn position(&self) -> (n: usize)
        ensures
            n == self.consumed(),
            n <= self.buffer().len(),
    {
        proof {
            use_type_invariant(self);
        }
        self.pos
    }

    /// Hands out the next `len` bytes and moves past them, or leaves the
    /// reader where it is when fewer are left.
    fn take_exact(&mut self, len: usize) -> (res: Option<&'a [u8]>)
        ensures
            final(self).follows(old(self)),
            match res {
                Some(bytes) => {
                    &&& len <= old(self)@.len()
                    &&& bytes@ == old(self)@.take(len as int)
                    &&& final(self)@ == old(self)@.skip(len as int)
                },
                None => len > old(self)@.len() && *final(self) == *old(self),
            },
    {
        proof {
            use_type_invariant(&*self);
        }
        if len <= self.data.len() - self.pos {
            let start = self.pos;
            let bytes = slice_subrange(self.data, start, start + len);
            self.pos = start + len;
            assert(bytes@ =~= old(self)@.take(len as int));
            assert(self@ =~= old(self)@.skip(len as int));
            Some(bytes)
        } else {
            None
        }
    }
}

impl<'a> ReadExt for ByteReader<'a> {
    open spec fn upcoming(&self) -> Seq<u8> {
        self@
    }

    fn read_n(&mut self, len: usize) -> (res: Result<Vec<u8>, CborError>)
        ensures
            final(self).follows(old(self)),
            res is Err ==> *final(self) == *old(self),
    {
        match self.take_exact(len) {
            Some(bytes) => Ok(slice_to_vec(bytes)),
            None => Err(CborError::UnexpectedEof),
        }
    }
}

/// Reads one byte.
pub fn read_u8(r: &mut ByteReader) -> (res: Result<u8, CborError>)
    ensures
        final(r).follows(old(r)),
        match res {
            Ok(b) => old(r)@.len() >= 1 && b == old(r)@[0] && final(r)@ == old(r)@.skip(1),
            Err(e) => old(r)@.len() < 1 && e == CborError::UnexpectedEof && *final(r) == *old(r),
        },
{
    match r.take_exact(1) {
        Some(bytes) => Ok(bytes[0]),
        None => Err(CborError::UnexpectedEof),
    }
}

/// Reads a big-endian number of two bytes.
pub fn read_u16(r: &mut ByteReader) -> (res: Result<u16, CborError>)
    ensures
        final(r).follows(old(r)),
        match res {
            Ok(v) => {
                &&& old(r)@.len() >= 2
                &&& v == be_value(old(r)@.take(2))
                &&& final(r)@ == old(r)@.skip(2)
            },
            Err(e) => old(r)@.len() < 2 && e == CborError::UnexpectedEof && *final(r) == *old(r),
        },
{
    match r.take_exact(2) {
        Some(bytes) => {
            assert(bytes@.take(2) =~= bytes@);
            Ok(be_u16(bytes))
        },
        None => Err(CborError::UnexpectedEof),
    }
}

/// Reads a big-endian number of four bytes.
pub fn read_u32(r: &mut ByteReader) -> (res: Result<u32, CborError>)
    ensures
        final(r).follows(old(r)),
        match res {
            Ok(v) => {
                &&& old(r)@.len() >= 4
                &&& v == be_value(old(r)@.take(4))
                &&& final(r)@ == old(r)@.skip(4)
            },
            Err(e) => old(r)@.len() < 4 && e == CborError::UnexpectedEof && *final(r) == *old(r),
        },
{
    match r.take_exact(4) {
        Some(bytes) => {
            assert(bytes@.take(4) =~= bytes@);
            Ok(be_u32(bytes))
        },
        None => Err(CborError::UnexpectedEof),
    }
}

/// Reads a big-endian number of eight bytes.
pub fn read_u64(r: &mut ByteReader) -> (res: Result<u64, CborError>)
    ensures
        final(r).follows(old(r)),
        match res {
            Ok(v) => {
                &&& old(r)@.len() >= 8
                &&& v == be_value(old(r)@.take(8))
                &&& final(r)@ == old(r)@.skip(8)
            },
            Err(e) => old(r)@.len() < 8 && e == CborError::UnexpectedEof && *final(r) == *old(r),
        },
{
    match r.take_exact(8) {
        Some(bytes) => {
            assert(bytes@.take(8) =~= bytes@);
            Ok(be_u64(bytes))
        },
        None => Err(CborError::UnexpectedEof),
    }
}

/// Reads `len` bytes.
pub fn read_bytes(r: &mut ByteReader, len: usize) -> (res: Result<Vec<u8>, CborError>)
    ensures
        final(r).follows(old(r)),
        match res {
            Ok(bytes) => {
                &&& len <= old(r)@.len()
                &&& bytes@ == old(r)@.take(len as int)
                &&& final(r)@ == old(r)@.skip(len as int)
            },
            Err(e) => len > old(r)@.len() && e == CborError::UnexpectedEof && *final(r) == *old(r),
        },
{
    r.read_n(len)
}

/// What reading a text of `len` bytes from the front of `s` gives: the
/// decoded text and the bytes after it.
#[verifier::opaque]
pub open spec fn spec_read_str(s: Seq<u8>, len: nat) -> Result<(Seq<char>, Seq<u8>), CborError> {
    if len > s.len() {
        Err(CborError::UnexpectedEof)
    } else if !valid_utf8(s.take(len as int)) {
        Err(CborError::InvalidUtf8)
    } else {
        Ok((decode_utf8(s.take(len as int)), s.skip(len as int)))
    }
}

/// Reads `len` bytes and decodes them as UTF-8. Bytes that are no UTF-8 have
/// been read when the call fails.
pub fn read_str(r: &mut ByteReader, len: usize) -> (res: Result<String, CborError>)
    ensures
        final(r).follows(old(r)),
        match res {
            Ok(text) => spec_read_str(old(r)@, len as nat) == Ok::<_, CborError>(
                (text@, final(r)@),
            ),
            Err(e) => spec_read_str(old(r)@, len as nat) == Err::<(Seq<char>, Seq<u8>), _>(e),
        },
        res == Err::<String, _>(CborError::UnexpectedEof) ==> *final(r) == *old(r),
        res == Err::<String, _>(CborError::InvalidUtf8) ==> final(r)@ == old(r)@.skip(len as int),
{
    proof {
        reveal(spec_read_str);
    }
    match r.take_exact(len) {
        Some(bytes) => match str_from_utf8(bytes) {
            Ok(text) => Ok(text.to_owned()),
            Err(_) => Err(CborError::InvalidUtf8),
        },
        None => Err(CborError::UnexpectedEof),
    }
}

} // verus!
