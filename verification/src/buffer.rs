//! Byte buffers.
//!
//! [`Bytes`] and [`BytesMut`] come from the `bytes` crate and are opaque here. What they
//! hold is [`contents`] and [`written`]; the items of this module say what the methods
//! used in this crate do to that.
use bytes::{Buf, BufMut, Bytes, BytesMut};
use vstd::prelude::*;

verus! {

#[verifier::external_type_specification]
#[verifier::external_body]
pub struct ExBytes(Bytes);

#[verifier::external_type_specification]
#[verifier::external_body]
pub struct ExBytesMut(BytesMut);

/// The bytes that are left to read in `b`.
pub uninterp spec fn contents(b: Bytes) -> Seq<u8>;

/// The bytes that were written to `b`.
pub uninterp spec fn written(b: BytesMut) -> Seq<u8>;

/// The two bytes of `n`, most significant first.
pub open spec fn be16(n: u16) -> Seq<u8> {
    seq![(n / 256) as u8, (n % 256) as u8]
}

/// The four bytes of `n`, most significant first.
pub open spec fn be32(n: u32) -> Seq<u8> {
    seq![
        (n / 0x100_0000) as u8,
        (n / 0x1_0000 % 256) as u8,
        (n / 256 % 256) as u8,
        (n % 256) as u8,
    ]
}

/// The number that the first two bytes of `s` spell, most significant first.
pub open spec fn read16(s: Seq<u8>) -> int {
    s[0] * 256 + s[1]
}

/// The number that the first four bytes of `s` spell, most significant first.
pub open spec fn read32(s: Seq<u8>) -> int {
    s[0] * 0x100_0000 + s[1] * 0x1_0000 + s[2] * 256 + s[3]
}

/// The bytes of a text that holds ASCII characters only.
pub open spec fn ascii(s: Seq<char>) -> Seq<u8> {
    s.map_values(|c: char| c as u8)
}

// ---------------------------------------------------------------- Bytes

/// `Bytes::new` makes an empty buffer.
pub assume_specification[ Bytes::new ]() -> (b: Bytes)
    ensures
        contents(b) == Seq::<u8>::empty(),
;

/// `Bytes::len` counts the bytes that are left.
pub assume_specification[ Bytes::len ](b: &Bytes) -> (n: usize)
    ensures
        n == contents(*b).len(),
;

/// `Bytes::copy_from_slice` makes a buffer with the bytes of the slice.
pub assume_specification[ Bytes::copy_from_slice ](data: &[u8]) -> (b: Bytes)
    ensures
        contents(b) == data@,
;

/// `Bytes::split_to` takes the first `at` bytes out of the buffer and returns them. It
/// panics when there are fewer.
pub assume_specification[ Bytes::split_to ](b: &mut Bytes, at: usize) -> (front: Bytes)
    requires
        at <= contents(*old(b)).len(),
    ensures
        contents(front) == contents(*old(b)).take(at as int),
        contents(*final(b)) == contents(*old(b)).skip(at as int),
;

/// `Bytes::clone` makes a second handle to the same bytes.
pub assume_specification[ <Bytes as Clone>::clone ](b: &Bytes) -> (r: Bytes)
    ensures
        contents(r) == contents(*b),
;

/// `Bytes::slice` makes a buffer of the bytes from `begin` up to `end`. It panics when the
/// range is not inside the buffer.
#[verifier::external_body]
pub(crate) fn slice(b: &Bytes, begin: usize, end: usize) -> (r: Bytes)
    requires
        begin <= end <= contents(*b).len(),
    ensures
        contents(r) == contents(*b).subrange(begin as int, end as int),
{
    b.slice(begin..end)
}

/// `Buf::chunk` of `Bytes` is the whole buffer.
#[verifier::external_body]
pub(crate) fn chunk(b: &Bytes) -> (r: &[u8])
    ensures
        r@ == contents(*b),
{
    b.chunk()
}

/// `Buf::advance` of `Bytes` drops the first `cnt` bytes. It panics when there are fewer.
#[verifier::external_body]
pub(crate) fn advance(b: &mut Bytes, cnt: usize)
    requires
        cnt <= contents(*old(b)).len(),
    ensures
        contents(*final(b)) == contents(*old(b)).skip(cnt as int),
{
    b.advance(cnt)
}

/// `Buf::get_u8` of `Bytes` takes one byte. It panics when there is none.
#[verifier::external_body]
pub(crate) fn get_u8(b: &mut Bytes) -> (r: u8)
    requires
        contents(*old(b)).len() >= 1,
    ensures
        r == contents(*old(b))[0],
        contents(*final(b)) == contents(*old(b)).skip(1),
{
    b.get_u8()
}

/// `Buf::get_u16` of `Bytes` takes two bytes, most significant first. It panics when there
/// are fewer.
#[verifier::external_body]
pub(crate) fn get_u16(b: &mut Bytes) -> (r: u16)
    requires
        contents(*old(b)).len() >= 2,
    ensures
        r == read16(contents(*old(b))),
        contents(*final(b)) == contents(*old(b)).skip(2),
{
    b.get_u16()
}

/// `Buf::get_u32` of `Bytes` takes four bytes, most significant first. It panics when there
/// are fewer.
#[verifier::external_body]
pub(crate) fn get_u32(b: &mut Bytes) -> (r: u32)
    requires
        contents(*old(b)).len() >= 4,
    ensures
        r == read32(contents(*old(b))),
        contents(*final(b)) == contents(*old(b)).skip(4),
{
    b.get_u32()
}

// ---------------------------------------------------------------- BytesMut

/// `BytesMut::with_capacity` makes an empty buffer. It panics when the capacity is more
/// than an allocation can have.
pub assume_specification[ BytesMut::with_capacity ](capacity: usize) -> (b: BytesMut)
    requires
        capacity <= isize::MAX,
    ensures
        written(b) == Seq::<u8>::empty(),
;

/// `BytesMut::len` counts the bytes that were written.
pub assume_specification[ BytesMut::len ](b: &BytesMut) -> (n: usize)
    ensures
        n == written(*b).len(),
;

/// `BytesMut::split` takes all bytes that were written out of the buffer and returns them in
/// a buffer of their own.
pub assume_specification[ BytesMut::split ](b: &mut BytesMut) -> (r: BytesMut)
    ensures
        written(r) == written(*old(b)),
        written(*final(b)) == Seq::<u8>::empty(),
;

/// `BytesMut::freeze` turns what was written into a buffer to read.
pub assume_specification[ BytesMut::freeze ](b: BytesMut) -> (r: Bytes)
    ensures
        contents(r) == written(b),
;

/// `BufMut::put_u8` of `BytesMut` appends one byte. It panics when the buffer outgrows an
/// allocation.
#[verifier::external_body]
pub(crate) fn put_u8(b: &mut BytesMut, n: u8)
    requires
        written(*old(b)).len() + 1 <= isize::MAX,
    ensures
        written(*final(b)) == written(*old(b)).push(n),
{
    b.put_u8(n)
}

/// `BufMut::put_u16` of `BytesMut` appends two bytes, most significant first. It panics
/// when the buffer outgrows an allocation.
#[verifier::external_body]
pub(crate) fn put_u16(b: &mut BytesMut, n: u16)
    requires
        written(*old(b)).len() + 2 <= isize::MAX,
    ensures
        written(*final(b)) == written(*old(b)) + be16(n),
{
    b.put_u16(n)
}

/// `BufMut::put_u32` of `BytesMut` appends four bytes, most significant first. It panics
/// when the buffer outgrows an allocation.
#[verifier::external_body]
pub(crate) fn put_u32(b: &mut BytesMut, n: u32)
    requires
        written(*old(b)).len() + 4 <= isize::MAX,
    ensures
        written(*final(b)) == written(*old(b)) + be32(n),
{
    b.put_u32(n)
}

/// `BufMut::put_slice` of `BytesMut` appends the bytes of the slice. It panics when the
/// buffer outgrows an allocation.
#[verifier::external_body]
pub(crate) fn put_slice(b: &mut BytesMut, src: &[u8])
    requires
        written(*old(b)).len() + src@.len() <= isize::MAX,
    ensures
        written(*final(b)) == written(*old(b)) + src@,
{
    b.put_slice(src)
}

// ---------------------------------------------------------------- helpers

/// A buffer that holds the bytes of an ASCII text.
pub fn text(s: &str) -> (b: Bytes)
    requires
        s.is_ascii(),
    ensures
        contents(b) == ascii(s@),
{
    proof {
        vstd::string::is_ascii_spec_bytes(s);
    }
    let b = Bytes::copy_from_slice(s.as_bytes());
    assert(contents(b) =~= ascii(s@));
    b
}

/// Whether `b` holds the bytes of an ASCII text.
pub fn is_text(b: &[u8], s: &str) -> (r: bool)
    requires
        s.is_ascii(),
    ensures
        r == (b@ == ascii(s@)),
{
    proof {
        vstd::string::is_ascii_spec_bytes(s);
    }
    let t = s.as_bytes();
    assert(t@ =~= ascii(s@));
    same_bytes(b, t)
}

/// Whether two runs of bytes are the same.
pub fn same_bytes(a: &[u8], b: &[u8]) -> (r: bool)
    ensures
        r == (a@ == b@),
{
    if a.len() != b.len() {
        return false;
    }
    let mut i: usize = 0;
    while i < a.len()
        invariant
            i <= a@.len(),
            a@.len() == b@.len(),
            a@.take(i as int) == b@.take(i as int),
        decreases a@.len() - i,
    {
        if a[i] != b[i] {
            assert(a@[i as int] != b@[i as int]);
            return false;
        }
        assert(a@.take(i + 1) =~= a@.take(i as int).push(a@[i as int]));
        assert(b@.take(i + 1) =~= b@.take(i as int).push(b@[i as int]));
        i += 1;
    }
    assert(a@.take(i as int) =~= a@);
    assert(b@.take(i as int) =~= b@);
    true
}

/// Runs of bytes can be put together in any grouping.
pub proof fn lemma_assoc(a: Seq<u8>, b: Seq<u8>, c: Seq<u8>)
    ensures
        a + b + c == a + (b + c),
{
    assert(a + b + c =~= a + (b + c));
}

/// Taking the number that a pair of bytes spells gives back the number they were made of.
pub proof fn lemma_read16(n: u16, rest: Seq<u8>)
    ensures
        read16(be16(n) + rest) == n,
{
    assert(n as int == n / 256 * 256 + n % 256);
}

/// Taking the number that four bytes spell gives back the number they were made of.
pub proof fn lemma_read32(n: u32, rest: Seq<u8>)
    ensures
        read32(be32(n) + rest) == n,
{
    let s = be32(n) + rest;
    assert(s[0] as int == n as int / 0x100_0000);
    assert(s[1] as int == n as int / 0x1_0000 % 256);
    assert(s[2] as int == n as int / 256 % 256);
    assert(s[3] as int == n as int % 256);
}

} // verus!
