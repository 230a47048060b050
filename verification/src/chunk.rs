//! The byte buffers of the `bytes` crate, and what the library relies on of them.
use bytes::{Buf, BufMut, Bytes, BytesMut};
use vstd::prelude::*;

verus! {

/// `bytes::Bytes`, a cheaply cloned view of immutable bytes.
#[verifier::external_type_specification]
#[verifier::external_body]
pub struct ExBytes(bytes::Bytes);

/// `bytes::BytesMut`, a growable buffer of bytes.
#[verifier::external_type_specification]
#[verifier::external_body]
pub struct ExBytesMut(bytes::BytesMut);

/// The bytes that a `Bytes` shows.
pub uninterp spec fn chunk(bytes: Bytes) -> Seq<u8>;

/// The bytes that a `BytesMut` holds.
pub uninterp spec fn buffered(buffer: BytesMut) -> Seq<u8>;

/// The bytes that each of several `Bytes` shows.
pub open spec fn chunks(bytes: Seq<Bytes>) -> Seq<Seq<u8>> {
    bytes.map_values(|bytes: Bytes| chunk(bytes))
}

/// Several pieces one after the other.
pub open spec fn joined(pieces: Seq<Seq<u8>>) -> Seq<u8>
    decreases pieces.len(),
{
    if pieces.len() == 0 {
        Seq::empty()
    } else {
        joined(pieces.drop_last()) + pieces.last()
    }
}

/// Joining pieces and then more pieces is joining all of them.
pub proof fn lemma_joined_concat(first: Seq<Seq<u8>>, second: Seq<Seq<u8>>)
    ensures
        joined(first + second) == joined(first) + joined(second),
    decreases second.len(),
{
    if second.len() == 0 {
        assert(first + second =~= first);
        assert(joined(first) + joined(second) =~= joined(first));
    } else {
        assert((first + second).drop_last() =~= first + second.drop_last());
        lemma_joined_concat(first, second.drop_last());
        assert(joined(first + second) =~= joined(first) + joined(second));
    }
}

/// The first piece comes first.
pub proof fn lemma_joined_first(pieces: Seq<Seq<u8>>)
    requires
        pieces.len() > 0,
    ensures
        joined(pieces) == pieces[0] + joined(pieces.skip(1)),
        pieces[0].is_prefix_of(joined(pieces)),
        joined(pieces).skip(pieces[0].len() as int) == joined(pieces.skip(1)),
{
    let first = seq![pieces[0]];
    assert(pieces =~= first + pieces.skip(1));
    lemma_joined_concat(first, pieces.skip(1));
    assert(first.drop_last() =~= Seq::empty());
    reveal_with_fuel(joined, 2);
    assert(joined(first) =~= pieces[0]);
    assert(joined(pieces).skip(pieces[0].len() as int) =~= joined(pieces.skip(1)));
}

/// `Bytes::len`: the number of bytes shown.
pub assume_specification[ bytes::Bytes::len ](bytes: &Bytes) -> (len: usize)
    ensures
        len == chunk(*bytes).len(),
;

/// `Bytes::is_empty`: whether no byte is shown.
pub assume_specification[ bytes::Bytes::is_empty ](bytes: &Bytes) -> (empty: bool)
    ensures
        empty == (chunk(*bytes).len() == 0),
;

/// `Bytes::split_to`: the first `at` bytes leave `bytes` and are returned. It panics when there are
/// fewer.
pub assume_specification[ bytes::Bytes::split_to ](bytes: &mut Bytes, at: usize) -> (front: Bytes)
    requires
        at <= chunk(*old(bytes)).len(),
    ensures
        chunk(front) == chunk(*old(bytes)).take(at as int),
        chunk(*final(bytes)) == chunk(*old(bytes)).skip(at as int),
;

/// `Bytes::clone`: the clone shows the same bytes.
pub assume_specification[ <bytes::Bytes as Clone>::clone ](bytes: &Bytes) -> (copy: Bytes)
    ensures
        chunk(copy) == chunk(*bytes),
;

/// `Bytes::deref`: the bytes shown, as a slice.
#[verifier::external_body]
pub(crate) fn as_slice(bytes: &Bytes) -> (slice: &[u8])
    ensures
        slice@ == chunk(*bytes),
{
    bytes.as_ref()
}

/// `Bytes::from(Vec<u8>)`: shows what the vector holds.
#[verifier::external_body]
pub(crate) fn from_vec(data: Vec<u8>) -> (bytes: Bytes)
    ensures
        chunk(bytes) == data@,
{
    Bytes::from(data)
}

/// `Bytes::advance`, of the trait `Buf`: the first `count` bytes are no longer shown. It panics
/// when there are fewer.
#[verifier::external_body]
pub(crate) fn advance(bytes: &mut Bytes, count: usize)
    requires
        count <= chunk(*old(bytes)).len(),
    ensures
        chunk(*final(bytes)) == chunk(*old(bytes)).skip(count as int),
{
    bytes.advance(count)
}

/// `BytesMut::new`: holds nothing.
pub assume_specification[ bytes::BytesMut::new ]() -> (buffer: BytesMut)
    ensures
        buffered(buffer) == Seq::<u8>::empty(),
;

/// `BytesMut::len`: the number of bytes held.
pub assume_specification[ bytes::BytesMut::len ](buffer: &BytesMut) -> (len: usize)
    ensures
        len == buffered(*buffer).len(),
;

/// `BytesMut::extend_from_slice`: the slice is appended.
pub assume_specification[ bytes::BytesMut::extend_from_slice ](buffer: &mut BytesMut, extend: &[u8])
    ensures
        buffered(*final(buffer)) == buffered(*old(buffer)) + extend@,
;

/// `BytesMut::freeze`: shows what the buffer held.
pub assume_specification[ bytes::BytesMut::freeze ](buffer: BytesMut) -> (bytes: Bytes)
    ensures
        chunk(bytes) == buffered(buffer),
;

/// `BytesMut::put_u8`, of the trait `BufMut`: the byte is appended.
#[verifier::external_body]
pub(crate) fn put_u8(buffer: &mut BytesMut, byte: u8)
    ensures
        buffered(*final(buffer)) == buffered(*old(buffer)).push(byte),
{
    buffer.put_u8(byte)
}

/// `BytesMut::advance`, of the trait `Buf`: the first `count` bytes leave the buffer. It panics
/// when there are fewer.
#[verifier::external_body]
pub(crate) fn consume(buffer: &mut BytesMut, count: usize)
    requires
        count <= buffered(*old(buffer)).len(),
    ensures
        buffered(*final(buffer)) == buffered(*old(buffer)).skip(count as int),
{
    buffer.advance(count)
}

/// `BytesMut::deref`: the bytes held, as a slice.
#[verifier::external_body]
pub(crate) fn held(buffer: &BytesMut) -> (slice: &[u8])
    ensures
        slice@ == buffered(*buffer),
{
    buffer.as_ref()
}

/// Joining chunks puts them one behind the other.
pub proof fn joined_is_flattened(chunks: Seq<Seq<u8>>)
    ensures
        joined(chunks) == chunks.flatten(),
    decreases chunks.len(),
{
    if chunks.len() > 0 {
        joined_is_flattened(chunks.drop_last());
        chunks.lemma_flatten_and_flatten_alt_are_equivalent();
        chunks.drop_last().lemma_flatten_and_flatten_alt_are_equivalent();
    }
}

} // verus!
