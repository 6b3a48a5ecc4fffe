//! The buffers that bytes wait in before they are sent or after they were received.

use bytes::{Buf, BytesMut};
use grammers_crypto::DequeBuffer;
use vstd::prelude::*;

verus! {

/// `bytes::BytesMut`: bytes that were received.
#[verifier::external_type_specification]
#[verifier::external_body]
pub struct ExBytesMut(bytes::BytesMut);

/// `grammers_crypto::DequeBuffer`: bytes that are about to be sent.
#[verifier::external_type_specification]
#[verifier::external_body]
#[verifier::reject_recursive_types(T)]
pub struct ExDequeBuffer<T: Copy + Default>(grammers_crypto::DequeBuffer<T>);

/// The bytes that `buffer` holds.
pub uninterp spec fn received(buffer: BytesMut) -> Seq<u8>;

/// The bytes that `buffer` holds, from front to back.
pub uninterp spec fn queued(buffer: DequeBuffer<u8>) -> Seq<u8>;

/// The room at the back and at the front that `buffer` was asked to be made with.
pub uninterp spec fn asked_room(buffer: DequeBuffer<u8>) -> (usize, usize);

/// `BytesMut::with_capacity`: the buffer is empty.
#[verifier::external_body]
pub(crate) fn new_received(capacity: usize) -> (buffer: BytesMut)
    requires
        capacity <= isize::MAX,
    ensures
        received(buffer).len() == 0,
{
    BytesMut::with_capacity(capacity)
}

/// `BytesMut::as_ref`: all the bytes that the buffer holds, in order.
#[verifier::external_body]
pub(crate) fn received_bytes(buffer: &BytesMut) -> (bytes: &[u8])
    ensures
        bytes@ == received(*buffer),
{
    buffer.as_ref()
}

/// `BytesMut::len`: how many bytes the buffer holds.
#[verifier::external_body]
pub(crate) fn received_len(buffer: &BytesMut) -> (len: usize)
    ensures
        len == received(*buffer).len(),
{
    buffer.len()
}

/// `BytesMut::capacity`: how many bytes the buffer could hold, which is up to the allocator.
#[verifier::external_body]
pub(crate) fn received_capacity(buffer: &BytesMut) -> (capacity: usize)
{
    buffer.capacity()
}

/// `Buf::advance` on `BytesMut`: takes the first `count` bytes away. Panics where there are not
/// as many.
#[verifier::external_body]
pub(crate) fn take_received(buffer: &mut BytesMut, count: usize)
    requires
        count <= received(*old(buffer)).len(),
    ensures
        received(*final(buffer)) == received(*old(buffer)).skip(count as int),
{
    buffer.advance(count)
}

/// `BytesMut::extend_from_slice`: the bytes go to the end. Panics where there would be more than
/// memory can hold.
#[verifier::external_body]
pub(crate) fn extend_received(buffer: &mut BytesMut, bytes: &[u8])
    requires
        received(*old(buffer)).len() + bytes@.len() <= isize::MAX,
    ensures
        received(*final(buffer)) == received(*old(buffer)) + bytes@,
{
    buffer.extend_from_slice(bytes)
}

/// `BytesMut::clear`: takes all bytes away.
#[verifier::external_body]
pub(crate) fn clear_received(buffer: &mut BytesMut)
    ensures
        received(*final(buffer)).len() == 0,
{
    buffer.clear()
}

/// `DequeBuffer::with_capacity`: the buffer is empty, and has the room that was asked for.
#[verifier::external_body]
pub(crate) fn new_queued(back_capacity: usize, front_capacity: usize) -> (buffer: DequeBuffer<u8>)
    requires
        back_capacity + front_capacity <= isize::MAX,
    ensures
        queued(buffer).len() == 0,
        asked_room(buffer) == (back_capacity, front_capacity),
{
    DequeBuffer::with_capacity(back_capacity, front_capacity)
}

/// `DequeBuffer::len`: how many bytes the buffer holds.
#[verifier::external_body]
pub(crate) fn queued_len(buffer: &DequeBuffer<u8>) -> (len: usize)
    ensures
        len == queued(*buffer).len(),
{
    buffer.len()
}

/// `DequeBuffer::as_ref`: all the bytes that the buffer holds, from front to back.
#[verifier::external_body]
pub(crate) fn queued_bytes(buffer: &DequeBuffer<u8>) -> (bytes: &[u8])
    ensures
        bytes@ == queued(*buffer),
{
    buffer.as_ref()
}

/// `DequeBuffer::clear`: takes all bytes away.
#[verifier::external_body]
pub(crate) fn clear_queued(buffer: &mut DequeBuffer<u8>)
    ensures
        queued(*final(buffer)).len() == 0,
{
    buffer.clear()
}

} // verus!
