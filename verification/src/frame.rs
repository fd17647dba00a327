//! Frames: opaque chunks of bytes, held in a `bytes::Bytes` buffer.

use bytes::Bytes;
use vstd::prelude::*;
use vstd::slice::slice_subrange;
use vstd::slice::slice_to_vec;

verus! {

/// Size of the buffer that every read of a connection fills, and so the
/// size of the largest frame that a reader emits.
pub const READ_BUFFER_SIZE: usize = 1024;

/// `bytes::Bytes`, a cheaply cloneable buffer of bytes. The verifier sees
/// nothing inside it; what it holds goes by the name `frame_bytes`.
#[verifier::external_type_specification]
#[verifier::external_body]
pub struct ExBytes(Bytes);

/// The bytes that a frame holds, in order: the slice that `Bytes`
/// dereferences to.
pub uninterp spec fn frame_bytes(frame: Bytes) -> Seq<u8>;

/// `Bytes::from(Vec<u8>)`: the buffer takes over the vector's storage, so it
/// holds the vector's bytes, all of them and in the same order.
#[verifier::external_body]
fn frame_from_vec(bytes: Vec<u8>) -> (frame: Bytes)
    ensures
        frame_bytes(frame) == bytes@,
{
    Bytes::from(bytes)
}

/// Copies the first `n` bytes of `buf` into a frame of their own, so that the
/// frame stays valid when `buf` is filled again.
pub fn copy_frame(buf: &[u8], n: usize) -> (frame: Bytes)
    requires
        n <= buf@.len(),
    ensures
        frame_bytes(frame) == buf@.subrange(0, n as int),
{
    let filled = slice_subrange(buf, 0, n);
    frame_from_vec(slice_to_vec(filled))
}

} // verus!
