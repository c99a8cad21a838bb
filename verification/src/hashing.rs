//! Handing bytes to a hasher.
use vstd::prelude::*;
use core::hash::Hasher;

verus! {

/// The bytes of each write in a list of buffers.
pub open spec fn writes_view(w: Seq<Vec<u8>>) -> Seq<Seq<u8>> {
    w.map_values(|v: Vec<u8>| v@)
}

/// The bytes that a hasher that only looks at the byte stream (as `DefaultHasher` does)
/// receives for one value: its writes, then the terminator `0xff`.
pub open spec fn hash_stream(writes: Seq<Seq<u8>>) -> Seq<u8> {
    (writes + seq![seq![0xffu8]]).flatten()
}

/// Calls `Hasher::write` on any hasher. Nothing is stated of the hasher's state
/// afterwards: what it does with the bytes is up to the hasher.
#[verifier::external_body]
pub(crate) fn hasher_write<H: Hasher>(state: &mut H, bytes: &[u8]) {
    state.write(bytes)
}

/// Calls `Hasher::write_u8` on any hasher. Nothing is stated of the hasher's state
/// afterwards.
#[verifier::external_body]
pub(crate) fn hasher_write_u8<H: Hasher>(state: &mut H, byte: u8) {
    state.write_u8(byte)
}

/// Hands each buffer to `state`, in order, then the terminator byte `0xff`.
pub(crate) fn write_all<H: Hasher>(state: &mut H, writes: &Vec<Vec<u8>>) {
    for i in 0..writes.len() {
        hasher_write(state, writes[i].as_slice());
    }
    hasher_write_u8(state, 0xff);
}

} // verus!
