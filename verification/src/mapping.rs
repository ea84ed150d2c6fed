//! Memory maps as byte buffers.
//!
//! A map of the `memmap2` crate is a fixed run of bytes. The functions of
//! this file are the only ones that touch one; what they promise is taken
//! from that crate and is not proved here. A map of a file holds what is
//! said of it here as long as nothing else writes to its part of the file.

use vstd::prelude::*;
use memmap2::{Mmap, MmapMut};
use std::io;
use std::sync::Arc;

verus! {

/// `memmap2::MmapMut`, a map that can be written to. Nothing of its inside
/// is known here.
#[verifier::external_type_specification]
#[verifier::external_body]
pub struct ExMmapMut(memmap2::MmapMut);

/// `memmap2::Mmap`, a read-only map. Nothing of its inside is known here.
#[verifier::external_type_specification]
#[verifier::external_body]
pub struct ExMmap(memmap2::Mmap);

/// The bytes of a writable map: the slice that `Deref for MmapMut` gives.
pub uninterp spec fn writable_bytes(map: MmapMut) -> Seq<u8>;

/// The bytes of a read-only map: the slice that `Deref for Mmap` gives.
pub uninterp spec fn frozen_bytes(map: Mmap) -> Seq<u8>;

/// `MmapMut::map_anon`: a fresh anonymous map. When the call succeeds the
/// map has exactly the length that was asked for.
#[verifier::external_body]
pub(crate) fn map_anonymous(len: usize) -> (r: Result<MmapMut, io::Error>)
    ensures
        r matches Ok(map) ==> writable_bytes(map).len() == len,
{
    MmapMut::map_anon(len)
}

/// `Deref for MmapMut` and the length of the slice: the number of bytes of
/// the map.
#[verifier::external_body]
pub(crate) fn writable_len(map: &MmapMut) -> (r: usize)
    ensures
        r == writable_bytes(*map).len(),
{
    map.len()
}

/// `DerefMut for MmapMut` and `copy_from_slice`: copies `data` over the
/// bytes of the map from `from` up to `to`. The other bytes stay.
#[verifier::external_body]
pub(crate) fn write_at(map: &mut MmapMut, from: usize, to: usize, data: &[u8])
    requires
        from <= to <= writable_bytes(*old(map)).len(),
        to - from == data@.len(),
    ensures
        writable_bytes(*final(map)) == writable_bytes(*old(map)).subrange(0, from as int) + data@
            + writable_bytes(*old(map)).subrange(
            to as int,
            writable_bytes(*old(map)).len() as int,
        ),
{
    map[from..to].copy_from_slice(data);
}

/// `Deref for MmapMut` and `to_vec`: a copy of the bytes of the map from
/// `from` up to `to`.
#[verifier::external_body]
pub(crate) fn read_writable(map: &MmapMut, from: usize, to: usize) -> (r: Vec<u8>)
    requires
        from <= to <= writable_bytes(*map).len(),
    ensures
        r@ == writable_bytes(*map).subrange(from as int, to as int),
{
    map[from..to].to_vec()
}

/// `MmapMut::flush`: asks the system to store the map's changes durably.
/// Nothing is promised of the outcome, and the bytes of the map are the same
/// either way.
#[verifier::external_body]
pub(crate) fn flush_map(map: &MmapMut) -> (r: Result<(), io::Error>) {
    map.flush()
}

/// `MmapMut::make_read_only`: takes the right to write from the map. When the
/// call succeeds the read-only map holds the bytes that the writable one
/// held; when it fails the map is gone.
#[verifier::external_body]
pub(crate) fn freeze(map: MmapMut) -> (r: Result<Mmap, io::Error>)
    ensures
        r matches Ok(frozen) ==> frozen_bytes(frozen) == writable_bytes(map),
{
    map.make_read_only()
}

/// `Deref for Mmap` and the length of the slice: the number of bytes of the
/// map.
#[verifier::external_body]
pub(crate) fn frozen_len(map: &Mmap) -> (r: usize)
    ensures
        r == frozen_bytes(*map).len(),
{
    map.len()
}

/// `Deref for Mmap` and `to_vec`: a copy of the bytes of the map from `from`
/// up to `to`.
#[verifier::external_body]
pub(crate) fn read_frozen(map: &Mmap, from: usize, to: usize) -> (r: Vec<u8>)
    requires
        from <= to <= frozen_bytes(*map).len(),
    ensures
        r@ == frozen_bytes(*map).subrange(from as int, to as int),
{
    map[from..to].to_vec()
}

/// `io::Error::from` an `ErrorKind`: the cause that is given when the store
/// refuses what it was handed, a map that was not asked for or a record
/// without bytes.
#[verifier::external_body]
pub(crate) fn unsuitable() -> (r: io::Error) {
    io::Error::from(io::ErrorKind::InvalidInput)
}

/// `Arc::clone`: one more owner of the same read-only map. The clone points
/// to the map that `map` points to.
#[verifier::external_body]
pub(crate) fn share(map: &Arc<Mmap>) -> (r: Arc<Mmap>)
    ensures
        *r == **map,
{
    Arc::clone(map)
}

} // verus!
