//! The binary layout of a package directory: the header, the packed
//! directory tree of NUL-terminated strings, and the per-file entry record.
//! All integers are little-endian; records are tightly packed.

use vstd::bytes::{spec_u16_from_le_bytes, spec_u32_from_le_bytes, u16_from_le_bytes, u32_from_le_bytes};
use vstd::prelude::*;

verus! {

/// The magic number every package file starts with.
pub open spec fn spec_signature() -> u32 {
    0x55aa1234
}

/// The archive index value that means the payload lies in the directory file
/// itself rather than in a numbered sidecar archive.
pub open spec fn spec_directory_index() -> u16 {
    0x7fff
}

pub fn directory_index() -> (r: u16)
    ensures
        r == spec_directory_index(),
{
    0x7fff
}

/// The size in bytes of the version 1 header: signature, version, tree size.
pub open spec fn spec_header_v1_size() -> int {
    12
}

/// The size in bytes of the version 2 header: the version 1 fields and four
/// further section sizes.
pub open spec fn spec_header_v2_size() -> int {
    28
}

/// The size in bytes of one packed directory entry record.
pub open spec fn spec_entry_size() -> int {
    18
}

/// A 32-bit little-endian integer read at `off`.
pub open spec fn le32(data: Seq<u8>, off: int) -> u32 {
    spec_u32_from_le_bytes(data.subrange(off, off + 4))
}

/// A 16-bit little-endian integer read at `off`.
pub open spec fn le16(data: Seq<u8>, off: int) -> u16 {
    spec_u16_from_le_bytes(data.subrange(off, off + 2))
}

pub fn read_le32(data: &Vec<u8>, off: usize) -> (r: u32)
    requires
        off + 4 <= data@.len(),
    ensures
        r == le32(data@, off as int),
{
    let n = data.len();
    assert(off + 4 <= n);
    let s = vstd::slice::slice_subrange(data.as_slice(), off, off + 4);
    u32_from_le_bytes(s)
}

pub fn read_le16(data: &Vec<u8>, off: usize) -> (r: u16)
    requires
        off + 2 <= data@.len(),
    ensures
        r == le16(data@, off as int),
{
    let n = data.len();
    assert(off + 2 <= n);
    let s = vstd::slice::slice_subrange(data.as_slice(), off, off + 2);
    u16_from_le_bytes(s)
}

} // verus!
