//! Big-endian reads from table data.
use vstd::prelude::*;

verus! {

/// The big-endian unsigned 16-bit value at `at`.
pub open spec fn be_u16(d: Seq<u8>, at: int) -> int {
    d[at] as int * 256 + d[at + 1] as int
}

/// The big-endian unsigned 32-bit value at `at`.
pub open spec fn be_u32(d: Seq<u8>, at: int) -> int {
    be_u16(d, at) * 65536 + be_u16(d, at + 2)
}

/// Reads the byte at `at`, if it is inside of `d`.
pub fn read_u8(d: &[u8], at: usize) -> (r: Option<u8>)
    ensures
        r == (if at < d@.len() { Some(d@[at as int]) } else { None::<u8> }),
{
    if at < d.len() {
        Some(d[at])
    } else {
        None
    }
}

/// Reads the big-endian 16-bit value at `at`, if it is inside of `d`.
pub fn read_u16(d: &[u8], at: usize) -> (r: Option<u16>)
    ensures
        r == (if at + 2 <= d@.len() { Some(be_u16(d@, at as int) as u16) } else { None::<u16> }),
        r matches Some(v) ==> v as int == be_u16(d@, at as int),
{
    if at < d.len() && d.len() - at >= 2 {
        Some(d[at] as u16 * 256 + d[at + 1] as u16)
    } else {
        None
    }
}

/// Reads the big-endian 32-bit value at `at`, if it is inside of `d`.
pub fn read_u32(d: &[u8], at: usize) -> (r: Option<u32>)
    ensures
        r == (if at + 4 <= d@.len() { Some(be_u32(d@, at as int) as u32) } else { None::<u32> }),
        r matches Some(v) ==> v as int == be_u32(d@, at as int),
{
    if at < d.len() && d.len() - at >= 4 {
        let hi = d[at] as u32 * 256 + d[at + 1] as u32;
        let lo = d[at + 2] as u32 * 256 + d[at + 3] as u32;
        Some(hi * 65536 + lo)
    } else {
        None
    }
}

} // verus!
