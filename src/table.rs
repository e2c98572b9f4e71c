//! Layout of a format 1 patch map table ("IFT " or "IFTX"), all values
//! big-endian:
//!
//! | offset | field                                                      |
//! |--------|------------------------------------------------------------|
//! | 0      | `u8` format, 1                                             |
//! | 1      | `u32[4]` compatibility id                                  |
//! | 17     | `u16` max entry index                                      |
//! | 19     | `u16` max glyph map entry index                            |
//! | 21     | `u32` glyph count                                          |
//! | 25     | `u32` offset of the glyph map                              |
//! | 29     | `u32` offset of the feature map, 0 when there is none      |
//! | 33     | applied entries bitmap, `max entry index / 8 + 1` bytes; bit `e % 8` (least significant first) of byte `e / 8` is entry `e` |
//! | t      | `u16` URI template length `n`, then `n` bytes of UTF-8 text |
//! | t+2+n  | `u8` patch encoding format number                          |
//!
//! The fixed-size fields (the compatibility id and the entry index limits
//! among them) come first, so that each has a constant offset; the applied
//! entries bitmap, whose size depends on the max entry index, follows them,
//! and the variable-length URI template comes last, followed by the encoding
//! number. The glyph count therefore precedes the template, and the encoding
//! number follows it.
//!
//! Glyph map: `u16` first mapped glyph, then one entry index for each glyph
//! from the first mapped glyph up to the glyph count.
//!
//! Feature map: `u16` record count, then records of a `u32` feature tag and
//! a `u16` count of entry mappings, then the entry mappings of all records
//! in record order, each a pair of a first and a last entry index.
//!
//! Entry indices in the glyph map and in entry mappings take one byte when
//! the max entry index is below 256, else two.
use vstd::prelude::*;

use crate::bytes::{be_u16, be_u32, read_u16, read_u32, read_u8};
use crate::patchmap::CompatibilityId;

verus! {

/// Offset of the applied entries bitmap.
pub open spec fn bitmap_start() -> int {
    33
}

pub open spec fn max_entry_index(d: Seq<u8>) -> int {
    be_u16(d, 17)
}

pub open spec fn max_glyph_map_entry_index(d: Seq<u8>) -> int {
    be_u16(d, 19)
}

pub open spec fn glyph_count(d: Seq<u8>) -> int {
    be_u32(d, 21)
}

pub open spec fn glyph_map_offset(d: Seq<u8>) -> int {
    be_u32(d, 25)
}

pub open spec fn feature_map_offset(d: Seq<u8>) -> int {
    be_u32(d, 29)
}

/// The compatibility id of the table.
pub open spec fn compat_id(d: Seq<u8>) -> CompatibilityId {
    CompatibilityId {
        w0: be_u32(d, 1) as u32,
        w1: be_u32(d, 5) as u32,
        w2: be_u32(d, 9) as u32,
        w3: be_u32(d, 13) as u32,
    }
}

/// Offset of the URI template length.
pub open spec fn template_at(d: Seq<u8>) -> int {
    bitmap_start() + max_entry_index(d) / 8 + 1
}

pub open spec fn template_len(d: Seq<u8>) -> int {
    be_u16(d, template_at(d))
}

/// The bytes of the URI template.
pub open spec fn template_bytes(d: Seq<u8>) -> Seq<u8> {
    d.subrange(template_at(d) + 2, template_at(d) + 2 + template_len(d))
}

/// Offset of the patch encoding format number.
pub open spec fn encoding_at(d: Seq<u8>) -> int {
    template_at(d) + 2 + template_len(d)
}

/// The fixed fields, the bitmap, the template and the encoding all lie
/// within the table.
pub open spec fn header_complete(d: Seq<u8>) -> bool {
    &&& d.len() >= bitmap_start()
    &&& template_at(d) + 2 <= d.len()
    &&& encoding_at(d) < d.len()
}

/// Bytes per entry index.
pub open spec fn index_width(d: Seq<u8>) -> int {
    if max_entry_index(d) < 256 {
        1
    } else {
        2
    }
}

/// The entry index stored at `at`, in the table's index width.
pub open spec fn index_at(d: Seq<u8>, at: int) -> int {
    if index_width(d) == 1 {
        d[at] as int
    } else {
        be_u16(d, at)
    }
}

/// Bit `k` of byte `b`, least significant first.
pub open spec fn bit_set(b: u8, k: u8) -> bool {
    (b >> k) & 1u8 == 1u8
}

/// The table marks entry `e` as applied.
pub open spec fn entry_applied(d: Seq<u8>, e: int) -> bool {
    bit_set(d[bitmap_start() + e / 8], (e % 8) as u8)
}

/// Start of the glyph map's entry index array.
pub open spec fn glyph_entries_at(d: Seq<u8>) -> int {
    glyph_map_offset(d) + 2
}

pub open spec fn first_mapped_glyph(d: Seq<u8>) -> int {
    be_u16(d, glyph_map_offset(d))
}

/// Number of entries in the glyph map.
pub open spec fn glyph_map_count(d: Seq<u8>) -> int {
    glyph_count(d) - first_mapped_glyph(d)
}

/// The glyph map lies within the table.
pub open spec fn glyph_map_complete(d: Seq<u8>) -> bool {
    &&& glyph_entries_at(d) <= d.len()
    &&& first_mapped_glyph(d) <= glyph_count(d)
    &&& glyph_entries_at(d) + glyph_map_count(d) * index_width(d) <= d.len()
}

/// The entry index that the glyph map gives glyph `g`; glyphs before the
/// first mapped glyph have entry 0.
pub open spec fn glyph_entry(d: Seq<u8>, g: int) -> int {
    if g < first_mapped_glyph(d) {
        0
    } else {
        index_at(d, glyph_entries_at(d) + (g - first_mapped_glyph(d)) * index_width(d))
    }
}

/// Glyph `g` lies beyond the glyph map.
pub open spec fn glyph_beyond_map(d: Seq<u8>, g: int) -> bool {
    g >= first_mapped_glyph(d) && g - first_mapped_glyph(d) >= glyph_map_count(d)
}

pub open spec fn feature_count(d: Seq<u8>) -> int {
    be_u16(d, feature_map_offset(d))
}

/// Offset of feature record `k`.
pub open spec fn record_at(d: Seq<u8>, k: int) -> int {
    feature_map_offset(d) + 2 + 6 * k
}

pub open spec fn record_tag(d: Seq<u8>, k: int) -> int {
    be_u32(d, record_at(d, k))
}

pub open spec fn record_count(d: Seq<u8>, k: int) -> int {
    be_u16(d, record_at(d, k) + 4)
}

/// The feature map's count and records lie within the table.
pub open spec fn feature_map_complete(d: Seq<u8>) -> bool {
    &&& feature_map_offset(d) + 2 <= d.len()
    &&& record_at(d, feature_count(d)) <= d.len()
}

/// Record `k` is read: its tag is greater than that of every earlier record
/// (out of order and duplicate records are skipped).
pub open spec fn record_in_order(d: Seq<u8>, k: int) -> bool {
    forall|j: int| 0 <= j < k ==> #[trigger] record_tag(d, j) < record_tag(d, k)
}

/// Number of entry mappings of the records before record `k`.
pub open spec fn mappings_before(d: Seq<u8>, k: int) -> int
    decreases k,
{
    if k <= 0 {
        0
    } else {
        mappings_before(d, k - 1) + record_count(d, k - 1)
    }
}

/// Offset of entry mapping `j` (counted over all records).
pub open spec fn mapping_at(d: Seq<u8>, j: int) -> int {
    record_at(d, feature_count(d)) + 2 * index_width(d) * j
}

/// Entry mapping `j` lies within the table.
pub open spec fn mapping_complete(d: Seq<u8>, j: int) -> bool {
    mapping_at(d, j) + 2 * index_width(d) <= d.len()
}

pub open spec fn mapping_first(d: Seq<u8>, j: int) -> int {
    index_at(d, mapping_at(d, j))
}

pub open spec fn mapping_last(d: Seq<u8>, j: int) -> int {
    index_at(d, mapping_at(d, j) + index_width(d))
}

/// The entry that mapping `i` of a record, stored as mapping `j`, adds:
/// `first + i`, if the mapping is valid (otherwise it adds nothing).
pub open spec fn mapping_adds(d: Seq<u8>, j: int, i: int, e: int) -> bool {
    let first = mapping_first(d, j);
    let last = mapping_last(d, j);
    &&& first <= last
    &&& last <= max_glyph_map_entry_index(d)
    &&& e == first + i
    &&& max_glyph_map_entry_index(d) < e <= max_entry_index(d)
}

/// The header of a format 1 table, as read.
pub struct Format1Header {
    pub compatibility_id: CompatibilityId,
    pub max_entry_index: u16,
    pub max_glyph_map_entry_index: u16,
    pub glyph_count: u32,
    pub glyph_map_offset: u32,
    pub feature_map_offset: u32,
    pub template_start: usize,
    pub template_len: usize,
    pub patch_encoding: u8,
}

impl Format1Header {
    /// The header holds the values that table `d` stores.
    pub open spec fn reads(&self, d: Seq<u8>) -> bool {
        &&& self.compatibility_id == compat_id(d)
        &&& self.max_entry_index as int == max_entry_index(d)
        &&& self.max_glyph_map_entry_index as int == max_glyph_map_entry_index(d)
        &&& self.glyph_count as int == glyph_count(d)
        &&& self.glyph_map_offset as int == glyph_map_offset(d)
        &&& self.feature_map_offset as int == feature_map_offset(d)
        &&& self.template_start as int == template_at(d) + 2
        &&& self.template_len as int == template_len(d)
        &&& self.patch_encoding == d[encoding_at(d)]
    }
}

/// Reads the header of a format 1 table; `None` when the table is too short
/// for it. The format byte is not checked.
pub fn read_header(d: &[u8]) -> (r: Option<Format1Header>)
    ensures
        r is Some <==> header_complete(d@),
        r matches Some(h) ==> h.reads(d@),
{
    if d.len() < 33 {
        return None;
    }
    let w0 = read_u32(d, 1).unwrap();
    let w1 = read_u32(d, 5).unwrap();
    let w2 = read_u32(d, 9).unwrap();
    let w3 = read_u32(d, 13).unwrap();
    let max_entry = read_u16(d, 17).unwrap();
    let max_gm = read_u16(d, 19).unwrap();
    let glyph_count = read_u32(d, 21).unwrap();
    let glyph_map_offset = read_u32(d, 25).unwrap();
    let feature_map_offset = read_u32(d, 29).unwrap();
    let t: usize = 33 + (max_entry / 8) as usize + 1;
    let len = match read_u16(d, t) {
        Some(n) => n as usize,
        None => {
            return None;
        },
    };
    let encoding = match read_u8(d, t + 2 + len) {
        Some(b) => b,
        None => {
            return None;
        },
    };
    Some(
        Format1Header {
            compatibility_id: CompatibilityId { w0, w1, w2, w3 },
            max_entry_index: max_entry,
            max_glyph_map_entry_index: max_gm,
            glyph_count,
            glyph_map_offset,
            feature_map_offset,
            template_start: t + 2,
            template_len: len,
            patch_encoding: encoding,
        },
    )
}

/// Whether the table marks entry `e` as applied.
pub fn is_entry_applied(d: &[u8], e: u16) -> (r: bool)
    requires
        header_complete(d@),
        e as int <= max_entry_index(d@),
    ensures
        r == entry_applied(d@, e as int),
{
    let b = d[33 + (e / 8) as usize];
    (b >> ((e % 8) as u8)) & 1u8 == 1u8
}

/// The entry index stored at `at`, in width `width`.
pub fn read_index(d: &[u8], at: u64, width: u64) -> (r: Option<u16>)
    requires
        width == 1 || width == 2,
    ensures
        r is Some <==> at + width <= d@.len(),
        r matches Some(v) ==> v as int == (if width == 1 {
            d@[at as int] as int
        } else {
            be_u16(d@, at as int)
        }),
{
    if at >= d.len() as u64 || d.len() as u64 - at < width {
        return None;
    }
    if width == 1 {
        Some(d[at as usize] as u16)
    } else {
        read_u16(d, at as usize)
    }
}

} // verus!
