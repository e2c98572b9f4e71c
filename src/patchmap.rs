//! Patch descriptors, and the intersection of a font's patch maps with a
//! subset definition.
use std::collections::HashMap;
use vstd::prelude::*;
use vstd::utf8::{decode_utf8, valid_utf8};

use crate::bytes::{read_u16, read_u32};
use crate::error::{Malformation, ReadError};
use crate::table::{
    feature_count, feature_map_complete, feature_map_offset, first_mapped_glyph, glyph_beyond_map,
    glyph_entries_at, glyph_entry, glyph_map_complete, glyph_map_count, header_complete,
    index_width, mapping_adds, mapping_complete, mappings_before, max_entry_index,
    max_glyph_map_entry_index, read_index, record_at, record_count, record_in_order, record_tag,
    Format1Header, compat_id, encoding_at, entry_applied, glyph_count, is_entry_applied,
    read_header, template_bytes,
};
use crate::uri::{expand_template, resolve_uri};

verus! {

broadcast use vstd::std_specs::hash::group_hash_axioms;

/// A four byte identifier (an OpenType tag), held as its big-endian value so
/// that tags order as their bytes do.
#[derive(Clone, Copy, PartialEq, Eq, Structural, PartialOrd, Ord, Hash, Debug)]
pub struct Tag {
    pub value: u32,
}

impl Tag {
    /// The tag made of four bytes.
    pub fn new(bytes: &[u8; 4]) -> (r: Tag)
        ensures
            r.value == bytes@[0] as int * 0x100_0000 + bytes@[1] as int * 0x1_0000
                + bytes@[2] as int * 0x100 + bytes@[3] as int,
    {
        Tag {
            value: bytes[0] as u32 * 0x100_0000 + bytes[1] as u32 * 0x1_0000 + bytes[2] as u32
                * 0x100 + bytes[3] as u32,
        }
    }
}

/// Identifies the table snapshot that a patch was generated against.
#[derive(Clone, Copy, PartialEq, Eq, Structural, Hash, Debug)]
pub struct CompatibilityId {
    pub w0: u32,
    pub w1: u32,
    pub w2: u32,
    pub w3: u32,
}

impl CompatibilityId {
    /// The id made of four 32-bit words.
    pub fn from_u32s(words: [u32; 4]) -> (r: CompatibilityId)
        ensures
            r == (CompatibilityId { w0: words@[0], w1: words@[1], w2: words@[2], w3: words@[3] }),
    {
        CompatibilityId { w0: words[0], w1: words[1], w2: words[2], w3: words[3] }
    }
}

/// The patch map table (scope) that a patch comes from, with that table's
/// compatibility id.
#[derive(Clone, Copy, PartialEq, Eq, Structural, Hash, Debug)]
pub enum IftTableTag {
    Ift(CompatibilityId),
    Iftx(CompatibilityId),
}

impl IftTableTag {
    /// The compatibility id of the table this tag names.
    pub open spec fn spec_compatibility_id(&self) -> CompatibilityId {
        match *self {
            IftTableTag::Ift(id) => id,
            IftTableTag::Iftx(id) => id,
        }
    }

    /// The compatibility id of the table this tag names.
    #[verifier::when_used_as_spec(spec_compatibility_id)]
    pub fn compatibility_id(&self) -> (r: CompatibilityId)
        ensures
            r == self.spec_compatibility_id(),
    {
        match self {
            IftTableTag::Ift(id) => *id,
            IftTableTag::Iftx(id) => *id,
        }
    }
}

/// How a patch is encoded, which decides what it invalidates.
#[derive(Clone, Copy, PartialEq, Eq, Structural, Hash, Debug)]
pub enum PatchEncoding {
    /// Table keyed; a fully invalidating patch invalidates every other patch,
    /// a partially invalidating one the patches of its own scope.
    TableKeyed { fully_invalidating: bool },
    /// Glyph keyed; invalidates nothing.
    GlyphKeyed,
}

/// The encoding that a patch encoding format number stands for.
pub open spec fn encoding_of(format: u8) -> Option<PatchEncoding> {
    if format == 1 || format == 2 {
        Some(PatchEncoding::TableKeyed { fully_invalidating: true })
    } else if format == 3 {
        Some(PatchEncoding::TableKeyed { fully_invalidating: false })
    } else if format == 4 {
        Some(PatchEncoding::GlyphKeyed)
    } else {
        None
    }
}

impl PatchEncoding {
    /// The encoding for a format number, `None` for an unknown number.
    pub fn from_format_number(format: u8) -> (r: Option<PatchEncoding>)
        ensures
            r == encoding_of(format),
    {
        match format {
            1 | 2 => Some(PatchEncoding::TableKeyed { fully_invalidating: true }),
            3 => Some(PatchEncoding::TableKeyed { fully_invalidating: false }),
            4 => Some(PatchEncoding::GlyphKeyed),
            _ => None,
        }
    }
}

/// A candidate patch: its resolved URI, the patch map entry it was resolved
/// for, its encoding and the table it came from.
#[derive(Clone, PartialEq, Eq, Hash, Debug)]
pub struct PatchUri {
    pub uri: String,
    pub entry_index: u32,
    pub encoding: PatchEncoding,
    pub source_table: IftTableTag,
}

impl PatchUri {
    /// `p` is the patch that `template` gives for entry `index` of the table
    /// named by `tag`, with encoding `encoding`.
    pub open spec fn resolves(
        self,
        template: Seq<char>,
        index: u32,
        tag: IftTableTag,
        encoding: PatchEncoding,
    ) -> bool {
        &&& self.uri@ == expand_template(template, index)
        &&& self.entry_index == index
        &&& self.encoding == encoding
        &&& self.source_table == tag
    }

    /// The patch for entry `entry_index`, its URI resolved from `uri_template`.
    pub fn from_index(
        uri_template: &str,
        entry_index: u32,
        source_table: &IftTableTag,
        encoding: PatchEncoding,
    ) -> (r: PatchUri)
        ensures
            r.resolves(uri_template@, entry_index, *source_table, encoding),
    {
        PatchUri {
            uri: resolve_uri(uri_template, entry_index),
            entry_index,
            encoding,
            source_table: *source_table,
        }
    }

    /// The resolved URI.
    pub fn uri_string(&self) -> (r: String)
        ensures
            r@ == self.uri@,
    {
        self.uri.clone()
    }

    /// How the patch is encoded.
    pub fn encoding(&self) -> (r: PatchEncoding)
        ensures
            r == self.encoding,
    {
        self.encoding
    }

    /// The table the patch comes from.
    pub fn source_table(&self) -> (r: IftTableTag)
        ensures
            r == self.source_table,
    {
        self.source_table
    }

    /// The compatibility id that the patch expects of its table.
    pub fn expected_compatibility_id(&self) -> (r: CompatibilityId)
        ensures
            r == self.source_table.spec_compatibility_id(),
    {
        self.source_table.compatibility_id()
    }
}

/// A patch map entry: the patch, and the codepoints and feature tags it
/// adds support for.
#[derive(Clone, PartialEq, Eq, Hash, Debug)]
pub struct Entry {
    pub patch_uri: PatchUri,
    pub codepoints: Vec<u32>,
    pub feature_tags: Vec<Tag>,
    pub compatibility_id: CompatibilityId,
}

/// What is read of a font: its bytes, the tables that patch selection
/// looks at, and its character map.
pub struct IftFont {
    /// The whole font, as handed to patch appliers.
    pub data: Vec<u8>,
    /// The "IFT " table, if the font has one.
    pub ift: Option<Vec<u8>>,
    /// The "IFTX" table, if the font has one.
    pub iftx: Option<Vec<u8>>,
    /// The glyph count of the "maxp" table, if the font has one.
    pub maxp_num_glyphs: Option<u16>,
    /// The character map: codepoint to glyph id.
    pub charmap: HashMap<u32, u32>,
}

/// A request for a font subset: codepoints and layout feature tags.
pub struct SubsetDefinition {
    pub codepoints: Vec<u32>,
    pub feature_tags: Vec<Tag>,
}

impl SubsetDefinition {
    /// The subset of `codepoints` and `feature_tags`.
    pub fn new(codepoints: Vec<u32>, feature_tags: Vec<Tag>) -> (r: SubsetDefinition)
        ensures
            r.codepoints@ == codepoints@,
            r.feature_tags@ == feature_tags@,
    {
        SubsetDefinition { codepoints, feature_tags }
    }

    /// The subset of `codepoints`, without feature tags.
    pub fn codepoints(codepoints: Vec<u32>) -> (r: SubsetDefinition)
        ensures
            r.codepoints@ == codepoints@,
            r.feature_tags@.len() == 0,
    {
        SubsetDefinition { codepoints, feature_tags: Vec::new() }
    }
}

/// Codepoint `cp` maps through `cmap` to a glyph whose glyph map entry is
/// `e`, and `e` does not exceed the max glyph map entry index.
pub open spec fn codepoint_selects(d: Seq<u8>, cmap: Map<u32, u32>, cp: u32, e: int) -> bool {
    &&& cmap.contains_key(cp)
    &&& glyph_entry(d, cmap[cp] as int) == e
    &&& e <= max_glyph_map_entry_index(d)
}

/// Some codepoint of `cps` selects entry `e` through the glyph map.
pub open spec fn glyph_selects(d: Seq<u8>, cmap: Map<u32, u32>, cps: Seq<u32>, e: int) -> bool {
    exists|i: int| 0 <= i < cps.len() && #[trigger] codepoint_selects(d, cmap, cps[i], e)
}

/// Reading the glyph map for `cps` fails: the glyph map does not lie within
/// the table, or a codepoint maps to a glyph beyond it.
pub open spec fn glyph_map_fails(d: Seq<u8>, cmap: Map<u32, u32>, cps: Seq<u32>) -> bool {
    !glyph_map_complete(d) || exists|i: int|
        0 <= i < cps.len() && cmap.contains_key(#[trigger] cps[i]) && glyph_beyond_map(
            d,
            cmap[cps[i]] as int,
        )
}

/// One more codepoint handled: its entry, if it selects one, is marked.
proof fn lemma_step_selects(
    d: Seq<u8>,
    cmap: Map<u32, u32>,
    cps: Seq<u32>,
    k: int,
    old_entries: Seq<bool>,
    prev: Seq<bool>,
    next: Seq<bool>,
)
    requires
        0 <= k < cps.len(),
        prev.len() == old_entries.len(),
        next.len() == prev.len(),
        forall|e: int|
            0 <= e < prev.len() ==> #[trigger] prev[e] == (old_entries[e] || exists|i: int|
                0 <= i < k && #[trigger] codepoint_selects(d, cmap, cps[i], e)),
        forall|e: int|
            0 <= e < next.len() ==> #[trigger] next[e] == (prev[e] || codepoint_selects(
                d,
                cmap,
                cps[k],
                e,
            )),
    ensures
        forall|e: int|
            0 <= e < next.len() ==> #[trigger] next[e] == (old_entries[e] || exists|i: int|
                0 <= i < k + 1 && #[trigger] codepoint_selects(d, cmap, cps[i], e)),
{
    assert forall|e: int| 0 <= e < next.len() implies #[trigger] next[e] == (old_entries[e]
        || exists|i: int| 0 <= i < k + 1 && #[trigger] codepoint_selects(d, cmap, cps[i], e)) by {
        if exists|i: int| 0 <= i < k + 1 && #[trigger] codepoint_selects(d, cmap, cps[i], e) {
            let i = choose|i: int| 0 <= i < k + 1 && #[trigger] codepoint_selects(d, cmap, cps[i], e);
            if i < k {
                assert(prev[e]);
            }
        }
        if exists|i: int| 0 <= i < k && #[trigger] codepoint_selects(d, cmap, cps[i], e) {
            let i = choose|i: int| 0 <= i < k && #[trigger] codepoint_selects(d, cmap, cps[i], e);
            assert(0 <= i < k + 1 && codepoint_selects(d, cmap, cps[i], e));
        }
        if codepoint_selects(d, cmap, cps[k], e) {
            assert(0 <= k < k + 1 && codepoint_selects(d, cmap, cps[k], e));
        }
    }
}

/// Marks in `entries` the glyph map entries of the glyphs that the
/// codepoints map to.
fn intersect_format1_glyph_map(
    d: &[u8],
    h: &Format1Header,
    charmap: &HashMap<u32, u32>,
    codepoints: &Vec<u32>,
    entries: &mut Vec<bool>,
) -> (r: Result<(), ReadError>)
    requires
        header_complete(d@),
        h.reads(d@),
        max_glyph_map_entry_index(d@) <= max_entry_index(d@),
        old(entries)@.len() == max_entry_index(d@) + 1,
    ensures
        r is Err <==> glyph_map_fails(d@, charmap@, codepoints@),
        r is Err ==> r == Err::<(), ReadError>(ReadError::OutOfBounds),
        final(entries)@.len() == old(entries)@.len(),
        r is Ok ==> forall|e: int|
            0 <= e < final(entries)@.len() ==> #[trigger] final(entries)@[e] == (old(entries)@[e]
                || glyph_selects(d@, charmap@, codepoints@, e)),
{
    let width: u64 = if h.max_entry_index < 256 {
        1
    } else {
        2
    };
    let start: u64 = h.glyph_map_offset as u64 + 2;
    if start > d.len() as u64 {
        return Err(ReadError::OutOfBounds);
    }
    let first = read_u16(d, h.glyph_map_offset as usize).unwrap();
    if first as u32 > h.glyph_count {
        return Err(ReadError::OutOfBounds);
    }
    let count: u64 = (h.glyph_count - first as u32) as u64;
    if start + count * width > d.len() as u64 {
        return Err(ReadError::OutOfBounds);
    }
    assert(glyph_map_complete(d@));
    let ghost old_entries = entries@;
    let mut k: usize = 0;
    while k < codepoints.len()
        invariant
            k <= codepoints@.len(),
            header_complete(d@),
            h.reads(d@),
            glyph_map_complete(d@),
            max_glyph_map_entry_index(d@) <= max_entry_index(d@),
            width as int == index_width(d@),
            start as int == glyph_entries_at(d@),
            first as int == first_mapped_glyph(d@),
            count as int == glyph_map_count(d@),
            old_entries == old(entries)@,
            entries@.len() == old_entries.len(),
            forall|i: int|
                0 <= i < k ==> !(charmap@.contains_key(#[trigger] codepoints@[i]) && glyph_beyond_map(
                    d@,
                    charmap@[codepoints@[i]] as int,
                )),
            old_entries.len() == max_entry_index(d@) + 1,
            forall|e: int|
                0 <= e < entries@.len() ==> #[trigger] entries@[e] == (old_entries[e] || exists|i: int|
                    0 <= i < k && #[trigger] codepoint_selects(d@, charmap@, codepoints@[i], e)),
        decreases codepoints@.len() - k,
    {
        let cp = codepoints[k];
        let ghost prev = entries@;
        if let Some(gid) = charmap.get(&cp) {
            let gid = *gid;
            let entry: u16 = if gid < first as u32 {
                0
            } else {
                let index = (gid - first as u32) as u64;
                if index >= count {
                    assert(glyph_beyond_map(d@, gid as int));
                    return Err(ReadError::OutOfBounds);
                }
                read_index(d, start + index * width, width).unwrap()
            };
            assert(entry as int == glyph_entry(d@, gid as int));
            if entry <= h.max_glyph_map_entry_index {
                entries.set(entry as usize, true);
            }
            proof {
                lemma_step_selects(d@, charmap@, codepoints@, k as int, old_entries, prev, entries@);
            }
        } else {
            proof {
                lemma_step_selects(d@, charmap@, codepoints@, k as int, old_entries, prev, entries@);
            }
        }
        k = k + 1;
    }
    Ok(())
}

/// Tag value `t` is among `feats`.
pub open spec fn has_tag(feats: Seq<Tag>, t: int) -> bool {
    exists|i: int| 0 <= i < feats.len() && #[trigger] feats[i].value == t
}

/// Feature record `k` is read for the requested features: it is in order
/// and its tag is requested.
pub open spec fn record_matches(d: Seq<u8>, feats: Seq<Tag>, k: int) -> bool {
    &&& 0 <= k < feature_count(d)
    &&& record_in_order(d, k)
    &&& has_tag(feats, record_tag(d, k))
}

/// Mapping `i` of record `k` adds entry `e`.
pub open spec fn record_mapping_adds(d: Seq<u8>, k: int, i: int, e: int) -> bool {
    0 <= i < record_count(d, k) && mapping_adds(d, mappings_before(d, k) + i, i, e)
}

/// Record `k` is read and one of its mappings adds entry `e`.
pub open spec fn record_selects(d: Seq<u8>, feats: Seq<Tag>, k: int, e: int) -> bool {
    record_matches(d, feats, k) && exists|i: int| #[trigger] record_mapping_adds(d, k, i, e)
}

/// One of the records before record `n` selects entry `e`.
pub open spec fn records_select(d: Seq<u8>, feats: Seq<Tag>, n: int, e: int) -> bool {
    exists|k: int| 0 <= k < n && #[trigger] record_selects(d, feats, k, e)
}

/// The feature map selects entry `e` for the requested features.
pub open spec fn feature_selects(d: Seq<u8>, feats: Seq<Tag>, e: int) -> bool {
    feature_map_offset(d) != 0 && records_select(d, feats, feature_count(d), e)
}

/// Mapping `i` of record `k` does not lie within the table.
pub open spec fn record_mapping_missing(d: Seq<u8>, k: int, i: int) -> bool {
    0 <= i < record_count(d, k) && !mapping_complete(d, mappings_before(d, k) + i)
}

/// Record `k` is read and one of its mappings lies beyond the table.
pub open spec fn record_fails(d: Seq<u8>, feats: Seq<Tag>, k: int) -> bool {
    record_matches(d, feats, k) && exists|i: int| #[trigger] record_mapping_missing(d, k, i)
}

/// Reading the feature map for the requested features fails: its records
/// do not lie within the table, or a read record has a mapping beyond it.
pub open spec fn feature_map_fails(d: Seq<u8>, feats: Seq<Tag>) -> bool {
    feature_map_offset(d) != 0 && (!feature_map_complete(d) || exists|k: int|
        0 <= k < feature_count(d) && #[trigger] record_fails(d, feats, k))
}

/// Whether tag value `t` is among `feats`.
fn contains_tag(feats: &Vec<Tag>, t: u32) -> (r: bool)
    ensures
        r == has_tag(feats@, t as int),
{
    let mut i: usize = 0;
    while i < feats.len()
        invariant
            i <= feats@.len(),
            forall|j: int| 0 <= j < i ==> #[trigger] feats@[j].value != t,
        decreases feats@.len() - i,
    {
        if feats[i].value == t {
            return true;
        }
        i = i + 1;
    }
    false
}

/// Marks in `entries` the entries that the records of the requested
/// features map to.
fn intersect_format1_feature_map(
    d: &[u8],
    h: &Format1Header,
    features: &Vec<Tag>,
    entries: &mut Vec<bool>,
) -> (r: Result<(), ReadError>)
    requires
        header_complete(d@),
        h.reads(d@),
        max_glyph_map_entry_index(d@) <= max_entry_index(d@),
        old(entries)@.len() == max_entry_index(d@) + 1,
    ensures
        r is Err <==> feature_map_fails(d@, features@),
        r is Err ==> r == Err::<(), ReadError>(ReadError::OutOfBounds),
        final(entries)@.len() == old(entries)@.len(),
        r is Ok ==> forall|e: int|
            0 <= e < final(entries)@.len() ==> #[trigger] final(entries)@[e] == (old(entries)@[e]
                || feature_selects(d@, features@, e)),
{
    if h.feature_map_offset == 0 {
        return Ok(());
    }
    let fm = h.feature_map_offset as u64;
    if fm + 2 > d.len() as u64 {
        return Err(ReadError::OutOfBounds);
    }
    let count = read_u16(d, fm as usize).unwrap() as u64;
    assert(count <= 65535);
    let dlen = d.len();
    let mappings_start: u64 = fm + 2 + 6 * count;
    if mappings_start > d.len() as u64 {
        return Err(ReadError::OutOfBounds);
    }
    let width: u64 = if h.max_entry_index < 256 {
        1
    } else {
        2
    };
    let ghost feats = features@;
    let ghost old_entries = entries@;
    let mut largest: Option<u32> = None;
    let mut before: u64 = 0;
    let mut k: u64 = 0;
    while k < count
        invariant
            header_complete(d@),
            h.reads(d@),
            feature_map_offset(d@) != 0,
            feature_map_complete(d@),
            fm as int == feature_map_offset(d@),
            count as int == feature_count(d@),
            mappings_start as int == record_at(d@, feature_count(d@)),
            width as int == index_width(d@),
            feats == features@,
            k <= count,
            count <= 65535,
            mappings_start <= dlen,
            dlen == d@.len(),
            before as int == mappings_before(d@, k as int),
            before <= 65535 * k,
            old_entries == old(entries)@,
            entries@.len() == old_entries.len(),
            old_entries.len() == max_entry_index(d@) + 1,
            largest is None <==> k == 0,
            largest matches Some(m) ==> (forall|j: int| 0 <= j < k ==> #[trigger] record_tag(d@, j) <= m)
                && exists|j: int| 0 <= j < k && #[trigger] record_tag(d@, j) == m,
            forall|j: int| 0 <= j < k ==> !#[trigger] record_fails(d@, feats, j),
            forall|e: int|
                0 <= e < entries@.len() ==> #[trigger] entries@[e] == (old_entries[e]
                    || records_select(d@, feats, k as int, e)),
        decreases count - k,
    {
        let at = fm + 2 + 6 * k;
        assert(at + 6 <= mappings_start);
        let tag = read_u32(d, at as usize).unwrap();
        let n = read_u16(d, at as usize + 4).unwrap() as u64;
        assert(tag as int == record_tag(d@, k as int));
        assert(n as int == record_count(d@, k as int));
        let in_order = match largest {
            None => true,
            Some(m) => tag > m,
        };
        assert(in_order == record_in_order(d@, k as int)) by {
            if let Some(m) = largest {
                if !in_order {
                    let j = choose|j: int| 0 <= j < k && #[trigger] record_tag(d@, j) == m;
                    assert(!(record_tag(d@, j) < record_tag(d@, k as int)));
                }
            }
        }
        let ghost prev_largest = largest;
        if in_order {
            largest = Some(tag);
        }
        let selected = in_order && contains_tag(features, tag);
        assert(selected == record_matches(d@, feats, k as int));
        if selected {
            let mut i: u64 = 0;
            while i < n
                invariant
                    header_complete(d@),
                    h.reads(d@),
                    feature_map_complete(d@),
                    mappings_start as int == record_at(d@, feature_count(d@)),
                    width as int == index_width(d@),
                    feats == features@,
                    k < count,
                    feature_map_offset(d@) != 0,
                    count <= 65535,
                    n <= 65535,
                    mappings_start <= d@.len(),
                    n as int == record_count(d@, k as int),
                    before as int == mappings_before(d@, k as int),
                    before <= 65535 * k,
                    record_matches(d@, feats, k as int),
                    i <= n,
                    old_entries == old(entries)@,
                    entries@.len() == old_entries.len(),
                    old_entries.len() == max_entry_index(d@) + 1,
                    forall|j: int| 0 <= j < i ==> !#[trigger] record_mapping_missing(d@, k as int, j),
                    forall|e: int|
                        0 <= e < entries@.len() ==> #[trigger] entries@[e] == (old_entries[e]
                            || records_select(d@, feats, k as int, e) || exists|j: int|
                            0 <= j < i && #[trigger] record_mapping_adds(d@, k as int, j, e)),
                decreases n - i,
            {
                let j: u64 = before + i;
                assert(j <= 0x1_0000_0000) by (nonlinear_arith)
                    requires
                        before <= 65535 * k,
                        k < count,
                        count <= 65535,
                        i < n,
                        n <= 65535,
                        j == before + i,
                ;
                assert(2 * width * j <= 4 * 0x1_0000_0000) by (nonlinear_arith)
                    requires
                        width <= 2,
                        j <= 0x1_0000_0000,
                ;
                let at = mappings_start + 2 * width * j;
                let first = read_index(d, at, width);
                let last = read_index(d, at + width, width);
                if first.is_none() || last.is_none() {
                    assert(record_mapping_missing(d@, k as int, i as int));
                    assert(record_fails(d@, features@, k as int));
                    assert(0 <= k < feature_count(d@));
                    return Err(ReadError::OutOfBounds);
                }
                let first = first.unwrap();
                let last = last.unwrap();
                let target: u64 = first as u64 + i;
                let ghost prev = entries@;
                let adds = first <= last && last <= h.max_glyph_map_entry_index && target
                    > h.max_glyph_map_entry_index as u64 && target <= h.max_entry_index as u64;
                if adds {
                    entries.set(target as usize, true);
                }
                assert forall|e: int| 0 <= e < entries@.len() implies #[trigger] entries@[e] == (
                old_entries[e] || records_select(d@, feats, k as int, e) || exists|j: int|
                    0 <= j < i + 1 && #[trigger] record_mapping_adds(d@, k as int, j, e)) by {
                    if exists|j: int| 0 <= j < i + 1 && #[trigger] record_mapping_adds(d@, k as int, j, e) {
                        let j = choose|j: int|
                            0 <= j < i + 1 && #[trigger] record_mapping_adds(d@, k as int, j, e);
                        if j < i {
                            assert(prev[e]);
                        } else {
                            assert(e == target);
                        }
                    }
                    if exists|j: int| 0 <= j < i && #[trigger] record_mapping_adds(d@, k as int, j, e) {
                        let j = choose|j: int|
                            0 <= j < i && #[trigger] record_mapping_adds(d@, k as int, j, e);
                        assert(0 <= j < i + 1 && record_mapping_adds(d@, k as int, j, e));
                    }
                    if adds && e == target {
                        assert(record_mapping_adds(d@, k as int, i as int, e));
                    }
                }
                i = i + 1;
            }
            assert forall|e: int| 0 <= e < entries@.len() implies #[trigger] entries@[e] == (
            old_entries[e] || records_select(d@, feats, k + 1, e)) by {
                if records_select(d@, feats, k + 1, e) {
                    let kk = choose|kk: int| 0 <= kk < k + 1 && #[trigger] record_selects(d@, feats, kk, e);
                    if kk < k {
                        assert(records_select(d@, feats, k as int, e));
                    } else {
                        let j = choose|j: int| #[trigger] record_mapping_adds(d@, k as int, j, e);
                        assert(0 <= j < i && record_mapping_adds(d@, k as int, j, e));
                    }
                }
                if records_select(d@, feats, k as int, e) {
                    let kk = choose|kk: int| 0 <= kk < k && #[trigger] record_selects(d@, feats, kk, e);
                    assert(0 <= kk < k + 1 && record_selects(d@, feats, kk, e));
                }
                if exists|j: int| 0 <= j < i && #[trigger] record_mapping_adds(d@, k as int, j, e) {
                    let j = choose|j: int| 0 <= j < i && #[trigger] record_mapping_adds(d@, k as int, j, e);
                    assert(record_selects(d@, feats, k as int, e));
                    assert(0 <= k < k + 1 && record_selects(d@, feats, k as int, e));
                }
            }
            assert(!record_fails(d@, feats, k as int)) by {
                if record_fails(d@, feats, k as int) {
                    let j = choose|j: int| #[trigger] record_mapping_missing(d@, k as int, j);
                    assert(0 <= j < i);
                }
            }
        } else {
            assert forall|e: int| 0 <= e < entries@.len() implies #[trigger] entries@[e] == (
            old_entries[e] || records_select(d@, feats, k + 1, e)) by {
                if records_select(d@, feats, k + 1, e) {
                    let kk = choose|kk: int| 0 <= kk < k + 1 && #[trigger] record_selects(d@, feats, kk, e);
                    assert(kk != k);
                    assert(records_select(d@, feats, k as int, e));
                }
                if records_select(d@, feats, k as int, e) {
                    let kk = choose|kk: int| 0 <= kk < k && #[trigger] record_selects(d@, feats, kk, e);
                    assert(0 <= kk < k + 1 && record_selects(d@, feats, kk, e));
                }
            }
        }
        assert(largest matches Some(m) ==> (forall|j: int| 0 <= j < k + 1 ==> #[trigger] record_tag(d@, j) <= m)
            && exists|j: int| 0 <= j < k + 1 && #[trigger] record_tag(d@, j) == m) by {
            if let Some(m) = largest {
                if in_order {
                    assert(record_tag(d@, k as int) == m);
                } else {
                    let pm = prev_largest->0;
                    let j = choose|j: int| 0 <= j < k && #[trigger] record_tag(d@, j) == pm;
                    assert(0 <= j < k + 1 && record_tag(d@, j) == m);
                }
            }
        }
        before = before + n;
        k = k + 1;
    }
    assert(!feature_map_fails(d@, features@)) by {
        if exists|j: int| 0 <= j < feature_count(d@) && #[trigger] record_fails(d@, features@, j) {
            let j = choose|j: int| 0 <= j < feature_count(d@) && #[trigger] record_fails(d@, features@, j);
            assert(!record_fails(d@, feats, j));
        }
    }
    Ok(())
}

/// The two scopes of patch map tables.
#[derive(Clone, Copy, PartialEq, Eq, Structural, Debug)]
pub enum Scope {
    Ift,
    Iftx,
}

/// The table of a scope as a byte sequence, if the font has it.
pub open spec fn table_of(font: IftFont, scope: Scope) -> Option<Seq<u8>> {
    match scope {
        Scope::Ift => match font.ift {
            Some(t) => Some(t@),
            None => None,
        },
        Scope::Iftx => match font.iftx {
            Some(t) => Some(t@),
            None => None,
        },
    }
}

/// The tag of patches from table `d` of `scope`.
pub open spec fn scope_tag(d: Seq<u8>, scope: Scope) -> IftTableTag {
    match scope {
        Scope::Ift => IftTableTag::Ift(compat_id(d)),
        Scope::Iftx => IftTableTag::Iftx(compat_id(d)),
    }
}

/// The text of the table's URI template.
pub open spec fn template_text(d: Seq<u8>) -> Seq<char> {
    decode_utf8(template_bytes(d))
}

/// The encoding of the table's patches.
pub open spec fn table_encoding(d: Seq<u8>) -> PatchEncoding {
    encoding_of(d[encoding_at(d)])->0
}

/// Entry `e` is selected by the subset, through the glyph map or the
/// feature map.
pub open spec fn entry_selected(d: Seq<u8>, font: IftFont, subset: SubsetDefinition, e: int) -> bool {
    glyph_selects(d, font.charmap@, subset.codepoints@, e) || feature_selects(
        d,
        subset.feature_tags@,
        e,
    )
}

/// The entries below `n`, other than 0, that are selected and not marked
/// applied, in increasing order.
pub open spec fn emitted_entries(d: Seq<u8>, font: IftFont, subset: SubsetDefinition, n: int) -> Seq<u32>
    decreases n,
{
    if n <= 1 {
        seq![]
    } else {
        let rest = emitted_entries(d, font, subset, n - 1);
        if entry_selected(d, font, subset, n - 1) && !entry_applied(d, n - 1) {
            rest.push((n - 1) as u32)
        } else {
            rest
        }
    }
}

/// The error of a format 1 table, if any, in the order the checks are made.
pub open spec fn format1_error(d: Seq<u8>, font: IftFont, subset: SubsetDefinition) -> Option<ReadError> {
    if font.maxp_num_glyphs matches Some(n) && glyph_count(d) != n as int {
        Some(ReadError::MalformedData(Malformation::GlyphCountMismatch))
    } else if max_glyph_map_entry_index(d) > max_entry_index(d) {
        Some(ReadError::MalformedData(Malformation::EntryIndexRange))
    } else if !valid_utf8(template_bytes(d)) {
        Some(ReadError::MalformedData(Malformation::UriTemplate))
    } else if encoding_of(d[encoding_at(d)]) is None {
        Some(ReadError::MalformedData(Malformation::UnrecognizedEncoding))
    } else if glyph_map_fails(d, font.charmap@, subset.codepoints@) {
        Some(ReadError::OutOfBounds)
    } else if feature_map_fails(d, subset.feature_tags@) {
        Some(ReadError::OutOfBounds)
    } else {
        None
    }
}

/// The table is read as a format 1 table: its format byte is 1 and its
/// header lies within it. Other tables, but those of format 2, are ignored.
pub open spec fn is_format1(d: Seq<u8>) -> bool {
    d.len() > 0 && d[0] == 1 && header_complete(d)
}

/// The error that reading the table of `scope` gives, if any.
pub open spec fn table_error(font: IftFont, subset: SubsetDefinition, scope: Scope) -> Option<ReadError> {
    match table_of(font, scope) {
        Some(d) => if d.len() > 0 && d[0] == 2 {
            Some(ReadError::UnsupportedFormat(2))
        } else if is_format1(d) {
            format1_error(d, font, subset)
        } else {
            None
        },
        None => None,
    }
}

/// The entries for which the table of `scope` gives patches; none when reading the table fails: a failed table contributes nothing.
pub open spec fn table_entries(font: IftFont, subset: SubsetDefinition, scope: Scope) -> Seq<u32> {
    if table_error(font, subset, scope) is Some {
        seq![]
    } else {
        read_table_entries(font, subset, scope)
    }
}

/// The entries for which the table of `scope` gives patches, when it is
/// read without error.
pub open spec fn read_table_entries(font: IftFont, subset: SubsetDefinition, scope: Scope) -> Seq<
    u32,
> {
    match table_of(font, scope) {
        Some(d) => if is_format1(d) {
            emitted_entries(d, font, subset, max_entry_index(d) + 1)
        } else {
            seq![]
        },
        None => seq![],
    }
}

/// `v` are the patches that the table of `scope` gives for the subset.
pub open spec fn scope_emits(
    v: Seq<PatchUri>,
    font: IftFont,
    subset: SubsetDefinition,
    scope: Scope,
) -> bool {
    let idx = table_entries(font, subset, scope);
    let d = table_of(font, scope)->0;
    &&& v.len() == idx.len()
    &&& forall|i: int|
        0 <= i < v.len() ==> (#[trigger] v[i]).resolves(
            template_text(d),
            idx[i],
            scope_tag(d, scope),
            table_encoding(d),
        )
}

/// Every emitted entry is above 0 and not marked applied.
pub proof fn lemma_emitted_unapplied(d: Seq<u8>, font: IftFont, subset: SubsetDefinition, n: int)
    requires
        n <= 0x1_0000,
    ensures
        forall|i: int|
            0 <= i < emitted_entries(d, font, subset, n).len() ==> #[trigger] emitted_entries(
                d,
                font,
                subset,
                n,
            )[i] > 0 && !entry_applied(d, emitted_entries(d, font, subset, n)[i] as int)
                && emitted_entries(d, font, subset, n)[i] < n,
    decreases n,
{
    if n > 1 {
        lemma_emitted_unapplied(d, font, subset, n - 1);
        let rest = emitted_entries(d, font, subset, n - 1);
        let all = emitted_entries(d, font, subset, n);
        assert forall|i: int| 0 <= i < all.len() implies #[trigger] all[i] > 0 && !entry_applied(
            d,
            all[i] as int,
        ) && all[i] < n by {
            if i < rest.len() {
                assert(all[i] == rest[i]);
            }
        }
    }
}

/// `c` are the patches that the font's tables give for the subset: those of
/// the IFT table, then those of the IFTX table.
pub open spec fn are_candidates(c: Seq<PatchUri>, font: IftFont, subset: SubsetDefinition) -> bool {
    let n = table_entries(font, subset, Scope::Ift).len() as int;
    &&& c.len() == n + table_entries(font, subset, Scope::Iftx).len()
    &&& scope_emits(c.take(n), font, subset, Scope::Ift)
    &&& scope_emits(c.skip(n), font, subset, Scope::Iftx)
}

/// The compatibility id of the table of `scope`, if it is read.
pub open spec fn table_compat_id(font: IftFont, scope: Scope) -> Option<CompatibilityId> {
    match table_of(font, scope) {
        Some(d) => if is_format1(d) {
            Some(compat_id(d))
        } else {
            None
        },
        None => None,
    }
}

/// The compatibility id of a table, if it is read as a format 1 table.
pub fn table_compatibility_id(table: &Option<Vec<u8>>) -> (r: Option<CompatibilityId>)
    ensures
        r == (match *table {
            Some(t) => if is_format1(t@) {
                Some(compat_id(t@))
            } else {
                None::<CompatibilityId>
            },
            None => None,
        }),
{
    match table {
        Some(t) => {
            if t.len() > 0 && t[0] == 1 {
                match read_header(t.as_slice()) {
                    Some(h) => Some(h.compatibility_id),
                    None => None,
                }
            } else {
                None
            }
        },
        None => None,
    }
}

/// Every patch that a table gives for a subset is for an entry above 0 that
/// the table does not mark as applied.
pub proof fn lemma_patches_unapplied(
    v: Seq<PatchUri>,
    font: IftFont,
    subset: SubsetDefinition,
    scope: Scope,
)
    requires
        scope_emits(v, font, subset, scope),
    ensures
        forall|i: int|
            0 <= i < v.len() ==> (#[trigger] v[i]).entry_index > 0 && !entry_applied(
                table_of(font, scope)->0,
                v[i].entry_index as int,
            ),
{
    let d = table_of(font, scope)->0;
    if table_of(font, scope) is Some && is_format1(d) {
        lemma_emitted_unapplied(d, font, subset, max_entry_index(d) + 1);
        assert forall|i: int| 0 <= i < v.len() implies (#[trigger] v[i]).entry_index > 0
            && !entry_applied(d, v[i].entry_index as int) by {
            assert(v[i].entry_index == emitted_entries(d, font, subset, max_entry_index(d) + 1)[i]);
        }
    }
}

/// Relies on `String::from_utf8`: succeeds exactly on valid UTF-8, and the
/// text is what the bytes encode.
#[verifier::external_body]
fn string_from_utf8(bytes: Vec<u8>) -> (r: Option<String>)
    ensures
        r is Some <==> valid_utf8(bytes@),
        r matches Some(s) ==> s@ == decode_utf8(bytes@),
{
    String::from_utf8(bytes).ok()
}

/// Copies `len` bytes of `d` from `start`.
fn copy_bytes(d: &[u8], start: usize, len: usize) -> (r: Vec<u8>)
    requires
        start + len <= d@.len(),
    ensures
        r@ == d@.subrange(start as int, start + len),
{
    let mut r: Vec<u8> = Vec::new();
    let n = d.len();
    let mut i: usize = 0;
    while i < len
        invariant
            i <= len,
            n == d@.len(),
            start + len <= n,
            r@ == d@.subrange(start as int, start + i),
        decreases len - i,
    {
        r.push(d[start + i]);
        assert(r@ =~= d@.subrange(start as int, start + i + 1));
        i = i + 1;
    }
    r
}

/// Appends to `patches` the patches that the format 1 table `d` of `scope`
/// gives for the subset.
fn add_intersecting_format1_patches(
    font: &IftFont,
    d: &[u8],
    h: &Format1Header,
    scope: Scope,
    subset: &SubsetDefinition,
    patches: &mut Vec<PatchUri>,
) -> (r: Result<(), ReadError>)
    requires
        is_format1(d@),
        h.reads(d@),
    ensures
        format1_error(d@, *font, *subset) matches Some(e) ==> r == Err::<(), ReadError>(e),
        format1_error(d@, *font, *subset) is None ==> r is Ok,
        r is Err ==> final(patches)@ == old(patches)@,
        r is Ok ==> final(patches)@.len() == old(patches)@.len() + emitted_entries(
            d@,
            *font,
            *subset,
            max_entry_index(d@) + 1,
        ).len() && final(patches)@.take(old(patches)@.len() as int) == old(patches)@ && forall|i: int|
            0 <= i < emitted_entries(d@, *font, *subset, max_entry_index(d@) + 1).len()
                ==> (#[trigger] final(patches)@[old(patches)@.len() + i]).resolves(
                template_text(d@),
                emitted_entries(d@, *font, *subset, max_entry_index(d@) + 1)[i],
                scope_tag(d@, scope),
                table_encoding(d@),
            ),
{
    // Check the top level fields.
    if let Some(n) = font.maxp_num_glyphs {
        if h.glyph_count != n as u32 {
            return Err(ReadError::MalformedData(Malformation::GlyphCountMismatch));
        }
    }
    if h.max_glyph_map_entry_index > h.max_entry_index {
        return Err(ReadError::MalformedData(Malformation::EntryIndexRange));
    }
    let template = match string_from_utf8(copy_bytes(d, h.template_start, h.template_len)) {
        Some(t) => t,
        None => {
            return Err(ReadError::MalformedData(Malformation::UriTemplate));
        },
    };
    let encoding = match PatchEncoding::from_format_number(h.patch_encoding) {
        Some(e) => e,
        None => {
            return Err(ReadError::MalformedData(Malformation::UnrecognizedEncoding));
        },
    };

    // Collect the selected entries, from the glyph map and the feature map.
    let size = h.max_entry_index as usize + 1;
    let mut entries: Vec<bool> = Vec::new();
    let mut i: usize = 0;
    while i < size
        invariant
            i <= size,
            entries@.len() == i,
            forall|e: int| 0 <= e < i ==> !#[trigger] entries@[e],
        decreases size - i,
    {
        entries.push(false);
        i = i + 1;
    }
    let ghost empty = entries@;
    match intersect_format1_glyph_map(d, h, &font.charmap, &subset.codepoints, &mut entries) {
        Ok(()) => {},
        Err(e) => {
            return Err(e);
        },
    }
    let ghost after_glyphs = entries@;
    match intersect_format1_feature_map(d, h, &subset.feature_tags, &mut entries) {
        Ok(()) => {},
        Err(e) => {
            return Err(e);
        },
    }
    assert forall|e: int| 0 <= e < entries@.len() implies #[trigger] entries@[e] == entry_selected(
        d@,
        *font,
        *subset,
        e,
    ) by {
        assert(!empty[e]);
        assert(after_glyphs[e] == glyph_selects(d@, font.charmap@, subset.codepoints@, e));
    }

    // Produce a patch for each selected entry other than 0 not yet applied.
    let tag = match scope {
        Scope::Ift => IftTableTag::Ift(h.compatibility_id),
        Scope::Iftx => IftTableTag::Iftx(h.compatibility_id),
    };
    let ghost old_patches = old(patches)@;
    let ghost n0 = old_patches.len();
    let mut e: u32 = 1;
    while e <= h.max_entry_index as u32
        invariant
            1 <= e <= max_entry_index(d@) + 1,
            header_complete(d@),
            h.reads(d@),
            entries@.len() == max_entry_index(d@) + 1,
            forall|x: int| 0 <= x < entries@.len() ==> #[trigger] entries@[x] == entry_selected(
                d@,
                *font,
                *subset,
                x,
            ),
            template@ == template_text(d@),
            encoding == table_encoding(d@),
            tag == scope_tag(d@, scope),
            old_patches == old(patches)@,
            n0 == old_patches.len(),
            patches@.len() == n0 + emitted_entries(d@, *font, *subset, e as int).len(),
            patches@.take(n0 as int) == old_patches,
            forall|k: int|
                0 <= k < emitted_entries(d@, *font, *subset, e as int).len() ==> (#[trigger] patches@[n0
                    + k]).resolves(
                    template_text(d@),
                    emitted_entries(d@, *font, *subset, e as int)[k],
                    scope_tag(d@, scope),
                    table_encoding(d@),
                ),
        decreases max_entry_index(d@) + 1 - e,
    {
        if entries[e as usize] && !is_entry_applied(d, e as u16) {
            let p = PatchUri::from_index(template.as_str(), e, &tag, encoding);
            patches.push(p);
            assert(patches@.take(n0 as int) =~= old_patches);
        }
        e = e + 1;
    }
    Ok(())
}

/// Appends to `patches` the patches that `table`, of `scope`, gives for the
/// subset. Tables that are not of format 1 or 2, or too short for their
/// header, are ignored; format 2 is not read.
fn add_intersecting_patches(
    font: &IftFont,
    table: &Vec<u8>,
    scope: Scope,
    subset: &SubsetDefinition,
    patches: &mut Vec<PatchUri>,
) -> (r: Result<(), ReadError>)
    requires
        table_of(*font, scope) == Some(table@),
    ensures
        table_error(*font, *subset, scope) matches Some(e) ==> r == Err::<(), ReadError>(e),
        table_error(*font, *subset, scope) is None ==> r is Ok,
        r is Err ==> final(patches)@ == old(patches)@,
        r is Ok ==> final(patches)@.len() == old(patches)@.len() + table_entries(
            *font,
            *subset,
            scope,
        ).len() && final(patches)@.take(old(patches)@.len() as int) == old(patches)@ && scope_emits(
            final(patches)@.skip(old(patches)@.len() as int),
            *font,
            *subset,
            scope,
        ),
{
    let ghost n0 = old(patches)@.len();
    if table.len() == 0 {
        assert(patches@.skip(n0 as int) =~= seq![]);
        return Ok(());
    }
    if table[0] == 2 {
        return Err(ReadError::UnsupportedFormat(2));
    }
    if table[0] != 1 {
        assert(patches@.skip(n0 as int) =~= seq![]);
        return Ok(());
    }
    match read_header(table.as_slice()) {
        Some(h) => {
            let r = add_intersecting_format1_patches(font, table.as_slice(), &h, scope, subset, patches);
            proof {
                if r is Ok {
                    let added = patches@.skip(n0 as int);
                    assert forall|i: int| 0 <= i < added.len() implies (#[trigger] added[i]).resolves(
                        template_text(table@),
                        table_entries(*font, *subset, scope)[i],
                        scope_tag(table@, scope),
                        table_encoding(table@),
                    ) by {
                        assert(added[i] == patches@[n0 + i]);
                    }
                }
            }
            r
        },
        None => {
            assert(patches@.skip(n0 as int) =~= seq![]);
            Ok(())
        },
    }
}

/// The error of intersecting the font's tables: a table that fails to be
/// read contributes nothing, and the whole intersection fails only when no
/// table that the font has could be read. It then fails with the error of
/// the IFT table, if that table failed, else with that of the IFTX table.
pub open spec fn intersection_error(font: IftFont, subset: SubsetDefinition) -> Option<ReadError> {
    let ift = table_error(font, subset, Scope::Ift);
    let iftx = table_error(font, subset, Scope::Iftx);
    if (ift is Some || iftx is Some) && (table_of(font, Scope::Ift) is None || ift is Some) && (
    table_of(font, Scope::Iftx) is None || iftx is Some) {
        if ift is Some {
            ift
        } else {
            iftx
        }
    } else {
        None
    }
}

/// The patches of the font's IFT and IFTX tables that intersect the subset
/// definition and are not applied yet: those of the IFT table first, each
/// table's in increasing entry order. Each table is read on its own: one that
/// fails (malformed, or of the unsupported format 2) contributes no patch and
/// leaves the other table's patches as they are. The call fails only when no
/// table of the font could be read, with the IFT table's error if it failed,
/// else the IFTX table's.
pub fn intersecting_patches(font: &IftFont, subset_definition: &SubsetDefinition) -> (r: Result<
    Vec<PatchUri>,
    ReadError,
>)
    ensures
        intersection_error(*font, *subset_definition) matches Some(e) ==> r == Err::<
            Vec<PatchUri>,
            ReadError,
        >(e),
        intersection_error(*font, *subset_definition) is None ==> (r matches Ok(v)
            && are_candidates(v@, *font, *subset_definition)),
{
    let mut result: Vec<PatchUri> = Vec::new();
    let mut first_error: Option<ReadError> = None;
    let mut read_any = false;
    if let Some(ift) = &font.ift {
        match add_intersecting_patches(font, ift, Scope::Ift, subset_definition, &mut result) {
            Ok(()) => {
                read_any = true;
            },
            Err(e) => {
                first_error = Some(e);
            },
        }
    }
    let ghost n = result@.len();
    let ghost first_part = result@;
    assert(first_part.skip(0) =~= first_part);
    assert(first_part.take(n as int) =~= first_part);
    if let Some(iftx) = &font.iftx {
        match add_intersecting_patches(font, iftx, Scope::Iftx, subset_definition, &mut result) {
            Ok(()) => {
                read_any = true;
            },
            Err(e) => {
                if first_error.is_none() {
                    first_error = Some(e);
                }
            },
        }
    }
    assert(result@.skip(n as int) =~= result@.subrange(n as int, result@.len() as int));
    assert(result@.take(n as int) == first_part);
    if !read_any {
        if let Some(e) = first_error {
            return Err(e);
        }
    }
    Ok(result)
}

} // verus!
