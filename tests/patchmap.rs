use std::collections::HashMap;

use incremental_font_transfer::{
    intersecting_patches, CompatibilityId, IftFont, IftTableTag, Malformation, PatchEncoding,
    PatchGroup, PatchUri, ReadError, SubsetDefinition, Tag,
};

/// A format 1 table, laid out field by field.
struct Format1 {
    format: u8,
    compat: [u32; 4],
    max_entry: u16,
    max_glyph_map_entry: u16,
    glyph_count: u32,
    applied: Vec<u16>,
    template: Vec<u8>,
    encoding: u8,
    first_mapped_glyph: u16,
    glyph_entries: Vec<u16>,
    features: Option<(Vec<(&'static [u8; 4], u16)>, Vec<(u16, u16)>)>,
}

impl Format1 {
    fn simple() -> Format1 {
        Format1 {
            format: 1,
            compat: [1, 2, 3, 4],
            max_entry: 2,
            max_glyph_map_entry: 2,
            glyph_count: 7,
            applied: vec![1],
            template: "ABCDEF\u{0264}".as_bytes().to_vec(),
            encoding: 4,
            first_mapped_glyph: 2,
            glyph_entries: vec![2, 1, 0, 0, 0],
            features: None,
        }
    }

    fn put_index(&self, out: &mut Vec<u8>, v: u16) {
        if self.max_entry < 256 {
            out.push(v as u8);
        } else {
            out.extend_from_slice(&v.to_be_bytes());
        }
    }

    fn build(&self) -> Vec<u8> {
        let mut out = vec![self.format];
        for w in self.compat {
            out.extend_from_slice(&w.to_be_bytes());
        }
        out.extend_from_slice(&self.max_entry.to_be_bytes());
        out.extend_from_slice(&self.max_glyph_map_entry.to_be_bytes());
        out.extend_from_slice(&self.glyph_count.to_be_bytes());
        let bitmap_len = self.max_entry as usize / 8 + 1;
        let header_len = 33 + bitmap_len + 2 + self.template.len() + 1;
        let glyph_map_offset = header_len as u32;
        let glyph_map_len = 2 + self.glyph_entries.len() * if self.max_entry < 256 { 1 } else { 2 };
        let feature_map_offset = if self.features.is_some() {
            glyph_map_offset + glyph_map_len as u32
        } else {
            0
        };
        out.extend_from_slice(&glyph_map_offset.to_be_bytes());
        out.extend_from_slice(&feature_map_offset.to_be_bytes());
        let mut bitmap = vec![0u8; bitmap_len];
        for e in &self.applied {
            bitmap[*e as usize / 8] |= 1 << (e % 8);
        }
        out.extend_from_slice(&bitmap);
        out.extend_from_slice(&(self.template.len() as u16).to_be_bytes());
        out.extend_from_slice(&self.template);
        out.push(self.encoding);
        assert_eq!(out.len(), header_len);
        out.extend_from_slice(&self.first_mapped_glyph.to_be_bytes());
        for e in &self.glyph_entries {
            self.put_index(&mut out, *e);
        }
        if let Some((records, mappings)) = &self.features {
            out.extend_from_slice(&(records.len() as u16).to_be_bytes());
            for (tag, count) in records {
                out.extend_from_slice(&tag[..]);
                out.extend_from_slice(&count.to_be_bytes());
            }
            for (first, last) in mappings {
                self.put_index(&mut out, *first);
                self.put_index(&mut out, *last);
            }
        }
        out
    }
}

fn font_with(ift: Option<Vec<u8>>, iftx: Option<Vec<u8>>) -> IftFont {
    IftFont {
        data: vec![],
        ift,
        iftx,
        maxp_num_glyphs: Some(7),
        charmap: HashMap::from([(0x11, 2), (0x12, 3), (0x13, 1), (0x14, 9)]),
    }
}

fn cid() -> CompatibilityId {
    CompatibilityId::from_u32s([1, 2, 3, 4])
}

fn cps(v: &[u32]) -> SubsetDefinition {
    SubsetDefinition::codepoints(v.to_vec())
}

fn glyph_keyed(uri: &str, entry_index: u32, tag: IftTableTag) -> PatchUri {
    PatchUri {
        uri: uri.to_string(),
        entry_index,
        encoding: PatchEncoding::GlyphKeyed,
        source_table: tag,
    }
}

#[test]
fn format_1_patch_map_u8_entries() {
    let font = font_with(Some(Format1::simple().build()), None);

    // 0x123 is not in the mapping
    let patches = intersecting_patches(&font, &cps(&[0x123])).unwrap();
    assert_eq!(Vec::<PatchUri>::new(), patches);

    // 0x13 maps to entry 0
    let patches = intersecting_patches(&font, &cps(&[0x13])).unwrap();
    assert_eq!(Vec::<PatchUri>::new(), patches);

    // 0x12 maps to entry 1 which is applied
    let patches = intersecting_patches(&font, &cps(&[0x12])).unwrap();
    assert_eq!(Vec::<PatchUri>::new(), patches);

    // 0x11 maps to entry 2
    let patches = intersecting_patches(&font, &cps(&[0x11])).unwrap();
    assert_eq!(
        vec![glyph_keyed("ABCDEF\u{0264}", 2, IftTableTag::Ift(cid()))],
        patches
    );

    let patches = intersecting_patches(&font, &cps(&[0x11, 0x12, 0x123])).unwrap();
    assert_eq!(
        vec![glyph_keyed("ABCDEF\u{0264}", 2, IftTableTag::Ift(cid()))],
        patches
    );
}

#[test]
fn format_1_patch_map_glyph_map_too_short() {
    let mut table = Format1::simple().build();
    table.pop();
    let font = font_with(Some(table), None);
    assert_eq!(
        intersecting_patches(&font, &cps(&[0x123])),
        Err(ReadError::OutOfBounds)
    );
}

#[test]
fn glyph_beyond_glyph_map_is_out_of_bounds() {
    let font = font_with(Some(Format1::simple().build()), None);
    // 0x14 maps to glyph 9, past the glyph count of 7.
    assert_eq!(
        intersecting_patches(&font, &cps(&[0x14])),
        Err(ReadError::OutOfBounds)
    );
}

#[test]
fn format_1_patch_map_u16_entries() {
    let mut t = Format1::simple();
    t.max_entry = 300;
    t.max_glyph_map_entry = 290;
    t.applied = vec![];
    t.template = b"//foo.bar/{id}".to_vec();
    t.encoding = 3;
    t.glyph_entries = vec![280, 7, 0, 0, 0];
    let font = font_with(Some(t.build()), None);
    let patches = intersecting_patches(&font, &cps(&[0x11, 0x12])).unwrap();
    let partial = PatchEncoding::TableKeyed {
        fully_invalidating: false,
    };
    assert_eq!(
        patches,
        vec![
            PatchUri {
                uri: "//foo.bar/0S".to_string(),
                entry_index: 7,
                encoding: partial,
                source_table: IftTableTag::Ift(cid()),
            },
            PatchUri {
                uri: "//foo.bar/04C0".to_string(),
                entry_index: 280,
                encoding: partial,
                source_table: IftTableTag::Ift(cid()),
            },
        ]
    );
}

fn feature_table() -> Format1 {
    let mut t = Format1::simple();
    t.max_entry = 300;
    t.max_glyph_map_entry = 2;
    t.applied = vec![];
    t.template = b"{id}".to_vec();
    t.features = Some((
        vec![(b"liga", 2), (b"dlig", 1), (b"smcp", 1)],
        vec![(1, 2), (5, 6), (2, 2), (10, 10)],
    ));
    t
}

#[test]
fn format_1_patch_map_u16_entries_with_feature_mapping() {
    let font = font_with(Some(feature_table().build()), None);
    // "liga" has mappings (1, 2) -> entry 1 + 0 = 1 (not beyond the glyph map
    // entries, skipped) and (5, 6) -> last beyond the glyph map entries,
    // skipped. "dlig" is out of order. "smcp" maps (2, 2) -> entry 2 (skipped:
    // not beyond max glyph map entry index 2).
    let s = SubsetDefinition::new(vec![], vec![Tag::new(b"liga"), Tag::new(b"smcp")]);
    assert_eq!(intersecting_patches(&font, &s).unwrap(), vec![]);

    let mut t = feature_table();
    t.features = Some((
        vec![(b"liga", 2), (b"dlig", 1), (b"smcp", 1)],
        vec![(1, 2), (2, 2), (2, 2), (0, 1)],
    ));
    let font = font_with(Some(t.build()), None);
    // liga: (1, 2) at i = 0 gives 1, skipped; (2, 2) at i = 1 gives 3.
    // dlig is out of order and skipped; smcp: (0, 1) at i = 0 gives 0, skipped.
    let s = SubsetDefinition::new(
        vec![],
        vec![Tag::new(b"smcp"), Tag::new(b"liga"), Tag::new(b"dlig")],
    );
    let patches = intersecting_patches(&font, &s).unwrap();
    assert_eq!(patches, vec![glyph_keyed("0C", 3, IftTableTag::Ift(cid()))]);
}

#[test]
fn feature_mapping_beyond_table_is_out_of_bounds() {
    let mut t = feature_table();
    t.features = Some((vec![(b"liga", 3)], vec![(1, 2), (2, 2)]));
    let font = font_with(Some(t.build()), None);
    let s = SubsetDefinition::new(vec![], vec![Tag::new(b"liga")]);
    assert_eq!(intersecting_patches(&font, &s), Err(ReadError::OutOfBounds));
    // Not requested: the record's mappings are never read.
    let s = SubsetDefinition::new(vec![], vec![Tag::new(b"smcp")]);
    assert_eq!(intersecting_patches(&font, &s), Ok(vec![]));
}

#[test]
fn glyph_count_must_match_maxp() {
    let mut font = font_with(Some(Format1::simple().build()), None);
    font.maxp_num_glyphs = Some(8);
    assert_eq!(
        intersecting_patches(&font, &cps(&[0x11])),
        Err(ReadError::MalformedData(Malformation::GlyphCountMismatch))
    );
    font.maxp_num_glyphs = None;
    assert_eq!(intersecting_patches(&font, &cps(&[0x11])).unwrap().len(), 1);
}

#[test]
fn max_glyph_map_entry_index_within_max_entry_index() {
    let mut t = Format1::simple();
    t.max_glyph_map_entry = 3;
    let font = font_with(Some(t.build()), None);
    assert_eq!(
        intersecting_patches(&font, &cps(&[0x11])),
        Err(ReadError::MalformedData(Malformation::EntryIndexRange))
    );
}

#[test]
fn uri_template_must_be_utf8() {
    let mut t = Format1::simple();
    t.template = vec![b'a', 0xFF];
    let font = font_with(Some(t.build()), None);
    assert_eq!(
        intersecting_patches(&font, &cps(&[0x11])),
        Err(ReadError::MalformedData(Malformation::UriTemplate))
    );
}

#[test]
fn unrecognized_encoding() {
    let mut t = Format1::simple();
    t.encoding = 5;
    let font = font_with(Some(t.build()), None);
    assert_eq!(
        intersecting_patches(&font, &cps(&[0x11])),
        Err(ReadError::MalformedData(Malformation::UnrecognizedEncoding))
    );
}

#[test]
fn encodings_by_format_number() {
    assert_eq!(
        PatchEncoding::from_format_number(1),
        Some(PatchEncoding::TableKeyed {
            fully_invalidating: true
        })
    );
    assert_eq!(
        PatchEncoding::from_format_number(2),
        Some(PatchEncoding::TableKeyed {
            fully_invalidating: true
        })
    );
    assert_eq!(
        PatchEncoding::from_format_number(3),
        Some(PatchEncoding::TableKeyed {
            fully_invalidating: false
        })
    );
    assert_eq!(
        PatchEncoding::from_format_number(4),
        Some(PatchEncoding::GlyphKeyed)
    );
    assert_eq!(PatchEncoding::from_format_number(0), None);
    assert_eq!(PatchEncoding::from_format_number(5), None);
}

#[test]
fn format_2_is_unsupported_and_other_formats_ignored() {
    let mut t = Format1::simple();
    t.format = 2;
    let font = font_with(Some(t.build()), None);
    assert_eq!(
        intersecting_patches(&font, &cps(&[0x11])),
        Err(ReadError::UnsupportedFormat(2))
    );
    let mut t = Format1::simple();
    t.format = 7;
    let font = font_with(Some(t.build()), Some(vec![]));
    assert_eq!(intersecting_patches(&font, &cps(&[0x11])), Ok(vec![]));
}

#[test]
fn both_tables_ift_first() {
    let mut x = Format1::simple();
    x.compat = [5, 6, 7, 8];
    x.applied = vec![];
    x.template = b"x/{id}".to_vec();
    let font = font_with(Some(Format1::simple().build()), Some(x.build()));
    let patches = intersecting_patches(&font, &cps(&[0x11, 0x12])).unwrap();
    let xcid = CompatibilityId::from_u32s([5, 6, 7, 8]);
    assert_eq!(
        patches,
        vec![
            glyph_keyed("ABCDEF\u{0264}", 2, IftTableTag::Ift(cid())),
            glyph_keyed("x/04", 1, IftTableTag::Iftx(xcid)),
            glyph_keyed("x/08", 2, IftTableTag::Iftx(xcid)),
        ]
    );
}

#[test]
fn an_error_drops_only_that_table() {
    let mut bad = Format1::simple();
    bad.encoding = 0;
    let good = Format1::simple().build();
    let expected = vec![glyph_keyed("ABCDEF\u{0264}", 2, IftTableTag::Ift(cid()))];

    // A bad IFTX table leaves the IFT patches.
    let font = font_with(Some(good.clone()), Some(bad.build()));
    assert_eq!(intersecting_patches(&font, &cps(&[0x11])), Ok(expected.clone()));

    // A bad IFT table leaves the IFTX patches.
    let mut x = Format1::simple();
    x.compat = [5, 6, 7, 8];
    let font = font_with(Some(bad.build()), Some(x.build()));
    let xcid = CompatibilityId::from_u32s([5, 6, 7, 8]);
    assert_eq!(
        intersecting_patches(&font, &cps(&[0x11])),
        Ok(vec![glyph_keyed("ABCDEF\u{0264}", 2, IftTableTag::Iftx(xcid))])
    );

    // When no table could be read the call fails, with the IFT error first.
    let mut bad_x = Format1::simple();
    bad_x.max_glyph_map_entry = 3;
    let font = font_with(Some(bad.build()), Some(bad_x.build()));
    assert_eq!(
        intersecting_patches(&font, &cps(&[0x11])),
        Err(ReadError::MalformedData(Malformation::UnrecognizedEncoding))
    );
    let font = font_with(None, Some(bad_x.build()));
    assert_eq!(
        intersecting_patches(&font, &cps(&[0x11])),
        Err(ReadError::MalformedData(Malformation::EntryIndexRange))
    );
}

#[test]
fn emitted_entries_are_never_zero_or_applied() {
    let mut t = Format1::simple();
    t.applied = vec![2];
    let font = font_with(Some(t.build()), None);
    let patches = intersecting_patches(&font, &cps(&[0x11, 0x12, 0x13])).unwrap();
    assert_eq!(patches.len(), 1);
    assert_eq!(patches[0].entry_index, 1);
}

#[test]
fn select_next_patches_no_intersection() {
    let font = font_with(Some(Format1::simple().build()), None);
    let g = PatchGroup::select_next_patches(font, &cps(&[55])).unwrap();
    assert!(!g.has_uris());
    assert_eq!(g.uris(), Vec::<String>::default());
    assert!(g.patches().is_none());
}

#[test]
fn select_next_patches_uses_table_compat_ids() {
    let mut t = Format1::simple();
    t.applied = vec![];
    t.template = b"//foo.bar/{id}".to_vec();
    t.encoding = 3;
    let font = font_with(Some(t.build()), None);
    let g = PatchGroup::select_next_patches(font, &cps(&[0x11, 0x12])).unwrap();
    // Both partial patches match the IFT table's id; the first one wins.
    assert_eq!(g.uris(), vec!["//foo.bar/04"]);
}

#[test]
fn table_compatibility_ids() {
    let table = Some(Format1::simple().build());
    assert_eq!(
        incremental_font_transfer::patchmap::table_compatibility_id(&table),
        Some(cid())
    );
    assert_eq!(
        incremental_font_transfer::patchmap::table_compatibility_id(&None),
        None
    );
}

#[test]
fn tag_bytes_order() {
    assert_eq!(Tag::new(b"liga").value, 0x6c69_6761);
    assert!(Tag::new(b"dlig") < Tag::new(b"liga"));
}

#[test]
fn select_next_patches_keeps_readable_table() {
    let mut bad = Format1::simple();
    bad.encoding = 9;
    let mut x = Format1::simple();
    x.applied = vec![];
    x.template = b"x/{id}".to_vec();
    let font = font_with(Some(bad.build()), Some(x.build()));
    let g = PatchGroup::select_next_patches(font, &cps(&[0x11, 0x12])).unwrap();
    assert_eq!(g.uris(), vec!["x/04", "x/08"]);
}
