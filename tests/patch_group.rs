use std::cell::RefCell;
use std::collections::HashMap;

use incremental_font_transfer::{
    CompatibilityId, CompatibleGroup, FullInvalidationPatch, IftFont, IftTableTag,
    NoInvalidationPatch, PartialInvalidationPatch, PatchApplier, PatchEncoding, PatchGroup,
    PatchInfo, PatchUri, PatchingError, ScopedGroup, SubsetDefinition, UriStatus, UriStatusMap,
};

fn cid_1() -> CompatibilityId {
    CompatibilityId::from_u32s([0, 0, 0, 1])
}

fn cid_2() -> CompatibilityId {
    CompatibilityId::from_u32s([0, 0, 0, 2])
}

fn p1_full() -> PatchUri {
    PatchUri::from_index(
        "//foo.bar/{id}",
        1,
        &IftTableTag::Ift(cid_1()),
        PatchEncoding::TableKeyed {
            fully_invalidating: true,
        },
    )
}

fn p2_partial_c1() -> PatchUri {
    PatchUri::from_index(
        "//foo.bar/{id}",
        2,
        &IftTableTag::Ift(cid_1()),
        PatchEncoding::TableKeyed {
            fully_invalidating: false,
        },
    )
}

fn p2_partial_c2() -> PatchUri {
    PatchUri::from_index(
        "//foo.bar/{id}",
        2,
        &IftTableTag::Iftx(cid_2()),
        PatchEncoding::TableKeyed {
            fully_invalidating: false,
        },
    )
}

fn p2_no_c2() -> PatchUri {
    PatchUri::from_index(
        "//foo.bar/{id}",
        2,
        &IftTableTag::Iftx(cid_2()),
        PatchEncoding::GlyphKeyed,
    )
}

fn p2_partial_c2_ift() -> PatchUri {
    PatchUri::from_index(
        "//foo.bar/{id}",
        2,
        &IftTableTag::Ift(cid_2()),
        PatchEncoding::TableKeyed {
            fully_invalidating: false,
        },
    )
}

fn p3_partial_c2() -> PatchUri {
    PatchUri::from_index(
        "//foo.bar/{id}",
        3,
        &IftTableTag::Iftx(cid_2()),
        PatchEncoding::TableKeyed {
            fully_invalidating: false,
        },
    )
}

fn p3_no_c1() -> PatchUri {
    PatchUri::from_index(
        "//foo.bar/{id}",
        3,
        &IftTableTag::Ift(cid_1()),
        PatchEncoding::GlyphKeyed,
    )
}

fn p4_no_c1() -> PatchUri {
    PatchUri::from_index(
        "//foo.bar/{id}",
        4,
        &IftTableTag::Ift(cid_1()),
        PatchEncoding::GlyphKeyed,
    )
}

fn p4_no_c2() -> PatchUri {
    PatchUri::from_index(
        "//foo.bar/{id}",
        4,
        &IftTableTag::Iftx(cid_2()),
        PatchEncoding::GlyphKeyed,
    )
}

fn p5_no_c2() -> PatchUri {
    PatchUri::from_index(
        "//foo.bar/{id}",
        5,
        &IftTableTag::Iftx(cid_2()),
        PatchEncoding::GlyphKeyed,
    )
}

fn patch_info_ift(uri: &str) -> PatchInfo {
    PatchInfo {
        uri: uri.to_string(),
        source_table: IftTableTag::Ift(cid_1()),
    }
}

fn patch_info_ift_c2(uri: &str) -> PatchInfo {
    PatchInfo {
        uri: uri.to_string(),
        source_table: IftTableTag::Ift(cid_2()),
    }
}

fn patch_info_iftx(uri: &str) -> PatchInfo {
    PatchInfo {
        uri: uri.to_string(),
        source_table: IftTableTag::Iftx(cid_2()),
    }
}

fn select(
    candidates: Vec<PatchUri>,
    ift: Option<CompatibilityId>,
    iftx: Option<CompatibilityId>,
) -> CompatibleGroup {
    PatchGroup::select_next_patches_from_candidates(candidates, ift, iftx).unwrap()
}

#[test]
fn full_invalidation() {
    let group = select(vec![p1_full()], Some(cid_1()), Some(cid_2()));

    assert_eq!(
        group,
        CompatibleGroup::Full(FullInvalidationPatch(patch_info_ift("//foo.bar/04")))
    );

    let group = select(
        vec![
            p1_full(),
            p2_partial_c1(),
            p3_partial_c2(),
            p4_no_c1(),
            p5_no_c2(),
        ],
        Some(cid_1()),
        Some(cid_2()),
    );

    assert_eq!(
        group,
        CompatibleGroup::Full(FullInvalidationPatch(patch_info_ift("//foo.bar/04"),))
    );
}

#[test]
fn mixed() {
    // (partial, no inval)
    let group = select(
        vec![p2_partial_c1(), p4_no_c1(), p5_no_c2()],
        Some(cid_1()),
        Some(cid_2()),
    );

    assert_eq!(
        group,
        CompatibleGroup::Mixed {
            ift: ScopedGroup::PartialInvalidation(PartialInvalidationPatch(patch_info_ift(
                "//foo.bar/08"
            ),)),
            iftx: ScopedGroup::NoInvalidation(vec![NoInvalidationPatch(patch_info_iftx(
                "//foo.bar/0K"
            ))])
        }
    );

    // (no inval, partial)
    let group = select(
        vec![p3_partial_c2(), p4_no_c1(), p5_no_c2()],
        Some(cid_1()),
        Some(cid_2()),
    );

    assert_eq!(
        group,
        CompatibleGroup::Mixed {
            ift: ScopedGroup::NoInvalidation(vec![NoInvalidationPatch(patch_info_ift(
                "//foo.bar/0G"
            ))]),
            iftx: ScopedGroup::PartialInvalidation(PartialInvalidationPatch(patch_info_iftx(
                "//foo.bar/0C"
            ),))
        }
    );

    // (partial, empty)
    let group = select(
        vec![p2_partial_c1(), p4_no_c1()],
        Some(cid_1()),
        Some(cid_2()),
    );

    assert_eq!(
        group,
        CompatibleGroup::Mixed {
            ift: ScopedGroup::PartialInvalidation(PartialInvalidationPatch(patch_info_ift(
                "//foo.bar/08"
            ),)),
            iftx: ScopedGroup::NoInvalidation(vec![]),
        }
    );

    // (empty, partial)
    let group = select(
        vec![p3_partial_c2(), p5_no_c2()],
        Some(cid_1()),
        Some(cid_2()),
    );

    assert_eq!(
        group,
        CompatibleGroup::Mixed {
            ift: ScopedGroup::NoInvalidation(vec![]),
            iftx: ScopedGroup::PartialInvalidation(PartialInvalidationPatch(patch_info_iftx(
                "//foo.bar/0C"
            ),)),
        }
    );
}

#[test]
fn missing_compat_ids() {
    // (None, None)
    let group = select(vec![p2_partial_c1(), p4_no_c1(), p5_no_c2()], None, None);

    assert_eq!(
        group,
        CompatibleGroup::Mixed {
            ift: ScopedGroup::NoInvalidation(vec![]),
            iftx: ScopedGroup::NoInvalidation(vec![]),
        }
    );

    // (Some, None)
    let group = select(
        vec![p2_partial_c1(), p4_no_c1(), p5_no_c2()],
        Some(cid_1()),
        None,
    );

    assert_eq!(
        group,
        CompatibleGroup::Mixed {
            ift: ScopedGroup::PartialInvalidation(PartialInvalidationPatch(patch_info_ift(
                "//foo.bar/08"
            ),)),
            iftx: ScopedGroup::NoInvalidation(vec![]),
        }
    );

    // (None, Some)
    let group = select(
        vec![p2_partial_c1(), p4_no_c1(), p5_no_c2()],
        None,
        Some(cid_1()),
    );

    assert_eq!(
        group,
        CompatibleGroup::Mixed {
            ift: ScopedGroup::NoInvalidation(vec![]),
            iftx: ScopedGroup::PartialInvalidation(PartialInvalidationPatch(patch_info_ift(
                "//foo.bar/08"
            ),)),
        }
    );
}

#[test]
fn tables_have_same_compat_id() {
    let group = select(
        vec![
            p2_partial_c1(),
            p2_partial_c2_ift(),
            p3_partial_c2(),
            p4_no_c1(),
            p5_no_c2(),
        ],
        Some(cid_2()),
        Some(cid_2()),
    );

    assert_eq!(
        group,
        CompatibleGroup::Mixed {
            ift: ScopedGroup::PartialInvalidation(PartialInvalidationPatch(patch_info_ift_c2(
                "//foo.bar/08"
            ),)),
            iftx: ScopedGroup::NoInvalidation(vec![]),
        }
    );

    // Check that input order determines the winner.
    let group = select(
        vec![
            p2_partial_c1(),
            p3_partial_c2(),
            p2_partial_c2_ift(),
            p4_no_c1(),
            p5_no_c2(),
        ],
        Some(cid_2()),
        Some(cid_2()),
    );

    assert_eq!(
        group,
        CompatibleGroup::Mixed {
            ift: ScopedGroup::PartialInvalidation(PartialInvalidationPatch(patch_info_iftx(
                "//foo.bar/0C"
            ),)),
            iftx: ScopedGroup::NoInvalidation(vec![]),
        }
    );
}

#[test]
fn dedups_uris() {
    // Duplicates inside a scope
    let group = select(vec![p4_no_c1(), p4_no_c1()], Some(cid_1()), Some(cid_2()));

    assert_eq!(
        group,
        CompatibleGroup::Mixed {
            ift: ScopedGroup::NoInvalidation(vec![NoInvalidationPatch(patch_info_ift(
                "//foo.bar/0G"
            ))]),
            iftx: ScopedGroup::NoInvalidation(vec![]),
        }
    );

    // Duplicates across scopes (no invalidation + no invalidation)
    let group = select(
        vec![p4_no_c1(), p4_no_c2(), p5_no_c2()],
        Some(cid_1()),
        Some(cid_2()),
    );

    assert_eq!(
        group,
        CompatibleGroup::Mixed {
            ift: ScopedGroup::NoInvalidation(vec![NoInvalidationPatch(patch_info_ift(
                "//foo.bar/0G"
            ))]),
            iftx: ScopedGroup::NoInvalidation(vec![NoInvalidationPatch(patch_info_iftx(
                "//foo.bar/0K"
            ))]),
        }
    );

    // Duplicates across scopes (partial + partial)
    let group = select(
        vec![p2_partial_c1(), p2_partial_c2(), p3_partial_c2()],
        Some(cid_1()),
        Some(cid_2()),
    );

    assert_eq!(
        group,
        CompatibleGroup::Mixed {
            ift: ScopedGroup::PartialInvalidation(PartialInvalidationPatch(patch_info_ift(
                "//foo.bar/08"
            ))),
            iftx: ScopedGroup::PartialInvalidation(PartialInvalidationPatch(patch_info_iftx(
                "//foo.bar/0C"
            ))),
        }
    );

    // Duplicates across scopes (partial + no invalidation)
    let group = select(
        vec![p2_partial_c1(), p2_no_c2(), p5_no_c2()],
        Some(cid_1()),
        Some(cid_2()),
    );

    assert_eq!(
        group,
        CompatibleGroup::Mixed {
            ift: ScopedGroup::PartialInvalidation(PartialInvalidationPatch(patch_info_ift(
                "//foo.bar/08"
            ))),
            iftx: ScopedGroup::NoInvalidation(vec![NoInvalidationPatch(patch_info_iftx(
                "//foo.bar/0K"
            ))]),
        }
    );

    let group = select(
        vec![p3_partial_c2(), p3_no_c1(), p4_no_c1()],
        Some(cid_1()),
        Some(cid_2()),
    );

    assert_eq!(
        group,
        CompatibleGroup::Mixed {
            ift: ScopedGroup::NoInvalidation(vec![NoInvalidationPatch(patch_info_ift(
                "//foo.bar/0G"
            ))]),
            iftx: ScopedGroup::PartialInvalidation(PartialInvalidationPatch(patch_info_iftx(
                "//foo.bar/0C"
            ))),
        }
    );
}

fn empty_font() -> IftFont {
    IftFont {
        data: b"font".to_vec(),
        ift: None,
        iftx: None,
        maxp_num_glyphs: None,
        charmap: HashMap::new(),
    }
}

fn create_group_for(uris: Vec<PatchUri>) -> PatchGroup {
    PatchGroup::from_candidates(empty_font(), uris, Some(cid_1()), Some(cid_2()))
}

fn empty_group() -> PatchGroup {
    // A font without patch map tables intersects nothing.
    let g = PatchGroup::select_next_patches(empty_font(), &SubsetDefinition::codepoints(vec![]))
        .unwrap();
    assert!(g.patches().is_none());
    g
}

#[test]
fn uris() {
    let g = create_group_for(vec![]);
    assert_eq!(g.uris(), Vec::<String>::default());
    assert!(!g.has_uris());

    let g = empty_group();
    assert_eq!(g.uris(), Vec::<String>::default());
    assert!(!g.has_uris());

    let g = create_group_for(vec![p1_full()]);
    assert_eq!(g.uris(), vec!["//foo.bar/04"],);
    assert!(g.has_uris());

    let g = create_group_for(vec![p2_partial_c1(), p3_partial_c2()]);
    assert_eq!(g.uris(), vec!["//foo.bar/08", "//foo.bar/0C"]);
    assert!(g.has_uris());

    let g = create_group_for(vec![p2_partial_c1()]);
    assert_eq!(g.uris(), vec!["//foo.bar/08",],);
    assert!(g.has_uris());

    let g = create_group_for(vec![p3_partial_c2()]);
    assert_eq!(g.uris(), vec!["//foo.bar/0C"],);
    assert!(g.has_uris());

    let g = create_group_for(vec![p2_partial_c1(), p4_no_c2(), p5_no_c2()]);
    assert_eq!(
        g.uris(),
        vec!["//foo.bar/08", "//foo.bar/0G", "//foo.bar/0K"],
    );
    assert!(g.has_uris());

    let g = create_group_for(vec![p3_partial_c2(), p4_no_c1()]);
    assert_eq!(g.uris(), vec!["//foo.bar/0C", "//foo.bar/0G"],);

    let g = create_group_for(vec![p4_no_c1(), p5_no_c2()]);
    assert_eq!(g.uris(), vec!["//foo.bar/0G", "//foo.bar/0K"],);
    assert!(g.has_uris());
}

#[test]
fn no_invalidation_patches_are_ordered_by_uri() {
    let group = select(
        vec![p5_no_c2(), p4_no_c1(), p3_no_c1()],
        Some(cid_1()),
        Some(cid_2()),
    );
    assert_eq!(
        group,
        CompatibleGroup::Mixed {
            ift: ScopedGroup::NoInvalidation(vec![
                NoInvalidationPatch(patch_info_ift("//foo.bar/0C")),
                NoInvalidationPatch(patch_info_ift("//foo.bar/0G")),
            ]),
            iftx: ScopedGroup::NoInvalidation(vec![NoInvalidationPatch(patch_info_iftx(
                "//foo.bar/0K"
            ))]),
        }
    );
}

#[test]
fn later_duplicate_replaces_earlier() {
    let other_table = PatchUri::from_index(
        "//foo.bar/{id}",
        4,
        &IftTableTag::Iftx(cid_1()),
        PatchEncoding::GlyphKeyed,
    );
    let group = select(vec![p4_no_c1(), other_table], Some(cid_1()), Some(cid_2()));
    assert_eq!(
        group,
        CompatibleGroup::Mixed {
            ift: ScopedGroup::NoInvalidation(vec![NoInvalidationPatch(PatchInfo {
                uri: "//foo.bar/0G".to_string(),
                source_table: IftTableTag::Iftx(cid_1()),
            })]),
            iftx: ScopedGroup::NoInvalidation(vec![]),
        }
    );
}

#[test]
fn stale_partial_patches_are_dropped() {
    let group = select(vec![p3_partial_c2()], Some(cid_1()), None);
    assert_eq!(
        group,
        CompatibleGroup::Mixed {
            ift: ScopedGroup::NoInvalidation(vec![]),
            iftx: ScopedGroup::NoInvalidation(vec![]),
        }
    );
}

#[test]
fn selection_is_deterministic() {
    let candidates = || {
        vec![
            p2_partial_c1(),
            p3_partial_c2(),
            p4_no_c1(),
            p4_no_c2(),
            p5_no_c2(),
        ]
    };
    let a = select(candidates(), Some(cid_1()), Some(cid_2()));
    let b = select(candidates(), Some(cid_1()), Some(cid_2()));
    assert_eq!(a, b);
}

#[test]
fn selected_uris_are_distinct() {
    let g = create_group_for(vec![
        p2_partial_c1(),
        p2_no_c2(),
        p4_no_c1(),
        p4_no_c2(),
        p5_no_c2(),
    ]);
    let uris = g.uris();
    assert_eq!(uris, vec!["//foo.bar/08", "//foo.bar/0G", "//foo.bar/0K"]);
    let g = create_group_for(vec![p4_no_c1(), p4_no_c2(), p3_no_c1()]);
    assert_eq!(g.uris(), vec!["//foo.bar/0C", "//foo.bar/0G"]);
}

#[test]
fn from_patch_uri_keeps_uri_and_table() {
    let info = PatchInfo::from(p3_partial_c2());
    assert_eq!(info, patch_info_iftx("//foo.bar/0C"));
    assert_eq!(info.tag(), &IftTableTag::Iftx(cid_2()));
}

/// Records what it is asked to apply; the new font is the old one followed
/// by the patch data.
#[derive(Default)]
struct RecordingApplier {
    table_keyed: RefCell<Vec<String>>,
    glyph_keyed: RefCell<Vec<Vec<String>>>,
    fail: bool,
}

impl PatchApplier for RecordingApplier {
    fn apply_table_keyed_patch(
        &self,
        font: &Vec<u8>,
        patch: &PatchInfo,
        data: &Vec<u8>,
    ) -> Result<Vec<u8>, PatchingError> {
        if self.fail {
            return Err(PatchingError::PatchApplicationFailed("rejected"));
        }
        self.table_keyed.borrow_mut().push(patch.uri.clone());
        let mut r = font.clone();
        r.extend_from_slice(data);
        Ok(r)
    }

    fn apply_glyph_keyed_patches(
        &self,
        font: &Vec<u8>,
        patches: &Vec<(&PatchInfo, &Vec<u8>)>,
    ) -> Result<Vec<u8>, PatchingError> {
        if self.fail {
            return Err(PatchingError::PatchApplicationFailed("rejected"));
        }
        self.glyph_keyed
            .borrow_mut()
            .push(patches.iter().map(|(p, _)| p.uri.clone()).collect());
        let mut r = font.clone();
        for (_, data) in patches {
            r.extend_from_slice(data);
        }
        Ok(r)
    }
}

fn status(entries: &[(&str, Option<&[u8]>)]) -> UriStatusMap {
    let mut m = UriStatusMap::new();
    for (uri, data) in entries {
        let s = match data {
            Some(d) => UriStatus::Pending(d.to_vec()),
            None => UriStatus::Applied,
        };
        m.insert(uri.to_string(), s);
    }
    m
}

#[test]
fn apply_full_invalidation() {
    let g = create_group_for(vec![p1_full()]);
    let mut data = status(&[("//foo.bar/04", Some(b"-p1")), ("other", Some(b"x"))]);
    let applier = RecordingApplier::default();
    let font = g.apply_next_patches(&applier, &mut data).unwrap();
    assert_eq!(font, b"font-p1".to_vec());
    assert_eq!(data.get("//foo.bar/04"), Some(&UriStatus::Applied));
    assert_eq!(data.get("other"), Some(&UriStatus::Pending(b"x".to_vec())));
    assert_eq!(data.len(), 2);
}

#[test]
fn apply_partial_invalidation_only_one_step() {
    let g = create_group_for(vec![p2_partial_c1(), p3_partial_c2(), p4_no_c1()]);
    let mut data = status(&[
        ("//foo.bar/08", Some(b"-p2")),
        ("//foo.bar/0C", Some(b"-p3")),
        ("//foo.bar/0G", Some(b"-p4")),
    ]);
    let applier = RecordingApplier::default();
    let font = g.apply_next_patches(&applier, &mut data).unwrap();
    assert_eq!(font, b"font-p2".to_vec());
    assert_eq!(*applier.table_keyed.borrow(), vec!["//foo.bar/08".to_string()]);
    assert!(applier.glyph_keyed.borrow().is_empty());
    assert_eq!(data.get("//foo.bar/08"), Some(&UriStatus::Applied));
    assert_eq!(data.get("//foo.bar/0C"), Some(&UriStatus::Pending(b"-p3".to_vec())));
    assert_eq!(data.get("//foo.bar/0G"), Some(&UriStatus::Pending(b"-p4".to_vec())));
}

#[test]
fn apply_skips_applied_invalidating_patch() {
    let g = create_group_for(vec![p3_partial_c2(), p4_no_c1()]);
    let mut data = status(&[("//foo.bar/0C", None), ("//foo.bar/0G", Some(b"-p4"))]);
    let applier = RecordingApplier::default();
    let font = g.apply_next_patches(&applier, &mut data).unwrap();
    assert_eq!(font, b"font-p4".to_vec());
    assert!(applier.table_keyed.borrow().is_empty());
    assert_eq!(
        *applier.glyph_keyed.borrow(),
        vec![vec!["//foo.bar/0G".to_string()]]
    );
    assert_eq!(data.get("//foo.bar/0G"), Some(&UriStatus::Applied));
}

#[test]
fn apply_all_no_invalidation_in_one_pass() {
    let g = create_group_for(vec![p3_no_c1(), p4_no_c1(), p5_no_c2()]);
    let mut data = status(&[
        ("//foo.bar/0C", Some(b"-p3")),
        ("//foo.bar/0G", None),
        ("//foo.bar/0K", Some(b"-p5")),
        ("unrelated", Some(b"u")),
    ]);
    let applier = RecordingApplier::default();
    let font = g.apply_next_patches(&applier, &mut data).unwrap();
    assert_eq!(font, b"font-p3-p5".to_vec());
    assert_eq!(
        *applier.glyph_keyed.borrow(),
        vec![vec!["//foo.bar/0C".to_string(), "//foo.bar/0K".to_string()]]
    );
    assert_eq!(data.get("//foo.bar/0C"), Some(&UriStatus::Applied));
    assert_eq!(data.get("//foo.bar/0G"), Some(&UriStatus::Applied));
    assert_eq!(data.get("//foo.bar/0K"), Some(&UriStatus::Applied));
    assert_eq!(data.get("unrelated"), Some(&UriStatus::Pending(b"u".to_vec())));
}

#[test]
fn apply_all_applied_is_empty_patch_list() {
    let g = create_group_for(vec![p2_partial_c1(), p4_no_c1()]);
    let mut data = status(&[("//foo.bar/08", None), ("//foo.bar/0G", None)]);
    let applier = RecordingApplier::default();
    assert_eq!(
        g.apply_next_patches(&applier, &mut data),
        Err(PatchingError::EmptyPatchList)
    );

    let g = empty_group();
    let mut data = UriStatusMap::new();
    assert_eq!(
        g.apply_next_patches(&applier, &mut data),
        Err(PatchingError::EmptyPatchList)
    );
}

#[test]
fn apply_missing_patches() {
    let g = create_group_for(vec![p1_full()]);
    let mut data = UriStatusMap::new();
    let applier = RecordingApplier::default();
    assert_eq!(
        g.apply_next_patches(&applier, &mut data),
        Err(PatchingError::MissingPatches)
    );
    assert_eq!(data.len(), 0);

    let g = create_group_for(vec![p4_no_c1(), p5_no_c2()]);
    let mut data = status(&[("//foo.bar/0G", Some(b"-p4"))]);
    assert_eq!(
        g.apply_next_patches(&applier, &mut data),
        Err(PatchingError::MissingPatches)
    );
    assert_eq!(data.get("//foo.bar/0G"), Some(&UriStatus::Pending(b"-p4".to_vec())));
}

#[test]
fn apply_failure_changes_no_status() {
    let applier = RecordingApplier {
        fail: true,
        ..Default::default()
    };
    let g = create_group_for(vec![p1_full()]);
    let mut data = status(&[("//foo.bar/04", Some(b"-p1"))]);
    assert_eq!(
        g.apply_next_patches(&applier, &mut data),
        Err(PatchingError::PatchApplicationFailed("rejected"))
    );
    assert_eq!(data.get("//foo.bar/04"), Some(&UriStatus::Pending(b"-p1".to_vec())));

    let g = create_group_for(vec![p4_no_c1()]);
    let mut data = status(&[("//foo.bar/0G", Some(b"-p4"))]);
    assert_eq!(
        g.apply_next_patches(&applier, &mut data),
        Err(PatchingError::PatchApplicationFailed("rejected"))
    );
    assert_eq!(data.get("//foo.bar/0G"), Some(&UriStatus::Pending(b"-p4".to_vec())));
}

#[test]
fn pending_patches_excludes_applied() {
    let g = create_group_for(vec![p3_no_c1(), p4_no_c1(), p5_no_c2()]);
    let data = status(&[
        ("//foo.bar/0C", None),
        ("//foo.bar/0G", Some(b"-p4")),
        ("//foo.bar/0K", Some(b"-p5")),
    ]);
    let batch = g.pending_patches(&data).unwrap();
    let uris: Vec<&str> = batch.iter().map(|(p, _)| p.uri.as_str()).collect();
    assert_eq!(uris, vec!["//foo.bar/0G", "//foo.bar/0K"]);
    assert_eq!(*batch[0].1, b"-p4".to_vec());
}

#[test]
fn full_patch_selected_then_applied() {
    let g = create_group_for(vec![p1_full()]);
    assert_eq!(
        *g.patches(),
        Some(CompatibleGroup::Full(FullInvalidationPatch(patch_info_ift(
            "//foo.bar/04"
        ))))
    );
    let group = select(vec![p1_full()], None, None);
    assert_eq!(
        group,
        CompatibleGroup::Full(FullInvalidationPatch(patch_info_ift("//foo.bar/04")))
    );
    let g = PatchGroup::from_candidates(empty_font(), vec![p1_full()], None, None);
    assert_eq!(*g.patches(), Some(group));
    assert_eq!(g.font().data, b"font".to_vec());
    let mut data = status(&[("//foo.bar/04", Some(b"-bytes"))]);
    let font = g
        .apply_next_patches(&RecordingApplier::default(), &mut data)
        .unwrap();
    assert_eq!(font, b"font-bytes".to_vec());
    assert_eq!(data.get("//foo.bar/04"), Some(&UriStatus::Applied));
    assert_eq!(data.len(), 1);
}

#[test]
fn partial_patch_drops_same_scope_glyph_keyed() {
    let u2 = p2_partial_c1();
    let u4 = p4_no_c1();
    let u5 = p5_no_c2();
    let group = select(vec![u2, u4, u5], Some(cid_1()), Some(cid_2()));
    assert_eq!(
        group,
        CompatibleGroup::Mixed {
            ift: ScopedGroup::PartialInvalidation(PartialInvalidationPatch(patch_info_ift(
                "//foo.bar/08"
            ))),
            iftx: ScopedGroup::NoInvalidation(vec![NoInvalidationPatch(patch_info_iftx(
                "//foo.bar/0K"
            ))]),
        }
    );
}
