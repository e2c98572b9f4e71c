//! Selection of a group of patches that can be applied together.
use vstd::prelude::*;
use vstd::utf8::encode_utf8;

use crate::order::{compare_bytes, lemma_lex_total, lemma_lex_transitive, lex_lt};
use crate::error::ReadError;
use crate::patchmap::{
    are_candidates, intersecting_patches, intersection_error, table_compat_id, table_compatibility_id,
    CompatibilityId, IftFont, IftTableTag, PatchEncoding, PatchUri, Scope, SubsetDefinition,
};

verus! {

broadcast use vstd::utf8::encode_utf8_decode_utf8;

/// What is kept of a patch once it has been selected: its URI and the table
/// it came from.
#[derive(PartialEq, Eq, Debug)]
pub struct PatchInfo {
    pub uri: String,
    pub source_table: IftTableTag,
}

impl PatchInfo {
    /// The table the patch came from.
    pub fn tag(&self) -> (r: &IftTableTag)
        ensures
            *r == self.source_table,
    {
        &self.source_table
    }
}

impl From<PatchUri> for PatchInfo {
    fn from(value: PatchUri) -> PatchInfo {
        PatchInfo { uri: value.uri, source_table: value.source_table }
    }
}

impl vstd::std_specs::convert::FromSpecImpl<PatchUri> for PatchInfo {
    open spec fn obeys_from_spec() -> bool {
        true
    }

    open spec fn from_spec(v: PatchUri) -> PatchInfo {
        info_of(v)
    }
}

/// A patch that invalidates no other patch.
#[derive(PartialEq, Eq, Debug)]
pub struct NoInvalidationPatch(pub PatchInfo);

/// A patch that invalidates the other patches of its own scope.
#[derive(PartialEq, Eq, Debug)]
pub struct PartialInvalidationPatch(pub PatchInfo);

/// A patch that invalidates every other patch.
#[derive(PartialEq, Eq, Debug)]
pub struct FullInvalidationPatch(pub PatchInfo);

/// Zero or more compatible patches of one scope ("IFT " or "IFTX").
///
/// The patches of `NoInvalidation` are ordered by URI, each URI once.
#[derive(PartialEq, Eq, Debug)]
pub enum ScopedGroup {
    PartialInvalidation(PartialInvalidationPatch),
    NoInvalidation(Vec<NoInvalidationPatch>),
}

/// A group of patches that can be applied together to a font.
#[derive(PartialEq, Eq, Debug)]
pub enum CompatibleGroup {
    Full(FullInvalidationPatch),
    Mixed { ift: ScopedGroup, iftx: ScopedGroup },
}

/// A group of patches selected from one font, with that font.
///
/// The group is always well formed: only selection makes one.
pub struct PatchGroup {
    pub(crate) font: IftFont,
    pub(crate) patches: Option<CompatibleGroup>,
}

/// The byte string by which a URI is ordered.
pub open spec fn uri_key(uri: Seq<char>) -> Seq<u8> {
    encode_utf8(uri)
}

/// The patches are in strictly increasing URI order.
pub open spec fn sorted_by_uri(v: Seq<NoInvalidationPatch>) -> bool {
    forall|i: int, j: int|
        0 <= i < j < v.len() ==> lex_lt(uri_key(#[trigger] v[i].0.uri@), uri_key(#[trigger] v[j].0.uri@))
}

/// The patches are exactly the values of `m`, each under its URI.
pub open spec fn holds_exactly(v: Seq<NoInvalidationPatch>, m: Map<Seq<char>, PatchInfo>) -> bool {
    &&& forall|i: int|
        0 <= i < v.len() ==> m.contains_key(#[trigger] v[i].0.uri@) && m[v[i].0.uri@] == v[i].0
    &&& forall|k: Seq<char>|
        #[trigger] m.contains_key(k) ==> exists|i: int| 0 <= i < v.len() && v[i].0.uri@ == k
}

/// What a candidate leaves once selected.
pub open spec fn info_of(p: PatchUri) -> PatchInfo {
    PatchInfo { uri: p.uri, source_table: p.source_table }
}

/// The scope a candidate is assigned to by the compatibility id it expects:
/// the IFT scope if it matches the IFT table's id, else the IFTX scope if it
/// matches that table's id, else none (it is stale).
pub open spec fn scope_of(
    p: PatchUri,
    ift_id: Option<CompatibilityId>,
    iftx_id: Option<CompatibilityId>,
) -> Option<Scope> {
    if ift_id == Some(p.source_table.spec_compatibility_id()) {
        Some(Scope::Ift)
    } else if iftx_id == Some(p.source_table.spec_compatibility_id()) {
        Some(Scope::Iftx)
    } else {
        None
    }
}

/// The fully invalidating candidates, in input order.
pub open spec fn full_candidates(c: Seq<PatchUri>) -> Seq<PatchInfo>
    decreases c.len(),
{
    if c.len() == 0 {
        seq![]
    } else {
        let rest = full_candidates(c.drop_last());
        if c.last().encoding == (PatchEncoding::TableKeyed { fully_invalidating: true }) {
            rest.push(info_of(c.last()))
        } else {
            rest
        }
    }
}

/// The partially invalidating candidates assigned to `scope`, in input order.
pub open spec fn partial_candidates(
    c: Seq<PatchUri>,
    ift_id: Option<CompatibilityId>,
    iftx_id: Option<CompatibilityId>,
    scope: Scope,
) -> Seq<PatchInfo>
    decreases c.len(),
{
    if c.len() == 0 {
        seq![]
    } else {
        let rest = partial_candidates(c.drop_last(), ift_id, iftx_id, scope);
        if c.last().encoding == (PatchEncoding::TableKeyed { fully_invalidating: false })
            && scope_of(c.last(), ift_id, iftx_id) == Some(scope) {
            rest.push(info_of(c.last()))
        } else {
            rest
        }
    }
}

/// The glyph keyed candidates assigned to `scope`, by URI; of candidates with
/// the same URI the last one counts.
pub open spec fn no_invalidation_candidates(
    c: Seq<PatchUri>,
    ift_id: Option<CompatibilityId>,
    iftx_id: Option<CompatibilityId>,
    scope: Scope,
) -> Map<Seq<char>, PatchInfo>
    decreases c.len(),
{
    if c.len() == 0 {
        Map::empty()
    } else {
        let rest = no_invalidation_candidates(c.drop_last(), ift_id, iftx_id, scope);
        if c.last().encoding == PatchEncoding::GlyphKeyed && scope_of(c.last(), ift_id, iftx_id)
            == Some(scope) {
            rest.insert(c.last().uri@, info_of(c.last()))
        } else {
            rest
        }
    }
}

/// The first patch of `s` whose URI differs from that of `avoid`.
pub open spec fn first_avoiding(s: Seq<PatchInfo>, avoid: Option<PatchInfo>) -> Option<PatchInfo>
    decreases s.len(),
{
    if s.len() == 0 {
        None
    } else if avoid is Some && s[0].uri@ == avoid->0.uri@ {
        first_avoiding(s.drop_first(), avoid)
    } else {
        Some(s[0])
    }
}

/// The partially invalidating patch selected for the IFT scope: the first one.
pub open spec fn selected_ift(
    c: Seq<PatchUri>,
    ift_id: Option<CompatibilityId>,
    iftx_id: Option<CompatibilityId>,
) -> Option<PatchInfo> {
    let p = partial_candidates(c, ift_id, iftx_id, Scope::Ift);
    if p.len() > 0 {
        Some(p[0])
    } else {
        None
    }
}

/// The partially invalidating patch selected for the IFTX scope: the first
/// one whose URI is not the one selected for IFT.
pub open spec fn selected_iftx(
    c: Seq<PatchUri>,
    ift_id: Option<CompatibilityId>,
    iftx_id: Option<CompatibilityId>,
) -> Option<PatchInfo> {
    first_avoiding(
        partial_candidates(c, ift_id, iftx_id, Scope::Iftx),
        selected_ift(c, ift_id, iftx_id),
    )
}

/// The no-invalidation patches kept for the IFT scope: a URI selected as the
/// IFTX partial patch is left out.
pub open spec fn kept_ift(
    c: Seq<PatchUri>,
    ift_id: Option<CompatibilityId>,
    iftx_id: Option<CompatibilityId>,
) -> Map<Seq<char>, PatchInfo> {
    let m = no_invalidation_candidates(c, ift_id, iftx_id, Scope::Ift);
    match selected_iftx(c, ift_id, iftx_id) {
        Some(p) => m.remove(p.uri@),
        None => m,
    }
}

/// The no-invalidation patches kept for the IFTX scope: a URI selected as the
/// IFT partial patch is left out, and so is, when neither scope selected a
/// partial patch, every URI that the IFT scope keeps.
pub open spec fn kept_iftx(
    c: Seq<PatchUri>,
    ift_id: Option<CompatibilityId>,
    iftx_id: Option<CompatibilityId>,
) -> Map<Seq<char>, PatchInfo> {
    let m = no_invalidation_candidates(c, ift_id, iftx_id, Scope::Iftx);
    match selected_ift(c, ift_id, iftx_id) {
        Some(p) => m.remove(p.uri@),
        None => m.remove_keys(no_invalidation_candidates(c, ift_id, iftx_id, Scope::Ift).dom()),
    }
}

/// `g` is the scope group for selected partial patch `selected`, or else for
/// the no-invalidation patches `kept`.
pub open spec fn scoped_as(
    g: ScopedGroup,
    selected: Option<PatchInfo>,
    kept: Map<Seq<char>, PatchInfo>,
) -> bool {
    match selected {
        Some(p) => g == ScopedGroup::PartialInvalidation(PartialInvalidationPatch(p)),
        None => match g {
            ScopedGroup::NoInvalidation(v) => sorted_by_uri(v@) && holds_exactly(v@, kept),
            _ => false,
        },
    }
}

/// `g` is the group selected from candidates `c`, given the compatibility
/// ids of the two tables.
pub open spec fn selects(
    c: Seq<PatchUri>,
    ift_id: Option<CompatibilityId>,
    iftx_id: Option<CompatibilityId>,
    g: CompatibleGroup,
) -> bool {
    let full = full_candidates(c);
    if full.len() > 0 {
        g == CompatibleGroup::Full(FullInvalidationPatch(full[0]))
    } else {
        match g {
            CompatibleGroup::Mixed { ift, iftx } => {
                &&& scoped_as(ift, selected_ift(c, ift_id, iftx_id), kept_ift(c, ift_id, iftx_id))
                &&& scoped_as(
                    iftx,
                    selected_iftx(c, ift_id, iftx_id),
                    kept_iftx(c, ift_id, iftx_id),
                )
            },
            _ => false,
        }
    }
}

/// What a sequence of no-invalidation patches holds.
pub open spec fn infos_of(v: Seq<NoInvalidationPatch>) -> Seq<PatchInfo> {
    v.map_values(|x: NoInvalidationPatch| x.0)
}

/// The URIs of a sequence of patches.
pub open spec fn uris_of(s: Seq<PatchInfo>) -> Seq<Seq<char>> {
    s.map_values(|p: PatchInfo| p.uri@)
}

/// The invalidating patches of a scope group.
pub open spec fn scoped_invalidating(s: ScopedGroup) -> Seq<PatchInfo> {
    match s {
        ScopedGroup::PartialInvalidation(p) => seq![p.0],
        ScopedGroup::NoInvalidation(_) => seq![],
    }
}

/// The no-invalidation patches of a scope group, in order.
pub open spec fn scoped_no_invalidation(s: ScopedGroup) -> Seq<PatchInfo> {
    match s {
        ScopedGroup::PartialInvalidation(_) => seq![],
        ScopedGroup::NoInvalidation(v) => infos_of(v@),
    }
}

/// The invalidating patches of a group: the fully invalidating one, or the
/// partially invalidating ones of IFT then IFTX.
pub open spec fn group_invalidating(g: CompatibleGroup) -> Seq<PatchInfo> {
    match g {
        CompatibleGroup::Full(p) => seq![p.0],
        CompatibleGroup::Mixed { ift, iftx } => scoped_invalidating(ift) + scoped_invalidating(
            iftx,
        ),
    }
}

/// The no-invalidation patches of a group: those of IFT, then those of IFTX.
pub open spec fn group_no_invalidation(g: CompatibleGroup) -> Seq<PatchInfo> {
    match g {
        CompatibleGroup::Full(_) => seq![],
        CompatibleGroup::Mixed { ift, iftx } => scoped_no_invalidation(ift)
            + scoped_no_invalidation(iftx),
    }
}

/// The URIs of a group, invalidating patches first.
pub open spec fn group_uris(g: CompatibleGroup) -> Seq<Seq<char>> {
    uris_of(group_invalidating(g) + group_no_invalidation(g))
}

/// No element of `s` occurs twice.
pub open spec fn distinct<T>(s: Seq<T>) -> bool {
    forall|i: int, j: int| 0 <= i < j < s.len() ==> s[i] != s[j]
}

/// Two scope groups hold the same patches in the same roles and order.
pub open spec fn same_scoped(a: ScopedGroup, b: ScopedGroup) -> bool {
    match (a, b) {
        (ScopedGroup::PartialInvalidation(p), ScopedGroup::PartialInvalidation(q)) => p == q,
        (ScopedGroup::NoInvalidation(v), ScopedGroup::NoInvalidation(w)) => v@ == w@,
        _ => false,
    }
}

/// Two groups hold the same patches in the same roles and order.
pub open spec fn same_group(a: CompatibleGroup, b: CompatibleGroup) -> bool {
    match (a, b) {
        (CompatibleGroup::Full(p), CompatibleGroup::Full(q)) => p == q,
        (
            CompatibleGroup::Mixed { ift: i1, iftx: x1 },
            CompatibleGroup::Mixed { ift: i2, iftx: x2 },
        ) => same_scoped(i1, i2) && same_scoped(x1, x2),
        _ => false,
    }
}

/// The no-invalidation patches of a scope group are in strictly increasing
/// URI order.
pub open spec fn scope_sorted(s: ScopedGroup) -> bool {
    match s {
        ScopedGroup::NoInvalidation(v) => sorted_by_uri(v@),
        ScopedGroup::PartialInvalidation(_) => true,
    }
}

/// A well formed group: no URI occurs twice in it, and each scope's
/// no-invalidation patches are in strictly increasing URI order.
pub open spec fn group_well_formed(g: CompatibleGroup) -> bool {
    &&& distinct(group_uris(g))
    &&& match g {
        CompatibleGroup::Mixed { ift, iftx } => scope_sorted(ift) && scope_sorted(iftx),
        CompatibleGroup::Full(_) => true,
    }
}

/// A selected group is well formed.
pub proof fn lemma_select_well_formed(
    c: Seq<PatchUri>,
    ift_id: Option<CompatibilityId>,
    iftx_id: Option<CompatibilityId>,
    g: CompatibleGroup,
)
    requires
        selects(c, ift_id, iftx_id, g),
    ensures
        group_well_formed(g),
{
    lemma_select_distinct_uris(c, ift_id, iftx_id, g);
}

/// The patch that `first_avoiding` picks never has the avoided URI.
proof fn lemma_first_avoiding(s: Seq<PatchInfo>, avoid: Option<PatchInfo>)
    ensures
        first_avoiding(s, avoid) matches Some(p) ==> (avoid matches Some(a) ==> p.uri@
            != a.uri@),
    decreases s.len(),
{
    if s.len() > 0 {
        lemma_first_avoiding(s.drop_first(), avoid);
    }
}

/// URI ordered patches have distinct URIs.
proof fn lemma_sorted_distinct(v: Seq<NoInvalidationPatch>)
    requires
        sorted_by_uri(v),
    ensures
        distinct(uris_of(infos_of(v))),
{
    let u = uris_of(infos_of(v));
    assert forall|i: int, j: int| 0 <= i < j < u.len() implies u[i] != u[j] by {
        assert(u[i] == v[i].0.uri@ && u[j] == v[j].0.uri@);
        lemma_lex_total(uri_key(v[i].0.uri@), uri_key(v[j].0.uri@));
    }
}

/// Two sequences without repeats and without common elements join into one
/// without repeats.
proof fn lemma_concat_distinct(a: Seq<Seq<char>>, b: Seq<Seq<char>>)
    requires
        distinct(a),
        distinct(b),
        forall|i: int, j: int| 0 <= i < a.len() && 0 <= j < b.len() ==> a[i] != b[j],
    ensures
        distinct(a + b),
{
    assert forall|i: int, j: int| 0 <= i < j < (a + b).len() implies (a + b)[i] != (a + b)[j] by {
        if j < a.len() {
        } else if i < a.len() {
            assert((a + b)[j] == b[j - a.len()]);
        } else {
            assert((a + b)[i] == b[i - a.len()]);
            assert((a + b)[j] == b[j - a.len()]);
        }
    }
}

/// The URIs of a scope group's no-invalidation patches all lie in `m`.
proof fn lemma_kept_uris(v: Seq<NoInvalidationPatch>, m: Map<Seq<char>, PatchInfo>)
    requires
        holds_exactly(v, m),
    ensures
        forall|i: int| 0 <= i < v.len() ==> m.contains_key(#[trigger] uris_of(infos_of(v))[i]),
{
    assert forall|i: int| 0 <= i < v.len() implies m.contains_key(
        #[trigger] uris_of(infos_of(v))[i],
    ) by {
        assert(m.contains_key(v[i].0.uri@));
    }
}

/// A selected group never holds the same URI twice.
pub proof fn lemma_select_distinct_uris(
    c: Seq<PatchUri>,
    ift_id: Option<CompatibilityId>,
    iftx_id: Option<CompatibilityId>,
    g: CompatibleGroup,
)
    requires
        selects(c, ift_id, iftx_id, g),
    ensures
        distinct(group_uris(g)),
{
    match g {
        CompatibleGroup::Full(p) => {
            assert(group_uris(g).len() == 1);
        },
        CompatibleGroup::Mixed { ift, iftx } => {
            let si = selected_ift(c, ift_id, iftx_id);
            let sx = selected_iftx(c, ift_id, iftx_id);
            lemma_first_avoiding(partial_candidates(c, ift_id, iftx_id, Scope::Iftx), si);
            let a = uris_of(scoped_invalidating(ift) + scoped_invalidating(iftx));
            let b1 = uris_of(scoped_no_invalidation(ift));
            let b2 = uris_of(scoped_no_invalidation(iftx));
            assert(group_uris(g) =~= a + (b1 + b2));
            if let ScopedGroup::NoInvalidation(v) = ift {
                lemma_sorted_distinct(v@);
                lemma_kept_uris(v@, kept_ift(c, ift_id, iftx_id));
            } else {
                assert(b1 =~= seq![]);
            }
            if let ScopedGroup::NoInvalidation(w) = iftx {
                lemma_sorted_distinct(w@);
                lemma_kept_uris(w@, kept_iftx(c, ift_id, iftx_id));
            } else {
                assert(b2 =~= seq![]);
            }
            let ni = no_invalidation_candidates(c, ift_id, iftx_id, Scope::Ift);
            assert forall|i: int, j: int| 0 <= i < b1.len() && 0 <= j < b2.len() implies b1[i]
                != b2[j] by {
                assert(kept_iftx(c, ift_id, iftx_id).contains_key(b2[j]));
                assert(kept_ift(c, ift_id, iftx_id).contains_key(b1[i]));
                assert(ni.contains_key(b1[i]));
            }
            lemma_concat_distinct(b1, b2);
            assert forall|i: int, j: int| 0 <= i < a.len() && 0 <= j < (b1 + b2).len() implies a[i]
                != (b1 + b2)[j] by {
                if j < b1.len() {
                    assert((b1 + b2)[j] == b1[j]);
                    assert(kept_ift(c, ift_id, iftx_id).contains_key(b1[j]));
                } else {
                    assert((b1 + b2)[j] == b2[j - b1.len()]);
                    assert(kept_iftx(c, ift_id, iftx_id).contains_key(b2[j - b1.len()]));
                }
            }
            lemma_concat_distinct(a, b1 + b2);
        },
    }
}

/// A fully invalidating candidate makes the list of them non-empty.
proof fn lemma_full_candidates_found(c: Seq<PatchUri>, i: int)
    requires
        0 <= i < c.len(),
        c[i].encoding == (PatchEncoding::TableKeyed { fully_invalidating: true }),
    ensures
        full_candidates(c).len() > 0,
    decreases c.len(),
{
    if i < c.len() - 1 {
        lemma_full_candidates_found(c.drop_last(), i);
    }
}

/// When a fully invalidating candidate is present, the selected group is that
/// one patch alone: the first such candidate.
pub proof fn lemma_select_full_alone(
    c: Seq<PatchUri>,
    ift_id: Option<CompatibilityId>,
    iftx_id: Option<CompatibilityId>,
    g: CompatibleGroup,
    i: int,
)
    requires
        selects(c, ift_id, iftx_id, g),
        0 <= i < c.len(),
        c[i].encoding == (PatchEncoding::TableKeyed { fully_invalidating: true }),
    ensures
        g == CompatibleGroup::Full(FullInvalidationPatch(full_candidates(c)[0])),
        group_uris(g).len() == 1,
        group_no_invalidation(g).len() == 0,
{
    lemma_full_candidates_found(c, i);
}

/// Two URI ordered sequences of patches that hold the same map are the same.
proof fn lemma_sorted_unique(
    v: Seq<NoInvalidationPatch>,
    w: Seq<NoInvalidationPatch>,
    m: Map<Seq<char>, PatchInfo>,
)
    requires
        sorted_by_uri(v),
        sorted_by_uri(w),
        holds_exactly(v, m),
        holds_exactly(w, m),
    ensures
        v == w,
    decreases v.len(),
{
    if v.len() == 0 {
        if w.len() > 0 {
            assert(m.contains_key(w[0].0.uri@));
        }
        assert(v =~= w);
    } else {
        assert(m.contains_key(v[0].0.uri@));
        if w.len() == 0 {
            assert(false);
        }
        let k1 = v[0].0.uri@;
        let k2 = w[0].0.uri@;
        assert(m.contains_key(k2));
        let j = choose|j: int| 0 <= j < w.len() && w[j].0.uri@ == k1;
        let jj = choose|j: int| 0 <= j < v.len() && v[j].0.uri@ == k2;
        if j > 0 && jj > 0 {
            lemma_lex_total(uri_key(k1), uri_key(k2));
        }
        assert(k1 == k2);
        assert(v[0] == w[0]);
        let m2 = m.remove(k1);
        let v2 = v.drop_first();
        let w2 = w.drop_first();
        assert forall|i: int| 0 <= i < v2.len() implies m2.contains_key(#[trigger] v2[i].0.uri@)
            && m2[v2[i].0.uri@] == v2[i].0 by {
            assert(v2[i] == v[i + 1]);
            lemma_lex_total(uri_key(k1), uri_key(v[i + 1].0.uri@));
        }
        assert forall|k: Seq<char>| #[trigger] m2.contains_key(k) implies exists|i: int|
            0 <= i < v2.len() && v2[i].0.uri@ == k by {
            let i = choose|i: int| 0 <= i < v.len() && v[i].0.uri@ == k;
            assert(v2[i - 1] == v[i]);
        }
        assert forall|i: int| 0 <= i < w2.len() implies m2.contains_key(#[trigger] w2[i].0.uri@)
            && m2[w2[i].0.uri@] == w2[i].0 by {
            assert(w2[i] == w[i + 1]);
            lemma_lex_total(uri_key(k1), uri_key(w[i + 1].0.uri@));
        }
        assert forall|k: Seq<char>| #[trigger] m2.contains_key(k) implies exists|i: int|
            0 <= i < w2.len() && w2[i].0.uri@ == k by {
            let i = choose|i: int| 0 <= i < w.len() && w[i].0.uri@ == k;
            assert(w2[i - 1] == w[i]);
        }
        lemma_sorted_unique(v2, w2, m2);
        assert(v =~= seq![v[0]] + v2);
        assert(w =~= seq![w[0]] + w2);
    }
}

/// Selection is deterministic: the same candidates and compatibility ids
/// always give the same group.
pub proof fn lemma_select_deterministic(
    c: Seq<PatchUri>,
    ift_id: Option<CompatibilityId>,
    iftx_id: Option<CompatibilityId>,
    g1: CompatibleGroup,
    g2: CompatibleGroup,
)
    requires
        selects(c, ift_id, iftx_id, g1),
        selects(c, ift_id, iftx_id, g2),
    ensures
        same_group(g1, g2),
{
    if let (
        CompatibleGroup::Mixed { ift: i1, iftx: x1 },
        CompatibleGroup::Mixed { ift: i2, iftx: x2 },
    ) = (g1, g2) {
        if let (ScopedGroup::NoInvalidation(v), ScopedGroup::NoInvalidation(w)) = (i1, i2) {
            lemma_sorted_unique(v@, w@, kept_ift(c, ift_id, iftx_id));
        }
        if let (ScopedGroup::NoInvalidation(v), ScopedGroup::NoInvalidation(w)) = (x1, x2) {
            lemma_sorted_unique(v@, w@, kept_iftx(c, ift_id, iftx_id));
        }
    }
}

/// Two URIs with the same ordering key are the same URI.
proof fn lemma_key_injective(a: Seq<char>, b: Seq<char>)
    requires
        uri_key(a) == uri_key(b),
    ensures
        a == b,
{
    assert(vstd::utf8::decode_utf8(encode_utf8(a)) == a);
    assert(vstd::utf8::decode_utf8(encode_utf8(b)) == b);
}

/// Compares two URIs by their ordering keys.
fn compare_uris(a: &String, b: &String) -> (r: i8)
    ensures
        (r < 0) == lex_lt(uri_key(a@), uri_key(b@)),
        (r == 0) == (a@ == b@),
        (r > 0) == lex_lt(uri_key(b@), uri_key(a@)),
{
    let r = compare_bytes(a.as_str().as_bytes(), b.as_str().as_bytes());
    proof {
        if r == 0 {
            lemma_key_injective(a@, b@);
        }
    }
    r
}

/// Adds `p` to the URI ordered patches `v`, in place of a patch with the same
/// URI if there is one.
fn insert_by_uri(
    v: &mut Vec<NoInvalidationPatch>,
    p: PatchInfo,
    Ghost(m): Ghost<Map<Seq<char>, PatchInfo>>,
)
    requires
        sorted_by_uri(old(v)@),
        holds_exactly(old(v)@, m),
    ensures
        sorted_by_uri(final(v)@),
        holds_exactly(final(v)@, m.insert(p.uri@, p)),
{
    let ghost old_v = v@;
    let mut i: usize = 0;
    while i < v.len()
        invariant
            i <= v@.len(),
            v@ == old_v,
            sorted_by_uri(old_v),
            holds_exactly(old_v, m),
            forall|j: int| 0 <= j < i ==> lex_lt(uri_key(#[trigger] v@[j].0.uri@), uri_key(p.uri@)),
        ensures
            i <= v@.len(),
            v@ == old_v,
            sorted_by_uri(old_v),
            holds_exactly(old_v, m),
            forall|j: int| 0 <= j < i ==> lex_lt(uri_key(#[trigger] v@[j].0.uri@), uri_key(p.uri@)),
            i < v@.len() ==> lex_lt(uri_key(p.uri@), uri_key(v@[i as int].0.uri@)),
        decreases v@.len() - i,
    {
        let c = compare_uris(&v[i].0.uri, &p.uri);
        if c == 0 {
            let ghost k = p.uri@;
            let ghost q = p;
            let ghost m2 = m.insert(p.uri@, p);
            v.set(i, NoInvalidationPatch(p));
            proof {
                    assert forall|a: int, b: int| 0 <= a < b < v@.len() implies lex_lt(
                    uri_key(#[trigger] v@[a].0.uri@),
                    uri_key(#[trigger] v@[b].0.uri@),
                ) by {
                    assert(old_v[i as int].0.uri@ == k);
                    if a != i && b != i {
                        assert(v@[a] == old_v[a] && v@[b] == old_v[b]);
                    } else if a == i {
                        assert(v@[b] == old_v[b]);
                    } else {
                        assert(v@[a] == old_v[a]);
                    }
                }
                assert forall|j: int| 0 <= j < v@.len() implies m2.contains_key(
                    #[trigger] v@[j].0.uri@,
                ) && m2[v@[j].0.uri@] == v@[j].0 by {
                    if j != i {
                        assert(v@[j] == old_v[j]);
                        lemma_lex_total(uri_key(old_v[j].0.uri@), uri_key(k));
                        if j < i {
                        } else {
                            assert(lex_lt(uri_key(k), uri_key(old_v[j].0.uri@)));
                        }
                    }
                }
                assert forall|key: Seq<char>| #[trigger] m2.contains_key(key) implies exists|j: int|
                    0 <= j < v@.len() && v@[j].0.uri@ == key by {
                    if key == k {
                        assert(v@[i as int].0.uri@ == key);
                    } else {
                        assert(m.contains_key(key));
                        let j = choose|j: int| 0 <= j < old_v.len() && old_v[j].0.uri@ == key;
                        assert(v@[j] == old_v[j]);
                    }
                }
            }
            return ;
        }
        if c > 0 {
            break;
        }
        i = i + 1;
    }
    let ghost k = p.uri@;
    let ghost q = p;
    let ghost m2 = m.insert(p.uri@, p);
    proof {
        assert forall|j: int| i <= j < old_v.len() implies lex_lt(
            uri_key(k),
            uri_key(#[trigger] old_v[j].0.uri@),
        ) by {
            if j > i {
                lemma_lex_transitive(
                    uri_key(k),
                    uri_key(old_v[i as int].0.uri@),
                    uri_key(old_v[j].0.uri@),
                );
            }
        }
    }
    v.insert(i, NoInvalidationPatch(p));
    proof {
        old_v.insert_ensures(i as int, NoInvalidationPatch(q));
        assert forall|a: int, b: int| 0 <= a < b < v@.len() implies lex_lt(
            uri_key(#[trigger] v@[a].0.uri@),
            uri_key(#[trigger] v@[b].0.uri@),
        ) by {
            if a < i {
                if b < i {
                } else if b == i {
                } else {
                    assert(v@[b] == old_v[b - 1]);
                }
            } else if a == i {
                assert(v@[b] == old_v[b - 1]);
            } else {
                assert(v@[a] == old_v[a - 1]);
                assert(v@[b] == old_v[b - 1]);
            }
        }
        assert forall|j: int| 0 <= j < v@.len() implies m2.contains_key(#[trigger] v@[j].0.uri@)
            && m2[v@[j].0.uri@] == v@[j].0 by {
            if j < i {
                lemma_lex_total(uri_key(old_v[j].0.uri@), uri_key(k));
            } else if j > i {
                assert(v@[j] == old_v[j - 1]);
                lemma_lex_total(uri_key(old_v[j - 1].0.uri@), uri_key(k));
            }
        }
        assert forall|key: Seq<char>| #[trigger] m2.contains_key(key) implies exists|j: int|
            0 <= j < v@.len() && v@[j].0.uri@ == key by {
            if key == k {
                assert(v@[i as int].0.uri@ == key);
            } else {
                assert(m.contains_key(key));
                        let j = choose|j: int| 0 <= j < old_v.len() && old_v[j].0.uri@ == key;
                if j < i {
                    assert(v@[j] == old_v[j]);
                } else {
                    assert(v@[j + 1] == old_v[j]);
                }
            }
        }
    }
}

/// Removes the patch with URI `uri` from the URI ordered patches `v`, if there
/// is one.
fn remove_by_uri(
    v: &mut Vec<NoInvalidationPatch>,
    uri: &String,
    Ghost(m): Ghost<Map<Seq<char>, PatchInfo>>,
)
    requires
        sorted_by_uri(old(v)@),
        holds_exactly(old(v)@, m),
    ensures
        sorted_by_uri(final(v)@),
        holds_exactly(final(v)@, m.remove(uri@)),
{
    let ghost old_v = v@;
    let mut i: usize = 0;
    while i < v.len()
        invariant
            i <= v@.len(),
            v@ == old_v,
            sorted_by_uri(old_v),
            holds_exactly(old_v, m),
            forall|j: int| 0 <= j < i ==> #[trigger] v@[j].0.uri@ != uri@,
        decreases v@.len() - i,
    {
        if compare_uris(&v[i].0.uri, uri) == 0 {
            let ghost m2 = m.remove(uri@);
            v.remove(i);
            proof {
                old_v.remove_ensures(i as int);
                assert forall|a: int, b: int| 0 <= a < b < v@.len() implies lex_lt(
                    uri_key(#[trigger] v@[a].0.uri@),
                    uri_key(#[trigger] v@[b].0.uri@),
                ) by {
                    if a < i {
                        if b >= i {
                            assert(v@[b] == old_v[b + 1]);
                        }
                    } else {
                        assert(v@[a] == old_v[a + 1]);
                        assert(v@[b] == old_v[b + 1]);
                    }
                }
                assert forall|j: int| 0 <= j < v@.len() implies m2.contains_key(
                    #[trigger] v@[j].0.uri@,
                ) && m2[v@[j].0.uri@] == v@[j].0 by {
                    if j < i {
                        lemma_lex_total(uri_key(old_v[j].0.uri@), uri_key(uri@));
                    } else {
                        assert(v@[j] == old_v[j + 1]);
                        assert(lex_lt(uri_key(old_v[i as int].0.uri@), uri_key(old_v[j + 1].0.uri@)));
                        lemma_lex_total(uri_key(old_v[j + 1].0.uri@), uri_key(uri@));
                    }
                }
                assert forall|key: Seq<char>| #[trigger] m2.contains_key(key) implies exists|j: int|
                    0 <= j < v@.len() && v@[j].0.uri@ == key by {
                    assert(m.contains_key(key));
                        let j = choose|j: int| 0 <= j < old_v.len() && old_v[j].0.uri@ == key;
                    if j < i {
                        assert(v@[j] == old_v[j]);
                    } else {
                        assert(j != i);
                        assert(v@[j - 1] == old_v[j]);
                    }
                }
            }
            return ;
        }
        i = i + 1;
    }
    proof {
        assert(m.remove(uri@) =~= m);
    }
}

/// `id` is present and equal to `expected`.
fn id_matches(id: Option<CompatibilityId>, expected: CompatibilityId) -> (r: bool)
    ensures
        r == (id == Some(expected)),
{
    match id {
        Some(id) => id == expected,
        None => false,
    }
}

/// Removes from `v` every patch whose URI is the URI of a patch of `others`.
fn remove_all_uris(
    v: &mut Vec<NoInvalidationPatch>,
    others: &Vec<NoInvalidationPatch>,
    Ghost(m): Ghost<Map<Seq<char>, PatchInfo>>,
    Ghost(other_m): Ghost<Map<Seq<char>, PatchInfo>>,
)
    requires
        sorted_by_uri(old(v)@),
        holds_exactly(old(v)@, m),
        holds_exactly(others@, other_m),
    ensures
        sorted_by_uri(final(v)@),
        holds_exactly(final(v)@, m.remove_keys(other_m.dom())),
{
    let mut j: usize = 0;
    while j < others.len()
        invariant
            j <= others@.len(),
            holds_exactly(others@, other_m),
            sorted_by_uri(v@),
            holds_exactly(
                v@,
                m.remove_keys(
                    Set::new(|k: Seq<char>| exists|t: int| 0 <= t < j && others@[t].0.uri@ == k),
                ),
            ),
        decreases others@.len() - j,
    {
        let ghost before = Set::new(
            |k: Seq<char>| exists|t: int| 0 <= t < j && others@[t].0.uri@ == k,
        );
        let ghost after = Set::new(
            |k: Seq<char>| exists|t: int| 0 <= t < j + 1 && others@[t].0.uri@ == k,
        );
        remove_by_uri(v, &others[j].0.uri, Ghost(m.remove_keys(before)));
        proof {
            assert forall|k: Seq<char>| after.contains(k) <==> (before.contains(k) || k
                == others@[j as int].0.uri@) by {
                if after.contains(k) {
                    let t = choose|t: int| 0 <= t < j + 1 && others@[t].0.uri@ == k;
                    if t < j {
                        assert(before.contains(k));
                    }
                }
                if k == others@[j as int].0.uri@ {
                    assert(after.contains(k));
                }
                if before.contains(k) {
                    let t = choose|t: int| 0 <= t < j && others@[t].0.uri@ == k;
                    assert(after.contains(k));
                }
            }
            assert(m.remove_keys(before).remove(others@[j as int].0.uri@) =~= m.remove_keys(
                after,
            ));
        }
        j = j + 1;
    }
    proof {
        let done = Set::new(
            |k: Seq<char>| exists|t: int| 0 <= t < j && others@[t].0.uri@ == k,
        );
        assert forall|k: Seq<char>| done.contains(k) <==> other_m.dom().contains(k) by {
            if done.contains(k) {
                let t = choose|t: int| 0 <= t < j && others@[t].0.uri@ == k;
                assert(other_m.contains_key(others@[t].0.uri@));
            }
            if other_m.contains_key(k) {
                let t = choose|t: int| 0 <= t < others@.len() && others@[t].0.uri@ == k;
                assert(done.contains(k));
            }
        }
        assert(done =~= other_m.dom());
    }
}

/// The first patch of `s` whose URI is not `avoid`'s, taken out of `s`.
fn take_first_avoiding(s: &mut Vec<PatchInfo>, avoid: &Option<PatchInfo>) -> (r: Option<PatchInfo>)
    ensures
        r == first_avoiding(old(s)@, *avoid),
{
    let ghost s0 = s@;
    assert(s0.skip(0) =~= s0);
    let mut j: usize = 0;
    while j < s.len()
        invariant
            j <= s@.len(),
            s@ == s0,
            s0 == old(s)@,
            first_avoiding(s0, *avoid) == first_avoiding(s0.skip(j as int), *avoid),
        decreases s@.len() - j,
    {
        let skip = match avoid {
            Some(a) => s[j].uri == a.uri,
            None => false,
        };
        if !skip {
            assert(s0.skip(j as int)[0] == s0[j as int]);
            let p = s.remove(j);
            return Some(p);
        }
        assert(s0.skip(j as int).drop_first() =~= s0.skip(j + 1));
        j = j + 1;
    }
    None
}

impl PatchGroup {
    #[verifier::type_invariant]
    pub(crate) open spec fn well_formed(&self) -> bool {
        self.patches matches Some(g) ==> group_well_formed(g)
    }

    /// The font the group was selected from.
    pub open(crate) spec fn source_font(&self) -> IftFont {
        self.font
    }

    /// The selected group, if there is one.
    pub open(crate) spec fn group(&self) -> Option<CompatibleGroup> {
        self.patches
    }

    /// The selected group, if there is one.
    pub fn patches(&self) -> (r: &Option<CompatibleGroup>)
        ensures
            *r == self.group(),
            r matches Some(g) ==> group_well_formed(*g),
    {
        proof {
            use_type_invariant(self);
        }
        &self.patches
    }

    /// The font the group was selected from.
    pub fn font(&self) -> (r: &IftFont)
        ensures
            *r == self.source_font(),
    {
        &self.font
    }

    /// The group that selection makes from `candidates` for `font`, given
    /// the compatibility ids of its IFT and IFTX tables.
    pub fn from_candidates(
        font: IftFont,
        candidates: Vec<PatchUri>,
        ift_compat_id: Option<CompatibilityId>,
        iftx_compat_id: Option<CompatibilityId>,
    ) -> (r: PatchGroup)
        ensures
            r.source_font() == font,
            r.group() matches Some(g) && selects(candidates@, ift_compat_id, iftx_compat_id, g),
    {
        let ghost c = candidates@;
        let group = Self::select_next_patches_from_candidates(candidates, ift_compat_id, iftx_compat_id)
            .unwrap();
        proof {
            lemma_select_well_formed(c, ift_compat_id, iftx_compat_id, group);
        }
        PatchGroup { font, patches: Some(group) }
    }

    /// Intersects the font's patch maps with `subset_definition` and selects
    /// the group of patches to apply next; the group is empty when no patch
    /// intersects. A table that fails to be read contributes no patch; the
    /// call fails only when no table of the font could be read.
    pub fn select_next_patches(ift_font: IftFont, subset_definition: &SubsetDefinition) -> (r:
        Result<PatchGroup, ReadError>)
        ensures
            intersection_error(ift_font, *subset_definition) matches Some(e) ==> r == Err::<
                PatchGroup,
                ReadError,
            >(e),
            intersection_error(ift_font, *subset_definition) is None ==> r is Ok,
            r matches Ok(g) ==> g.source_font() == ift_font && exists|c: Seq<PatchUri>|
                #[trigger] are_candidates(c, ift_font, *subset_definition) && if c.len() == 0 {
                    g.group() is None
                } else {
                    g.group() matches Some(grp) && selects(
                        c,
                        table_compat_id(ift_font, Scope::Ift),
                        table_compat_id(ift_font, Scope::Iftx),
                        grp,
                    )
                },
    {
        let candidates = match intersecting_patches(&ift_font, subset_definition) {
            Ok(c) => c,
            Err(e) => {
                return Err(e);
            },
        };
        let ghost c = candidates@;
        if candidates.len() == 0 {
            return Ok(PatchGroup { font: ift_font, patches: None });
        }
        let ift_id = table_compatibility_id(&ift_font.ift);
        let iftx_id = table_compatibility_id(&ift_font.iftx);
        let r = Self::from_candidates(ift_font, candidates, ift_id, iftx_id);
        assert(are_candidates(c, ift_font, *subset_definition));
        Ok(r)
    }

    /// Selects, from `candidates`, a largest group of patches that can be
    /// applied together, given the compatibility ids of the font's IFT and
    /// IFTX tables.
    pub fn select_next_patches_from_candidates(
        candidates: Vec<PatchUri>,
        ift_compat_id: Option<CompatibilityId>,
        iftx_compat_id: Option<CompatibilityId>,
    ) -> (r: Result<CompatibleGroup, ReadError>)
        ensures
            r matches Ok(g) && selects(candidates@, ift_compat_id, iftx_compat_id, g),
    {
        let ghost c = candidates@;
        let ghost ids = (ift_compat_id, iftx_compat_id);
        let mut full: Vec<PatchInfo> = Vec::new();
        let mut partial_ift: Vec<PatchInfo> = Vec::new();
        let mut partial_iftx: Vec<PatchInfo> = Vec::new();
        let mut no_invalidation_ift: Vec<NoInvalidationPatch> = Vec::new();
        let mut no_invalidation_iftx: Vec<NoInvalidationPatch> = Vec::new();

        // Sort the candidates by what they invalidate and by scope.
        let mut i: usize = 0;
        while i < candidates.len()
            invariant
                i <= c.len(),
                c == candidates@,
                full@ == full_candidates(c.take(i as int)),
                partial_ift@ == partial_candidates(c.take(i as int), ids.0, ids.1, Scope::Ift),
                partial_iftx@ == partial_candidates(c.take(i as int), ids.0, ids.1, Scope::Iftx),
                sorted_by_uri(no_invalidation_ift@),
                holds_exactly(
                    no_invalidation_ift@,
                    no_invalidation_candidates(c.take(i as int), ids.0, ids.1, Scope::Ift),
                ),
                sorted_by_uri(no_invalidation_iftx@),
                holds_exactly(
                    no_invalidation_iftx@,
                    no_invalidation_candidates(c.take(i as int), ids.0, ids.1, Scope::Iftx),
                ),
                ids == (ift_compat_id, iftx_compat_id),
            decreases c.len() - i,
        {
            let p = &candidates[i];
            let info = PatchInfo { uri: p.uri.clone(), source_table: p.source_table };
            assert(info == info_of(c[i as int]));
            let expected = p.expected_compatibility_id();
            let in_ift = id_matches(ift_compat_id, expected);
            let in_iftx = id_matches(iftx_compat_id, expected);
            let ghost prev_ift = no_invalidation_candidates(c.take(i as int), ids.0, ids.1, Scope::Ift);
            let ghost prev_iftx = no_invalidation_candidates(c.take(i as int), ids.0, ids.1, Scope::Iftx);
            match p.encoding {
                PatchEncoding::TableKeyed { fully_invalidating: true } => {
                    full.push(info);
                },
                PatchEncoding::TableKeyed { fully_invalidating: false } => {
                    if in_ift {
                        partial_ift.push(info);
                    } else if in_iftx {
                        partial_iftx.push(info);
                    }
                },
                PatchEncoding::GlyphKeyed => {
                    if in_ift {
                        insert_by_uri(&mut no_invalidation_ift, info, Ghost(prev_ift));
                    } else if in_iftx {
                        insert_by_uri(&mut no_invalidation_iftx, info, Ghost(prev_iftx));
                    }
                },
            }
            assert(c.take(i + 1).drop_last() =~= c.take(i as int));
            i = i + 1;
        }
        assert(c.take(c.len() as int) =~= c);

        // A fully invalidating patch goes alone.
        if full.len() > 0 {
            let p = full.remove(0);
            return Ok(CompatibleGroup::Full(FullInvalidationPatch(p)));
        }

        // At most one partially invalidating patch for each scope, never the same
        // URI twice.
        let ift_selected: Option<PatchInfo> = if partial_ift.len() > 0 {
            Some(partial_ift.remove(0))
        } else {
            None
        };
        let iftx_selected = take_first_avoiding(&mut partial_iftx, &ift_selected);

        // A URI selected above is left out of the other scope's patches.
        match (ift_selected, iftx_selected) {
            (Some(a), Some(b)) => Ok(
                CompatibleGroup::Mixed {
                    ift: ScopedGroup::PartialInvalidation(PartialInvalidationPatch(a)),
                    iftx: ScopedGroup::PartialInvalidation(PartialInvalidationPatch(b)),
                },
            ),
            (Some(a), None) => {
                remove_by_uri(
                    &mut no_invalidation_iftx,
                    &a.uri,
                    Ghost(no_invalidation_candidates(c, ids.0, ids.1, Scope::Iftx)),
                );
                Ok(
                    CompatibleGroup::Mixed {
                        ift: ScopedGroup::PartialInvalidation(PartialInvalidationPatch(a)),
                        iftx: ScopedGroup::NoInvalidation(no_invalidation_iftx),
                    },
                )
            },
            (None, Some(b)) => {
                remove_by_uri(
                    &mut no_invalidation_ift,
                    &b.uri,
                    Ghost(no_invalidation_candidates(c, ids.0, ids.1, Scope::Ift)),
                );
                Ok(
                    CompatibleGroup::Mixed {
                        ift: ScopedGroup::NoInvalidation(no_invalidation_ift),
                        iftx: ScopedGroup::PartialInvalidation(PartialInvalidationPatch(b)),
                    },
                )
            },
            (None, None) => {
                remove_all_uris(
                    &mut no_invalidation_iftx,
                    &no_invalidation_ift,
                    Ghost(no_invalidation_candidates(c, ids.0, ids.1, Scope::Iftx)),
                    Ghost(no_invalidation_candidates(c, ids.0, ids.1, Scope::Ift)),
                );
                Ok(
                    CompatibleGroup::Mixed {
                        ift: ScopedGroup::NoInvalidation(no_invalidation_ift),
                        iftx: ScopedGroup::NoInvalidation(no_invalidation_iftx),
                    },
                )
            },
        }
    }
}

/// The URIs of a group, or none where there is no group.
pub open spec fn uris_in(g: Option<CompatibleGroup>) -> Seq<Seq<char>> {
    match g {
        Some(g) => group_uris(g),
        None => seq![],
    }
}

/// The text of each string.
pub open spec fn strings_view(v: Seq<String>) -> Seq<Seq<char>> {
    v.map_values(|s: String| s@)
}

/// `uris_of` distributes over concatenation.
pub proof fn lemma_uris_of_concat(a: Seq<PatchInfo>, b: Seq<PatchInfo>)
    ensures
        uris_of(a + b) == uris_of(a) + uris_of(b),
{
    assert(uris_of(a + b) =~= uris_of(a) + uris_of(b));
}

impl ScopedGroup {
    /// Whether the scope group holds at least one patch.
    pub fn has_uris(&self) -> (r: bool)
        ensures
            r == (scoped_invalidating(*self).len() + scoped_no_invalidation(*self).len() > 0),
    {
        match self {
            ScopedGroup::PartialInvalidation(_) => true,
            ScopedGroup::NoInvalidation(v) => v.len() > 0,
        }
    }

    /// Appends the URI of the scope's invalidating patch, if any, to `r`.
    fn push_invalidating_uri(&self, r: &mut Vec<String>)
        ensures
            strings_view(final(r)@) == strings_view(old(r)@) + uris_of(scoped_invalidating(*self)),
    {
        match self {
            ScopedGroup::PartialInvalidation(p) => {
                r.push(p.0.uri.clone());
            },
            ScopedGroup::NoInvalidation(_) => {},
        }
        assert(strings_view(r@) =~= strings_view(old(r)@) + uris_of(scoped_invalidating(*self)));
    }

    /// Appends the URIs of the scope's no-invalidation patches to `r`.
    fn push_no_invalidation_uris(&self, r: &mut Vec<String>)
        ensures
            strings_view(final(r)@) == strings_view(old(r)@) + uris_of(
                scoped_no_invalidation(*self),
            ),
    {
        if let ScopedGroup::NoInvalidation(v) = self {
            let ghost r0 = strings_view(r@);
            let mut i: usize = 0;
            while i < v.len()
                invariant
                    i <= v@.len(),
                    strings_view(r@) == r0 + uris_of(infos_of(v@).take(i as int)),
                decreases v@.len() - i,
            {
                let ghost prev = strings_view(r@);
                r.push(v[i].0.uri.clone());
                assert(strings_view(r@) =~= prev.push(v@[i as int].0.uri@));
                assert(uris_of(infos_of(v@).take(i + 1)) =~= uris_of(infos_of(v@).take(i as int)).push(
                    v@[i as int].0.uri@,
                ));
                assert(strings_view(r@) =~= r0 + uris_of(infos_of(v@).take(i + 1)));
                i = i + 1;
            }
            assert(infos_of(v@).take(v@.len() as int) =~= infos_of(v@));
        } else {
            assert(strings_view(r@) =~= strings_view(old(r)@) + uris_of(
                scoped_no_invalidation(*self),
            ));
        }
    }
}

impl PatchGroup {
    /// The URIs of the group: its invalidating patches first, then its
    /// no-invalidation patches of the IFT scope, then of the IFTX scope.
    pub fn uris(&self) -> (r: Vec<String>)
        ensures
            strings_view(r@) == uris_in(self.group()),
            self.group() matches Some(g) ==> group_well_formed(g),
    {
        proof {
            use_type_invariant(self);
        }
        let mut r: Vec<String> = Vec::new();
        match &self.patches {
            None => {
                assert(strings_view(r@) =~= uris_in(self.group()));
            },
            Some(CompatibleGroup::Full(p)) => {
                r.push(p.0.uri.clone());
                assert(strings_view(r@) =~= uris_in(self.group()));
            },
            Some(CompatibleGroup::Mixed { ift, iftx }) => {
                assert(strings_view(r@) =~= seq![]);
                ift.push_invalidating_uri(&mut r);
                iftx.push_invalidating_uri(&mut r);
                ift.push_no_invalidation_uris(&mut r);
                iftx.push_no_invalidation_uris(&mut r);
                proof {
                    let a = scoped_invalidating(*ift);
                    let b = scoped_invalidating(*iftx);
                    let c = scoped_no_invalidation(*ift);
                    let d = scoped_no_invalidation(*iftx);
                    lemma_uris_of_concat(a, b);
                    lemma_uris_of_concat(c, d);
                    lemma_uris_of_concat(a + b, c + d);
                    assert(strings_view(r@) =~= uris_in(self.group()));
                }
            },
        }
        r
    }

    /// Whether the group holds at least one URI.
    pub fn has_uris(&self) -> (r: bool)
        ensures
            r == (uris_in(self.group()).len() > 0),
    {
        match &self.patches {
            None => false,
            Some(CompatibleGroup::Full(_)) => true,
            Some(CompatibleGroup::Mixed { ift, iftx }) => ift.has_uris() || iftx.has_uris(),
        }
    }
}

} // verus!
