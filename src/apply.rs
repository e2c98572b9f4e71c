//! Application of a selected group of patches to a font.
use vstd::prelude::*;

use crate::error::PatchingError;
use crate::patch_group::{
    group_invalidating, group_no_invalidation, group_well_formed, infos_of, lemma_uris_of_concat,
    scoped_no_invalidation, uris_in, CompatibleGroup, NoInvalidationPatch, PatchGroup, PatchInfo, ScopedGroup,
};
use crate::status::{UriStatus, UriStatusMap};

verus! {

/// Applies patches to the bytes of a font. Patch application itself lies
/// outside this library; callers supply an implementation.
///
/// Each implementation may state, through the two spec functions, what holds
/// of the results of its methods; by default they state nothing. This
/// library relies on nothing more, and hands each result on as it came.
pub trait PatchApplier {
    /// What holds of `r` when it is the result of applying table keyed patch
    /// `patch`, with data `data`, to `font`.
    open spec fn table_keyed_ensures(
        &self,
        font: Seq<u8>,
        patch: PatchInfo,
        data: Seq<u8>,
        r: Result<Vec<u8>, PatchingError>,
    ) -> bool {
        true
    }

    /// What holds of `r` when it is the result of applying the glyph keyed
    /// patches `patches`, each with its data, to `font` in one pass.
    open spec fn glyph_keyed_ensures(
        &self,
        font: Seq<u8>,
        patches: Seq<(PatchInfo, Seq<u8>)>,
        r: Result<Vec<u8>, PatchingError>,
    ) -> bool {
        true
    }

    /// Applies the table keyed patch `patch`, with data `data`, to `font`,
    /// giving the bytes of the new font.
    fn apply_table_keyed_patch(&self, font: &Vec<u8>, patch: &PatchInfo, data: &Vec<u8>) -> (r:
        Result<Vec<u8>, PatchingError>)
        ensures
            self.table_keyed_ensures(font@, *patch, data@, r),
    ;

    /// Applies the glyph keyed patches `patches`, each with its data, to
    /// `font` in one pass, giving the bytes of the new font.
    fn apply_glyph_keyed_patches(
        &self,
        font: &Vec<u8>,
        patches: &Vec<(&PatchInfo, &Vec<u8>)>,
    ) -> (r: Result<Vec<u8>, PatchingError>)
        ensures
            self.glyph_keyed_ensures(font@, batch_view(patches@), r),
    ;
}

/// The data of the pending patch at `uri`.
pub open spec fn pending_data(st: Map<Seq<char>, UriStatus>, uri: Seq<char>) -> Seq<u8> {
    match st[uri] {
        UriStatus::Pending(data) => data@,
        UriStatus::Applied => seq![],
    }
}

/// The invalidating patch that is applied first, if the group has one.
pub open spec fn next_invalidating(g: Option<CompatibleGroup>) -> Option<PatchInfo> {
    match g {
        Some(g) => if group_invalidating(g).len() > 0 {
            Some(group_invalidating(g)[0])
        } else {
            None
        },
        None => None,
    }
}

/// The no-invalidation patches of the group, IFT scope first.
pub open spec fn no_invalidation_of(g: Option<CompatibleGroup>) -> Seq<PatchInfo> {
    match g {
        Some(g) => group_no_invalidation(g),
        None => seq![],
    }
}

/// Every patch of `s` has a status.
pub open spec fn all_present(s: Seq<PatchInfo>, st: Map<Seq<char>, UriStatus>) -> bool {
    forall|i: int| 0 <= i < s.len() ==> st.contains_key(#[trigger] s[i].uri@)
}

/// The patches of `s` that are pending, in order, each with its data.
pub open spec fn pending_batch(s: Seq<PatchInfo>, st: Map<Seq<char>, UriStatus>) -> Seq<
    (PatchInfo, Seq<u8>),
>
    decreases s.len(),
{
    if s.len() == 0 {
        seq![]
    } else {
        let rest = pending_batch(s.drop_last(), st);
        match st[s.last().uri@] {
            UriStatus::Pending(data) => if st.contains_key(s.last().uri@) {
                rest.push((s.last(), data@))
            } else {
                rest
            },
            UriStatus::Applied => rest,
        }
    }
}

/// `st` with each patch of `s` that has a status marked applied.
pub open spec fn mark_applied(s: Seq<PatchInfo>, st: Map<Seq<char>, UriStatus>) -> Map<
    Seq<char>,
    UriStatus,
>
    decreases s.len(),
{
    if s.len() == 0 {
        st
    } else {
        let m = mark_applied(s.drop_last(), st);
        if m.contains_key(s.last().uri@) {
            m.insert(s.last().uri@, UriStatus::Applied)
        } else {
            m
        }
    }
}

/// The next step applies the group's invalidating patch, which is pending.
pub open spec fn applies_invalidating(
    g: Option<CompatibleGroup>,
    st: Map<Seq<char>, UriStatus>,
) -> bool {
    next_invalidating(g) matches Some(p) && st.contains_key(p.uri@) && st[p.uri@] is Pending
}

/// The error that applying the next step of group `g` fails with before any
/// patch is applied, if any: a missing invalidating patch, or else (the
/// invalidating patch absent or already applied) a missing no-invalidation
/// patch, or no pending no-invalidation patch at all.
pub open spec fn apply_error(g: Option<CompatibleGroup>, st: Map<Seq<char>, UriStatus>) -> Option<
    PatchingError,
> {
    if next_invalidating(g) matches Some(p) && !st.contains_key(p.uri@) {
        Some(PatchingError::MissingPatches)
    } else if applies_invalidating(g, st) {
        None
    } else if !all_present(no_invalidation_of(g), st) {
        Some(PatchingError::MissingPatches)
    } else if pending_batch(no_invalidation_of(g), st).len() == 0 {
        Some(PatchingError::EmptyPatchList)
    } else {
        None
    }
}

/// The statuses once the next step of group `g` has been applied: the
/// invalidating patch alone, or else every no-invalidation patch, applied.
pub open spec fn status_after(g: Option<CompatibleGroup>, st: Map<Seq<char>, UriStatus>) -> Map<
    Seq<char>,
    UriStatus,
> {
    if applies_invalidating(g, st) {
        st.insert(next_invalidating(g)->0.uri@, UriStatus::Applied)
    } else {
        mark_applied(no_invalidation_of(g), st)
    }
}

/// A batch of patches with their data, seen as values.
pub open spec fn batch_view(b: Seq<(&PatchInfo, &Vec<u8>)>) -> Seq<(PatchInfo, Seq<u8>)> {
    b.map_values(|x: (&PatchInfo, &Vec<u8>)| (*x.0, x.1@))
}

/// `all_present` splits over concatenation.
proof fn lemma_all_present_concat(a: Seq<PatchInfo>, b: Seq<PatchInfo>, st: Map<Seq<char>, UriStatus>)
    ensures
        all_present(a + b, st) == (all_present(a, st) && all_present(b, st)),
{
    if all_present(a, st) && all_present(b, st) {
        assert forall|i: int| 0 <= i < (a + b).len() implies st.contains_key(#[trigger] (a + b)[i].uri@) by {
            if i >= a.len() {
                assert((a + b)[i] == b[i - a.len()]);
            }
        }
    }
    if all_present(a + b, st) {
        assert forall|i: int| 0 <= i < a.len() implies st.contains_key(#[trigger] a[i].uri@) by {
            assert((a + b)[i] == a[i]);
        }
        assert forall|i: int| 0 <= i < b.len() implies st.contains_key(#[trigger] b[i].uri@) by {
            assert((a + b)[i + a.len()] == b[i]);
        }
    }
}

/// `pending_batch` distributes over concatenation.
proof fn lemma_pending_batch_concat(a: Seq<PatchInfo>, b: Seq<PatchInfo>, st: Map<Seq<char>, UriStatus>)
    ensures
        pending_batch(a + b, st) == pending_batch(a, st) + pending_batch(b, st),
    decreases b.len(),
{
    if b.len() == 0 {
        assert(a + b =~= a);
        assert(pending_batch(a, st) + pending_batch(b, st) =~= pending_batch(a, st));
    } else {
        assert((a + b).drop_last() =~= a + b.drop_last());
        lemma_pending_batch_concat(a, b.drop_last(), st);
        assert((a + b).last() == b.last());
        let x = pending_batch(a, st);
        let y = pending_batch(b.drop_last(), st);
        match st[b.last().uri@] {
            UriStatus::Pending(data) => {
                if st.contains_key(b.last().uri@) {
                    assert((x + y).push((b.last(), data@)) =~= x + y.push((b.last(), data@)));
                }
            },
            UriStatus::Applied => {},
        }
    }
}

/// Marking a concatenation is marking one part, then the other.
proof fn lemma_mark_applied_concat(a: Seq<PatchInfo>, b: Seq<PatchInfo>, st: Map<Seq<char>, UriStatus>)
    ensures
        mark_applied(a + b, st) == mark_applied(b, mark_applied(a, st)),
    decreases b.len(),
{
    if b.len() == 0 {
        assert(a + b =~= a);
    } else {
        assert((a + b).drop_last() =~= a + b.drop_last());
        lemma_mark_applied_concat(a, b.drop_last(), st);
        assert((a + b).last() == b.last());
    }
}

/// `mark_applied` keeps the URIs of the map, sets those of `s` to applied and
/// leaves the others alone.
proof fn lemma_mark_applied_effect(s: Seq<PatchInfo>, st: Map<Seq<char>, UriStatus>)
    ensures
        mark_applied(s, st).dom() == st.dom(),
        forall|k: Seq<char>|
            #[trigger] mark_applied(s, st).contains_key(k) ==> mark_applied(s, st)[k] == (if exists|
                i: int,
            | 0 <= i < s.len() && s[i].uri@ == k {
                UriStatus::Applied
            } else {
                st[k]
            }),
    decreases s.len(),
{
    if s.len() > 0 {
        let t = s.drop_last();
        lemma_mark_applied_effect(t, st);
        let m = mark_applied(t, st);
        assert(mark_applied(s, st).dom() =~= st.dom());
        assert forall|k: Seq<char>| #[trigger] mark_applied(s, st).contains_key(k) implies mark_applied(
            s,
            st,
        )[k] == (if exists|i: int| 0 <= i < s.len() && s[i].uri@ == k {
            UriStatus::Applied
        } else {
            st[k]
        }) by {
            if k == s.last().uri@ {
                assert(s[s.len() - 1].uri@ == k);
            } else {
                assert(m.contains_key(k));
                if exists|i: int| 0 <= i < s.len() && s[i].uri@ == k {
                    let i = choose|i: int| 0 <= i < s.len() && s[i].uri@ == k;
                    assert(t[i].uri@ == k);
                }
                if exists|i: int| 0 <= i < t.len() && t[i].uri@ == k {
                    let i = choose|i: int| 0 <= i < t.len() && t[i].uri@ == k;
                    assert(s[i].uri@ == k);
                }
            }
        }
    }
}

/// The batch holds exactly the pending patches of `s`, each with its data.
proof fn lemma_pending_batch_facts(s: Seq<PatchInfo>, st: Map<Seq<char>, UriStatus>)
    ensures
        forall|j: int|
            0 <= j < pending_batch(s, st).len() ==> st.contains_key(
                #[trigger] pending_batch(s, st)[j].0.uri@,
            ) && (st[pending_batch(s, st)[j].0.uri@] matches UriStatus::Pending(d) && d@
                == pending_batch(s, st)[j].1),
        forall|j: int|
            0 <= j < pending_batch(s, st).len() ==> exists|i: int|
                0 <= i < s.len() && s[i] == #[trigger] pending_batch(s, st)[j].0,
        forall|i: int|
            0 <= i < s.len() && st.contains_key(#[trigger] s[i].uri@) && st[s[i].uri@] is Pending
                ==> exists|j: int| 0 <= j < pending_batch(s, st).len() && pending_batch(s, st)[j].0 == s[i],
    decreases s.len(),
{
    if s.len() > 0 {
        let t = s.drop_last();
        lemma_pending_batch_facts(t, st);
        let pb = pending_batch(s, st);
        let pt = pending_batch(t, st);
        assert forall|j: int| 0 <= j < pb.len() implies exists|i: int|
            0 <= i < s.len() && s[i] == #[trigger] pb[j].0 by {
            if j < pt.len() {
                assert(pb[j] == pt[j]);
                let i = choose|i: int| 0 <= i < t.len() && t[i] == pt[j].0;
                assert(s[i] == t[i]);
            } else {
                assert(s[s.len() - 1] == pb[j].0);
            }
        }
        assert forall|i: int|
            0 <= i < s.len() && st.contains_key(#[trigger] s[i].uri@) && st[s[i].uri@] is Pending implies exists|
            j: int,
        | 0 <= j < pb.len() && pb[j].0 == s[i] by {
            if i < s.len() - 1 {
                assert(t[i] == s[i]);
                let j = choose|j: int| 0 <= j < pt.len() && pt[j].0 == t[i];
                assert(pb[j] == pt[j]);
            } else {
                assert(pb[pb.len() - 1].0 == s[i]);
            }
        }
    }
}

/// Applying a group whose invalidating patch is pending applies that patch
/// alone: on success exactly its URI becomes applied and every other status
/// stays as it was.
pub proof fn lemma_apply_pending_invalidating(
    g: Option<CompatibleGroup>,
    st: Map<Seq<char>, UriStatus>,
    p: PatchInfo,
)
    requires
        next_invalidating(g) == Some(p),
        st.contains_key(p.uri@),
        st[p.uri@] is Pending,
    ensures
        apply_error(g, st) is None,
        status_after(g, st).dom() == st.dom(),
        status_after(g, st)[p.uri@] == UriStatus::Applied,
        forall|k: Seq<char>|
            k != p.uri@ && #[trigger] st.contains_key(k) ==> status_after(g, st)[k] == st[k],
{
    assert(status_after(g, st).dom() =~= st.dom());
}

/// Applying a group without an invalidating patch, whose patches all have a
/// status and some of which are pending, applies in one step exactly the
/// pending ones: the batch holds each pending patch, and none that was
/// applied before; on success every patch of the group is marked applied and
/// no other status changes.
pub proof fn lemma_apply_no_invalidation(g: Option<CompatibleGroup>, st: Map<Seq<char>, UriStatus>)
    requires
        next_invalidating(g) is None,
        all_present(no_invalidation_of(g), st),
        pending_batch(no_invalidation_of(g), st).len() > 0,
    ensures
        apply_error(g, st) is None,
        forall|j: int|
            0 <= j < pending_batch(no_invalidation_of(g), st).len() ==> (#[trigger] st[pending_batch(
                no_invalidation_of(g),
                st,
            )[j].0.uri@]) is Pending,
        forall|i: int|
            0 <= i < no_invalidation_of(g).len() && #[trigger] st[no_invalidation_of(g)[i].uri@] is Pending
                ==> exists|j: int|
                0 <= j < pending_batch(no_invalidation_of(g), st).len() && pending_batch(
                    no_invalidation_of(g),
                    st,
                )[j].0 == no_invalidation_of(g)[i],
        status_after(g, st).dom() == st.dom(),
        forall|i: int|
            0 <= i < no_invalidation_of(g).len() ==> status_after(g, st)[(
            #[trigger] no_invalidation_of(g)[i]).uri@] == UriStatus::Applied,
        forall|k: Seq<char>|
            #[trigger] st.contains_key(k) && (forall|i: int|
                0 <= i < no_invalidation_of(g).len() ==> no_invalidation_of(g)[i].uri@ != k)
                ==> status_after(g, st)[k] == st[k],
{
    let s = no_invalidation_of(g);
    lemma_pending_batch_facts(s, st);
    lemma_mark_applied_effect(s, st);
    assert forall|i: int| 0 <= i < s.len() implies status_after(g, st)[(#[trigger] s[i]).uri@]
        == UriStatus::Applied by {
        assert(st.contains_key(s[i].uri@));
        assert(mark_applied(s, st).contains_key(s[i].uri@));
    }
    assert forall|i: int|
        0 <= i < s.len() && #[trigger] st[s[i].uri@] is Pending implies exists|j: int|
        0 <= j < pending_batch(s, st).len() && pending_batch(s, st)[j].0 == s[i] by {
        assert(st.contains_key(s[i].uri@));
    }
}

/// Applying a group all of whose URIs are already applied fails with
/// `EmptyPatchList`.
pub proof fn lemma_apply_all_applied(g: Option<CompatibleGroup>, st: Map<Seq<char>, UriStatus>)
    requires
        forall|i: int|
            0 <= i < uris_in(g).len() ==> st.contains_key(#[trigger] uris_in(g)[i]) && st[uris_in(
                g,
            )[i]] == UriStatus::Applied,
    ensures
        apply_error(g, st) == Some(PatchingError::EmptyPatchList),
{
    if let Some(grp) = g {
        let inv = group_invalidating(grp);
        let s = group_no_invalidation(grp);
        lemma_uris_of_concat(inv, s);
        if inv.len() > 0 {
            assert(uris_in(g)[0] == inv[0].uri@);
        }
        assert forall|i: int| 0 <= i < s.len() implies st.contains_key(#[trigger] s[i].uri@) by {
            assert(uris_in(g)[inv.len() + i] == s[i].uri@);
        }
        lemma_pending_batch_facts(s, st);
        if pending_batch(s, st).len() > 0 {
            let i = choose|i: int| 0 <= i < s.len() && s[i] == pending_batch(s, st)[0].0;
            assert(uris_in(g)[inv.len() + i] == s[i].uri@);
        }
    }
}

/// Applying a group fails with `MissingPatches` when the status of its
/// invalidating patch is unknown, or when the invalidating patch is absent
/// or applied and the status of one of its no-invalidation patches is
/// unknown.
pub proof fn lemma_apply_missing(g: Option<CompatibleGroup>, st: Map<Seq<char>, UriStatus>)
    requires
        (next_invalidating(g) matches Some(p) && !st.contains_key(p.uri@)) || (!applies_invalidating(
            g,
            st,
        ) && exists|i: int|
            0 <= i < no_invalidation_of(g).len() && !st.contains_key(
                #[trigger] no_invalidation_of(g)[i].uri@,
            )),
    ensures
        apply_error(g, st) == Some(PatchingError::MissingPatches),
{
}

/// Adds to `batch` the pending patches of `v` with their data; false, with
/// `batch` in some state, when a patch of `v` has no status.
fn gather_pending<'a>(
    v: &'a Vec<NoInvalidationPatch>,
    st: &'a UriStatusMap,
    batch: &mut Vec<(&'a PatchInfo, &'a Vec<u8>)>,
) -> (r: bool)
    ensures
        r == all_present(infos_of(v@), st@),
        r ==> batch_view(final(batch)@) == batch_view(old(batch)@) + pending_batch(
            infos_of(v@),
            st@,
        ),
{
    let ghost b0 = batch_view(batch@);
    let ghost s = infos_of(v@);
    let mut i: usize = 0;
    while i < v.len()
        invariant
            i <= v@.len(),
            s == infos_of(v@),
            b0 == batch_view(old(batch)@),
            all_present(s.take(i as int), st@),
            batch_view(batch@) == b0 + pending_batch(s.take(i as int), st@),
        decreases v@.len() - i,
    {
        let info = &v[i].0;
        assert(s[i as int] == *info);
        assert(s.take(i + 1).drop_last() =~= s.take(i as int));
        assert(s.take(i + 1).last() == *info);
        match st.get(info.uri.as_str()) {
            None => {
                assert(!st@.contains_key(s[i as int].uri@));
                return false;
            },
            Some(UriStatus::Pending(data)) => {
                let ghost prev = batch_view(batch@);
                batch.push((info, data));
                assert(batch_view(batch@) =~= prev.push((*info, data@)));
                assert(st@[info.uri@] == UriStatus::Pending(*data));
                assert(pending_batch(s.take(i + 1), st@) == pending_batch(s.take(i as int), st@).push(
                    (*info, data@),
                ));
                assert(batch_view(batch@) =~= b0 + pending_batch(s.take(i + 1), st@));
            },
            Some(UriStatus::Applied) => {},
        }
        assert forall|j: int| 0 <= j < i + 1 implies st@.contains_key(
            #[trigger] s.take(i + 1)[j].uri@,
        ) by {
            if j < i {
                assert(s.take(i + 1)[j] == s.take(i as int)[j]);
            }
        }
        i = i + 1;
    }
    assert(s.take(v@.len() as int) =~= s);
    true
}

/// Adds to `batch` the pending no-invalidation patches of `s`, as
/// `gather_pending` does.
fn gather_scoped<'a>(
    s: &'a ScopedGroup,
    st: &'a UriStatusMap,
    batch: &mut Vec<(&'a PatchInfo, &'a Vec<u8>)>,
) -> (r: bool)
    ensures
        r == all_present(scoped_no_invalidation(*s), st@),
        r ==> batch_view(final(batch)@) == batch_view(old(batch)@) + pending_batch(
            scoped_no_invalidation(*s),
            st@,
        ),
{
    match s {
        ScopedGroup::NoInvalidation(v) => gather_pending(v, st, batch),
        ScopedGroup::PartialInvalidation(_) => {
            assert(batch_view(batch@) =~= batch_view(batch@) + pending_batch(
                scoped_no_invalidation(*s),
                st@,
            ));
            true
        },
    }
}

/// Marks each patch of `v` that has a status as applied.
fn mark_scoped_applied(s: &ScopedGroup, st: &mut UriStatusMap)
    ensures
        final(st)@ == mark_applied(scoped_no_invalidation(*s), old(st)@),
{
    if let ScopedGroup::NoInvalidation(v) = s {
        let ghost infos = infos_of(v@);
        let mut i: usize = 0;
        while i < v.len()
            invariant
                i <= v@.len(),
                infos == infos_of(v@),
                st@ == mark_applied(infos.take(i as int), old(st)@),
            decreases v@.len() - i,
        {
            let uri = &v[i].0.uri;
            assert(infos.take(i + 1).drop_last() =~= infos.take(i as int));
            assert(infos.take(i + 1).last() == v@[i as int].0);
            if st.contains_key(uri.as_str()) {
                st.insert(uri.clone(), UriStatus::Applied);
            }
            i = i + 1;
        }
        assert(infos.take(v@.len() as int) =~= infos);
    }
}

impl PatchGroup {
    /// The invalidating patch that is applied first, if the group has one.
    fn next_invalidating_patch(&self) -> (r: Option<&PatchInfo>)
        ensures
            r matches Some(p) ==> next_invalidating(self.group()) == Some(*p),
            r is None ==> next_invalidating(self.group()) is None,
    {
        match &self.patches {
            Some(CompatibleGroup::Full(p)) => Some(&p.0),
            Some(CompatibleGroup::Mixed { ift: ScopedGroup::PartialInvalidation(p), iftx: _ }) => Some(
                &p.0,
            ),
            Some(CompatibleGroup::Mixed { ift: _, iftx: ScopedGroup::PartialInvalidation(p) }) => Some(
                &p.0,
            ),
            _ => None,
        }
    }

    /// The pending no-invalidation patches of the group, with their data, in
    /// the order of the group; fails with `MissingPatches` if one of them has
    /// no status, and with `EmptyPatchList` if none is pending.
    pub fn pending_patches<'a>(&'a self, patch_data: &'a UriStatusMap) -> (r: Result<
        Vec<(&'a PatchInfo, &'a Vec<u8>)>,
        PatchingError,
    >)
        ensures
            !all_present(no_invalidation_of(self.group()), patch_data@) ==> r == Err::<
                Vec<(&'a PatchInfo, &'a Vec<u8>)>,
                PatchingError,
            >(PatchingError::MissingPatches),
            all_present(no_invalidation_of(self.group()), patch_data@) && pending_batch(
                no_invalidation_of(self.group()),
                patch_data@,
            ).len() == 0 ==> r == Err::<Vec<(&'a PatchInfo, &'a Vec<u8>)>, PatchingError>(
                PatchingError::EmptyPatchList,
            ),
            all_present(no_invalidation_of(self.group()), patch_data@) && pending_batch(
                no_invalidation_of(self.group()),
                patch_data@,
            ).len() > 0 ==> r is Ok,
            self.group() matches Some(g) ==> group_well_formed(g),
            r matches Ok(b) ==> batch_view(b@) == pending_batch(
                no_invalidation_of(self.group()),
                patch_data@,
            ) && b@.len() > 0,
    {
        proof {
            use_type_invariant(self);
        }
        let mut batch: Vec<(&'a PatchInfo, &'a Vec<u8>)> = Vec::new();
        assert(batch_view(batch@) =~= seq![]);
        if let Some(CompatibleGroup::Mixed { ift, iftx }) = &self.patches {
            let ghost a = scoped_no_invalidation(*ift);
            let ghost b = scoped_no_invalidation(*iftx);
            proof {
                lemma_all_present_concat(a, b, patch_data@);
                lemma_pending_batch_concat(a, b, patch_data@);
            }
            if !gather_scoped(ift, patch_data, &mut batch) {
                return Err(PatchingError::MissingPatches);
            }
            if !gather_scoped(iftx, patch_data, &mut batch) {
                return Err(PatchingError::MissingPatches);
            }
            assert(batch_view(batch@) =~= pending_batch(a + b, patch_data@));
        }
        if batch.len() == 0 {
            return Err(PatchingError::EmptyPatchList);
        }
        Ok(batch)
    }

    /// Applies the next step of the group: its invalidating patch if that is
    /// pending, else all of its pending no-invalidation patches in one pass.
    /// Returns the bytes of the updated font. On success the applied URIs are
    /// marked applied; on failure no status changes.
    pub fn apply_next_patches<A: PatchApplier>(self, applier: &A, patch_data: &mut UriStatusMap) -> (r:
        Result<Vec<u8>, PatchingError>)
        ensures
            apply_error(self.group(), old(patch_data)@) matches Some(e) ==> r == Err::<
                Vec<u8>,
                PatchingError,
            >(e) && final(patch_data)@ == old(patch_data)@,
            apply_error(self.group(), old(patch_data)@) is None && r is Ok ==> final(patch_data)@
                == status_after(self.group(), old(patch_data)@),
            apply_error(self.group(), old(patch_data)@) is None && applies_invalidating(
                self.group(),
                old(patch_data)@,
            ) ==> applier.table_keyed_ensures(
                self.source_font().data@,
                next_invalidating(self.group())->0,
                pending_data(old(patch_data)@, next_invalidating(self.group())->0.uri@),
                r,
            ),
            apply_error(self.group(), old(patch_data)@) is None && !applies_invalidating(
                self.group(),
                old(patch_data)@,
            ) ==> applier.glyph_keyed_ensures(
                self.source_font().data@,
                pending_batch(no_invalidation_of(self.group()), old(patch_data)@),
                r,
            ),
            self.group() matches Some(g) ==> group_well_formed(g),
            r is Err ==> final(patch_data)@ == old(patch_data)@,
    {
        proof {
            use_type_invariant(&self);
        }
        if let Some(patch) = self.next_invalidating_patch() {
            match patch_data.get(patch.uri.as_str()) {
                None => {
                    return Err(PatchingError::MissingPatches);
                },
                Some(UriStatus::Pending(data)) => {
                    match applier.apply_table_keyed_patch(&self.font.data, patch, data) {
                        Ok(new_font) => {
                            patch_data.insert(patch.uri.clone(), UriStatus::Applied);
                            return Ok(new_font);
                        },
                        Err(e) => {
                            return Err(e);
                        },
                    }
                },
                // An applied URI is inert: go on with the rest of the group.
                Some(UriStatus::Applied) => {},
            }
        }
        let new_font = {
            let batch = match self.pending_patches(patch_data) {
                Ok(batch) => batch,
                Err(e) => {
                    return Err(e);
                },
            };
            match applier.apply_glyph_keyed_patches(&self.font.data, &batch) {
                Ok(new_font) => new_font,
                Err(e) => {
                    return Err(e);
                },
            }
        };
        if let Some(CompatibleGroup::Mixed { ift, iftx }) = &self.patches {
            proof {
                lemma_mark_applied_concat(
                    scoped_no_invalidation(*ift),
                    scoped_no_invalidation(*iftx),
                    old(patch_data)@,
                );
            }
            mark_scoped_applied(ift, patch_data);
            mark_scoped_applied(iftx, patch_data);
        }
        Ok(new_font)
    }
}

} // verus!
