//! Sync status of stored documents: per-section status, the project queue, the detail
//! an actor needs to propagate one section, and recording resolutions. The state
//! rules are in [`crate::sync`].

use vstd::prelude::*;

use crate::diff::{unified, unified_of};
use crate::error::AppError;
use crate::links::opt_view_string;
use crate::models::SectionRow;
use crate::sync::{
    bases_view, classify_spec, pairs_view, reconcile, reconcile_spec, stale_side_of, strs_view, sync_views, SectionSync,
    SectionSyncView, SyncBase, SyncState, Variant,
};
use crate::text::{debug_quoted, quoted};

verus! {

/// `(anchor, hash)` pairs of stored sections, for [`crate::sync::plan`].
pub fn pairs(rows: &[SectionRow]) -> (r: Vec<(&str, crate::hash::Hash)>)
    ensures
        pairs_view(r@) == Seq::new(rows@.len(), |i: int| (rows@[i].anchor@, rows@[i].hash)),
{
    let mut out: Vec<(&str, crate::hash::Hash)> = Vec::new();
    let mut i: usize = 0;
    while i < rows.len()
        invariant
            0 <= i <= rows@.len(),
            pairs_view(out@) == Seq::new(i as nat, |k: int| (rows@[k].anchor@, rows@[k].hash)),
        decreases rows@.len() - i,
    {
        let ghost prev = out@;
        let a = rows[i].anchor.as_str();
        let h = rows[i].hash;
        out.push((a, h));
        assert(pairs_view(out@) =~= pairs_view(prev).push((a@, h)));
        assert(Seq::new((i + 1) as nat, |k: int| (rows@[k].anchor@, rows@[k].hash)) =~= Seq::new(
            i as nat,
            |k: int| (rows@[k].anchor@, rows@[k].hash),
        ).push((a@, h)));
        i += 1;
    }
    out
}

/// The title of the last row anchored at `anchor`.
pub open spec fn title_in(rows: Seq<SectionRow>, anchor: Seq<char>) -> Option<Seq<char>>
    decreases rows.len(),
{
    if rows.len() == 0 {
        None
    } else if rows.last().anchor@ == anchor {
        Some(rows.last().title@)
    } else {
        title_in(rows.drop_last(), anchor)
    }
}

/// The title shown for `anchor`: the human section's, else the AI section's, else empty.
pub open spec fn title_for(human: Seq<SectionRow>, ai: Seq<SectionRow>, anchor: Seq<char>) -> Seq<char> {
    match title_in(human, anchor) {
        Some(t) => t,
        None => match title_in(ai, anchor) {
            Some(t) => t,
            None => seq![],
        },
    }
}

fn find_title(rows: &[SectionRow], anchor: &str) -> (r: Option<String>)
    ensures
        opt_view_string(r) == title_in(rows@, anchor@),
{
    let mut j: usize = rows.len();
    assert(rows@.take(j as int) =~= rows@);
    while j > 0
        invariant
            j <= rows@.len(),
            title_in(rows@, anchor@) == title_in(rows@.take(j as int), anchor@),
        decreases j,
    {
        let ghost t = rows@.take(j as int);
        assert(t.last() == rows@[j - 1]);
        if crate::auth::str_eq(rows[j - 1].anchor.as_str(), anchor) {
            return Some(String::from_str(rows[j - 1].title.as_str()));
        }
        assert(t.drop_last() =~= rows@.take(j - 1));
        j -= 1;
    }
    None
}

/// The title shown for `anchor`: the human section's, else the AI section's, else empty.
pub fn section_title(human: &[SectionRow], ai: &[SectionRow], anchor: &str) -> (t: String)
    ensures
        t@ == title_for(human@, ai@, anchor@),
{
    match find_title(human, anchor) {
        Some(t) => t,
        None => match find_title(ai, anchor) {
            Some(t) => t,
            None => String::new(),
        },
    }
}

/// One section's sync status.
#[derive(Debug, Clone, PartialEq, Eq)]
pub struct SectionStatus {
    pub anchor: String,
    pub title: String,
    pub state: SyncState,
    pub stale_side: Option<Variant>,
}

/// The status of every section of a plan, titled from the stored sections.
pub fn section_statuses(plan: &[SectionSync], human: &[SectionRow], ai: &[SectionRow]) -> (r: Vec<SectionStatus>)
    ensures
        r@.len() == plan@.len(),
        forall|i: int|
            0 <= i < plan@.len() ==> {
                &&& (#[trigger] r@[i]).anchor@ == plan@[i].anchor@
                &&& r@[i].title@ == title_for(human@, ai@, plan@[i].anchor@)
                &&& r@[i].state == plan@[i].state
                &&& r@[i].stale_side == stale_side_of(plan@[i].state)
            },
{
    let mut out: Vec<SectionStatus> = Vec::new();
    let mut i: usize = 0;
    while i < plan.len()
        invariant
            0 <= i <= plan@.len(),
            out@.len() == i,
            forall|k: int|
                0 <= k < i ==> {
                    &&& (#[trigger] out@[k]).anchor@ == plan@[k].anchor@
                    &&& out@[k].title@ == title_for(human@, ai@, plan@[k].anchor@)
                    &&& out@[k].state == plan@[k].state
                    &&& out@[k].stale_side == stale_side_of(plan@[k].state)
                },
        decreases plan@.len() - i,
    {
        let s = &plan[i];
        out.push(
            SectionStatus {
                anchor: s.anchor.clone(),
                title: section_title(human, ai, s.anchor.as_str()),
                state: s.state,
                stale_side: s.state.stale_side(),
            },
        );
        i += 1;
    }
    out
}

/// A section needing attention, in a project's sync queue.
#[derive(Debug, Clone, PartialEq, Eq)]
pub struct QueueEntry {
    pub path: String,
    pub document_title: Option<String>,
    pub anchor: String,
    pub section_title: String,
    pub state: SyncState,
    pub stale_side: Option<Variant>,
}

/// The rows of `plan` that need attention.
pub open spec fn pending(plan: Seq<SectionSyncView>) -> Seq<SectionSyncView>
    decreases plan.len(),
{
    if plan.len() == 0 {
        seq![]
    } else if plan.last().state != SyncState::InSync {
        pending(plan.drop_last()).push(plan.last())
    } else {
        pending(plan.drop_last())
    }
}

/// The queue entries of one document: its sections that need attention.
pub fn queue_entries(
    path: &str,
    document_title: Option<&str>,
    plan: &[SectionSync],
    human: &[SectionRow],
    ai: &[SectionRow],
) -> (r: Vec<QueueEntry>)
    ensures
        r@.len() == pending(sync_views(plan@)).len(),
        forall|i: int|
            0 <= i < r@.len() ==> {
                let s = pending(sync_views(plan@))[i];
                &&& (#[trigger] r@[i]).path@ == path@
                &&& opt_view_string(r@[i].document_title) == match document_title {
                    Some(t) => Some(t@),
                    None => None::<Seq<char>>,
                }
                &&& r@[i].anchor@ == s.anchor
                &&& r@[i].section_title@ == title_for(human@, ai@, s.anchor)
                &&& r@[i].state == s.state
                &&& r@[i].stale_side == stale_side_of(s.state)
            },
{
    let ghost pv = sync_views(plan@);
    let ghost dt = match document_title {
        Some(t) => Some(t@),
        None => None::<Seq<char>>,
    };
    let mut out: Vec<QueueEntry> = Vec::new();
    let mut i: usize = 0;
    while i < plan.len()
        invariant
            0 <= i <= plan@.len(),
            pv == sync_views(plan@),
            dt == match document_title {
                Some(t) => Some(t@),
                None => None::<Seq<char>>,
            },
            out@.len() == pending(pv.take(i as int)).len(),
            forall|k: int|
                0 <= k < out@.len() ==> {
                    let s = pending(pv.take(i as int))[k];
                    &&& (#[trigger] out@[k]).path@ == path@
                    &&& opt_view_string(out@[k].document_title) == dt
                    &&& out@[k].anchor@ == s.anchor
                    &&& out@[k].section_title@ == title_for(human@, ai@, s.anchor)
                    &&& out@[k].state == s.state
                    &&& out@[k].stale_side == stale_side_of(s.state)
                },
        decreases plan@.len() - i,
    {
        let s = &plan[i];
        assert(pv.take(i + 1).drop_last() =~= pv.take(i as int));
        assert(pv.take(i + 1).last() == s@);
        if s.state.needs_attention() {
            out.push(
                QueueEntry {
                    path: String::from_str(path),
                    document_title: match document_title {
                        Some(t) => Some(String::from_str(t)),
                        None => None,
                    },
                    anchor: s.anchor.clone(),
                    section_title: section_title(human, ai, s.anchor.as_str()),
                    state: s.state,
                    stale_side: s.state.stale_side(),
                },
            );
        }
        i += 1;
    }
    assert(pv.take(i as int) =~= pv);
    out
}

/// The first of `anchors` that no row of `plan` carries.
pub open spec fn first_unknown(plan: Seq<SectionSyncView>, anchors: Seq<Seq<char>>) -> Option<Seq<char>>
    decreases anchors.len(),
{
    if anchors.len() == 0 {
        None
    } else if !(exists|i: int| 0 <= i < plan.len() && #[trigger] plan[i].anchor == anchors[0]) {
        Some(anchors[0])
    } else {
        first_unknown(plan, anchors.drop_first())
    }
}

/// `plan` with the rows of `anchors` recorded as in sync at their current hashes.
pub open spec fn marked_in_sync(plan: Seq<SectionSyncView>, anchors: Seq<Seq<char>>) -> Seq<SectionSyncView> {
    Seq::new(
        plan.len(),
        |i: int|
            if anchors.contains(plan[i].anchor) {
                SectionSyncView {
                    anchor: plan[i].anchor,
                    state: SyncState::InSync,
                    human: plan[i].human,
                    ai: plan[i].ai,
                    base: Some(SyncBase { human: plan[i].human, ai: plan[i].ai }),
                }
            } else {
                plan[i]
            },
    )
}

pub open spec fn strings_view(v: Seq<String>) -> Seq<Seq<char>> {
    Seq::new(v.len(), |i: int| v[i]@)
}

/// The position of the first row of `plan` for `anchor`; `NotFound` when no row
/// carries it.
pub fn plan_row(plan: &[SectionSync], anchor: &str) -> (r: Result<usize, AppError>)
    ensures
        match r {
            Ok(i) => i < plan@.len() && plan@[i as int].anchor@ == anchor@ && forall|k: int|
                0 <= k < i ==> #[trigger] plan@[k].anchor@ != anchor@,
            Err(e) => e == AppError::NotFound && forall|k: int| 0 <= k < plan@.len() ==> #[trigger] plan@[k].anchor@
                != anchor@,
        },
{
    let mut i: usize = 0;
    while i < plan.len()
        invariant
            0 <= i <= plan@.len(),
            forall|k: int| 0 <= k < i ==> #[trigger] plan@[k].anchor@ != anchor@,
        decreases plan@.len() - i,
    {
        if crate::auth::str_eq(plan[i].anchor.as_str(), anchor) {
            return Ok(i);
        }
        i += 1;
    }
    Err(AppError::NotFound)
}

pub fn plan_has(plan: &[SectionSync], anchor: &str) -> (b: bool)
    ensures
        b == exists|i: int| 0 <= i < plan@.len() && #[trigger] sync_views(plan@)[i].anchor == anchor@,
{
    let mut i: usize = 0;
    while i < plan.len()
        invariant
            0 <= i <= plan@.len(),
            forall|k: int| 0 <= k < i ==> plan@[k].anchor@ != anchor@,
        decreases plan@.len() - i,
    {
        if crate::auth::str_eq(plan[i].anchor.as_str(), anchor) {
            assert(sync_views(plan@)[i as int].anchor == anchor@);
            return true;
        }
        i += 1;
    }
    assert forall|k: int| 0 <= k < plan@.len() implies #[trigger] sync_views(plan@)[k].anchor != anchor@ by {
        assert(sync_views(plan@)[k].anchor == plan@[k].anchor@);
    }
    false
}

/// Accepts the current content of `anchors` as in sync: the new bases to store, and
/// the plan as it stands after. Every anchor must be in `plan`.
pub fn reconcile_plan(plan: &[SectionSync], anchors: &[String]) -> (r: Result<
    (Vec<SectionSync>, Vec<(String, SyncBase)>),
    AppError,
>)
    ensures
        match r {
            Ok((after, bases)) => {
                &&& first_unknown(sync_views(plan@), strings_view(anchors@)) is None
                &&& bases_view(bases@) == reconcile_spec(sync_views(plan@), strings_view(anchors@))
                &&& sync_views(after@) == marked_in_sync(sync_views(plan@), strings_view(anchors@))
            },
            Err(e) => match first_unknown(sync_views(plan@), strings_view(anchors@)) {
                Some(u) => e is Invalid && e->Invalid_0@ == "unknown section anchor "@ + debug_quoted(u),
                None => false,
            },
        },
{
    let ghost pv = sync_views(plan@);
    let ghost av = strings_view(anchors@);
    let mut refs: Vec<&str> = Vec::new();
    let mut i: usize = 0;
    assert(av.skip(0) =~= av);
    while i < anchors.len()
        invariant
            0 <= i <= anchors@.len(),
            pv == sync_views(plan@),
            av == strings_view(anchors@),
            first_unknown(pv, av) == first_unknown(pv, av.skip(i as int)),
            strs_view(refs@) == av.take(i as int),
        decreases anchors@.len() - i,
    {
        let a = anchors[i].as_str();
        assert(av.skip(i as int)[0] == a@);
        if !plan_has(plan, a) {
            let mut msg = String::from_str("unknown section anchor ");
            msg.append(quoted(a).as_str());
            return Err(AppError::Invalid(msg));
        }
        assert(av.skip(i as int).drop_first() =~= av.skip(i + 1));
        let ghost prev = refs@;
        refs.push(a);
        assert(strs_view(refs@) =~= strs_view(prev).push(a@));
        assert(av.take(i + 1) =~= av.take(i as int).push(a@));
        i += 1;
    }
    assert(av.skip(i as int) =~= Seq::<Seq<char>>::empty());
    assert(av.take(i as int) =~= av);
    let bases = reconcile(plan, refs.as_slice());
    let mut after: Vec<SectionSync> = Vec::new();
    let mut k: usize = 0;
    while k < plan.len()
        invariant
            0 <= k <= plan@.len(),
            pv == sync_views(plan@),
            av == strings_view(anchors@),
            strs_view(refs@) == av,
            sync_views(after@) == marked_in_sync(pv, av).take(k as int),
        decreases plan@.len() - k,
    {
        let s = &plan[k];
        let mut j: usize = 0;
        let mut hit = false;
        while j < refs.len()
            invariant
                0 <= j <= refs@.len(),
                hit == exists|m: int| 0 <= m < j && strs_view(refs@)[m] == s.anchor@,
            decreases refs@.len() - j,
        {
            if crate::auth::str_eq(refs[j], s.anchor.as_str()) {
                assert(strs_view(refs@)[j as int] == s.anchor@);
                hit = true;
            }
            j += 1;
        }
        assert(hit == av.contains(s.anchor@));
        let row = if hit {
            SectionSync { anchor: s.anchor.clone(), state: SyncState::InSync, human: s.human, ai: s.ai, base: Some(s.reconciled()) }
        } else {
            SectionSync { anchor: s.anchor.clone(), state: s.state, human: s.human, ai: s.ai, base: s.base }
        };
        let ghost prev = sync_views(after@);
        after.push(row);
        assert(sync_views(after@) =~= prev.push(after@.last()@));
        assert(marked_in_sync(pv, av).take(k + 1) =~= marked_in_sync(pv, av).take(k as int).push(
            marked_in_sync(pv, av)[k as int],
        ));
        k += 1;
    }
    assert(marked_in_sync(pv, av).take(k as int) =~= marked_in_sync(pv, av));
    Ok((after, bases))
}

/// A section's current text in one variant.
#[derive(Debug, Clone, PartialEq, Eq)]
pub struct SectionText {
    pub title: String,
    pub body: String,
    pub hash: crate::hash::Hash,
}

/// What an actor needs to propagate one section.
#[derive(Debug, Clone, PartialEq, Eq)]
pub struct SyncItem {
    pub path: String,
    pub anchor: String,
    pub state: SyncState,
    pub stale_side: Option<Variant>,
    pub human: Option<SectionText>,
    pub ai: Option<SectionText>,
    /// Section text at the last reconciliation, when still present in history.
    pub human_base: Option<String>,
    pub ai_base: Option<String>,
    /// Unified diff base → current, for each side that changed.
    pub human_diff: Option<String>,
    pub ai_diff: Option<String>,
    /// Content hashes to pass as `If-Match` when writing each variant.
    pub human_head: Option<crate::hash::Hash>,
    pub ai_head: Option<crate::hash::Hash>,
}

/// Whether the human side moved since the pair was last in sync.
pub open spec fn human_changed(s: SyncState) -> bool {
    s == SyncState::HumanAhead || s == SyncState::Conflict
}

/// Whether the AI side moved since the pair was last in sync.
pub open spec fn ai_changed(s: SyncState) -> bool {
    s == SyncState::AiAhead || s == SyncState::Conflict
}

pub open spec fn text_or_empty(t: Option<String>) -> Seq<char> {
    match t {
        Some(s) => s@,
        None => seq![],
    }
}

pub open spec fn body_or_empty(t: Option<SectionText>) -> Seq<char> {
    match t {
        Some(s) => s.body@,
        None => seq![],
    }
}

/// The diff from the synced text to the current one, for a side that changed.
pub open spec fn side_diff(base: Option<String>, current: Option<SectionText>, changed: bool) -> Option<Seq<char>> {
    if changed {
        Some(unified_of(text_or_empty(base), body_or_empty(current), "synced"@, "current"@))
    } else {
        None
    }
}

fn diff_side(base: &Option<String>, current: &Option<SectionText>, changed: bool) -> (r: Option<String>)
    ensures
        opt_view_string(r) == side_diff(*base, *current, changed),
{
    if !changed {
        return None;
    }
    let b = match base {
        Some(s) => s.as_str(),
        None => "",
    };
    let c = match current {
        Some(t) => t.body.as_str(),
        None => "",
    };
    proof {
        reveal_strlit("");
    }
    assert(b@ == text_or_empty(*base));
    assert(c@ == body_or_empty(*current));
    Some(unified(b, c, "synced", "current"))
}

/// Assembles the propagation detail of plan row `s` of the document at `path`, from
/// each side's current section, its text at the last reconciliation, and its head.
pub fn sync_item(
    path: String,
    s: &SectionSync,
    human: Option<SectionText>,
    ai: Option<SectionText>,
    human_base: Option<String>,
    ai_base: Option<String>,
    human_head: Option<crate::hash::Hash>,
    ai_head: Option<crate::hash::Hash>,
) -> (r: SyncItem)
    ensures
        r.path == path,
        r.anchor@ == s.anchor@,
        r.state == s.state,
        r.stale_side == stale_side_of(s.state),
        r.human == human,
        r.ai == ai,
        r.human_base == human_base,
        r.ai_base == ai_base,
        opt_view_string(r.human_diff) == side_diff(human_base, human, human_changed(s.state)),
        opt_view_string(r.ai_diff) == side_diff(ai_base, ai, ai_changed(s.state)),
        r.human_head == human_head,
        r.ai_head == ai_head,
{
    let hc = match s.state {
        SyncState::HumanAhead | SyncState::Conflict => true,
        _ => false,
    };
    let ac = match s.state {
        SyncState::AiAhead | SyncState::Conflict => true,
        _ => false,
    };
    let human_diff = diff_side(&human_base, &human, hc);
    let ai_diff = diff_side(&ai_base, &ai, ac);
    SyncItem {
        path,
        anchor: s.anchor.clone(),
        state: s.state,
        stale_side: s.state.stale_side(),
        human,
        ai,
        human_base,
        ai_base,
        human_diff,
        ai_diff,
        human_head,
        ai_head,
    }
}

/// What a pair was last reconciled at, with an absent base read as neither side
/// written.
pub open spec fn base_or_unwritten(base: Option<SyncBase>) -> SyncBase {
    match base {
        Some(b) => b,
        None => SyncBase { human: None, ai: None },
    }
}

/// A sync item shows a side's diff exactly when that side moved since the pair was
/// last in sync: for a pair whose sides differ, classified against `base`, the
/// human diff is there iff the human hash is no longer the base's, and likewise
/// for the AI side. So a conflict shows both diffs, each from the synced text to
/// the current one.
pub proof fn lemma_sync_item_diffs_follow_changes(
    base: Option<SyncBase>,
    human: Option<crate::hash::Hash>,
    ai: Option<crate::hash::Hash>,
    human_base: Option<String>,
    ai_base: Option<String>,
    human_text: Option<SectionText>,
    ai_text: Option<SectionText>,
)
    requires
        human != ai,
    ensures
        ({
            let state = classify_spec(base, human, ai)->Some_0;
            &&& side_diff(human_base, human_text, human_changed(state)) is Some <==> human != base_or_unwritten(base).human
            &&& side_diff(ai_base, ai_text, ai_changed(state)) is Some <==> ai != base_or_unwritten(base).ai
            &&& state == SyncState::Conflict ==> side_diff(human_base, human_text, human_changed(state)) == Some(
                unified_of(text_or_empty(human_base), body_or_empty(human_text), "synced"@, "current"@),
            ) && side_diff(ai_base, ai_text, ai_changed(state)) == Some(
                unified_of(text_or_empty(ai_base), body_or_empty(ai_text), "synced"@, "current"@),
            )
        }),
{
}

} // verus!
