//! Translation proposals. The human and AI variants are two translations of one
//! document; when one side changes, an agent submits a replacement of the other side
//! as a proposal, and a maintainer accepts it (writing it and marking its `resolves`
//! sections in sync) or rejects it. The translation guide tells agents how the two
//! variants differ.

use vstd::prelude::*;

use crate::ctx::Author;
use crate::documents::Expect;
use crate::diff::{unified, unified_of};
use crate::error::AppError;
use crate::ids::{DocumentId, ProposalId, TokenId, UserId};
use crate::links::opt_view_string;
use crate::path::DocPath;
use crate::status::{first_unknown, plan_has, strings_view};
use crate::sync::{sync_views, variant_text, SectionSync, SectionSyncView, SyncState, Variant};
use crate::text::{debug_quoted, quoted};

verus! {

/// Path of a project's translation guide. Resolved through inheritance, so a guide in
/// a parent project applies to its descendants.
pub const GUIDE_PATH: &'static str = "_meta/translation";

/// Guide used when no project in the inheritance chain defines one.
pub const DEFAULT_GUIDE: &'static str = "# Translation guide

Each document has a human variant and an AI variant. They describe the same reality for different readers and are translations of each other: every fact, decision and constraint in one must be in the other, and neither adds facts the other lacks.

## Human variant

Narrative prose for people. Explains context, reasoning and trade-offs, defines terms on first use, and uses complete sentences.

## AI variant

Dense, structured reference for agents. Bullet lists and `key: value` pairs; exact identifiers, paths, commands, limits and units; no narrative or repetition.

## Rules

- Keep the same sections in both variants so they pair up. Headings may be worded differently when both carry the same explicit anchor, e.g. `## Expiry {#expiry}`.
- Translate meaning, not wording: carry over every fact and change only the form.
- Do not resolve ambiguity by guessing. Keep it, and point it out in the proposal message.
- Keep links and `{{include}}` directives; they resolve per variant.
";

/// The translation guide in effect for a project.
#[derive(Debug, Clone, PartialEq, Eq)]
pub struct TranslationGuide {
    /// `project:path` of the guide document; `None` for the built-in default.
    pub source: Option<String>,
    pub content: String,
}

/// A request to propose a translation of one variant.
pub struct Propose<'a> {
    pub project: &'a str,
    pub path: &'a DocPath,
    /// The variant the proposal replaces.
    pub variant: Variant,
    pub content: &'a str,
    /// Content hash of the variant being replaced; `None` when it does not exist yet.
    pub base: Option<crate::hash::Hash>,
    pub message: Option<&'a str>,
    /// Anchors the proposal translates. Empty: every section needing attention that
    /// the proposal leaves in the plan.
    pub resolves: &'a [String],
}

/// A proposal to store.
pub struct NewProposal<'a> {
    pub document: DocumentId,
    pub variant: Variant,
    pub base_hash: Option<crate::hash::Hash>,
    pub source_hash: Option<crate::hash::Hash>,
    pub content: &'a str,
    pub resolves: &'a [String],
    pub message: Option<&'a str>,
    pub author: Author,
}

/// A stored proposal.
#[derive(Debug, Clone, PartialEq, Eq)]
pub struct Proposal {
    pub id: ProposalId,
    pub document_id: DocumentId,
    pub path: String,
    pub variant: Variant,
    /// Head of the replaced variant when the proposal was submitted.
    pub base_hash: Option<crate::hash::Hash>,
    /// Head of the other variant, the one translated, when it was submitted.
    pub source_hash: Option<crate::hash::Hash>,
    pub content: String,
    pub resolves: Vec<String>,
    pub message: Option<String>,
    pub author_user_id: Option<UserId>,
    pub author_token_id: Option<TokenId>,
}

/// A proposal with its standing against the current heads.
#[derive(Debug, Clone, PartialEq, Eq)]
pub struct ProposalView {
    pub proposal: Proposal,
    /// A head moved since submission; the proposal can no longer be accepted.
    pub outdated: bool,
    /// Unified diff from the current variant to the proposed content.
    pub diff: String,
}

/// Proposal covering a section, for queue and status listings.
#[derive(Debug, Clone, Copy, PartialEq, Eq)]
pub struct ProposalRef {
    pub id: ProposalId,
    pub variant: Variant,
    pub outdated: bool,
}

/// The head hash of variant `v`, given both heads.
pub open spec fn head_of(v: Variant, human: Option<crate::hash::Hash>, ai: Option<crate::hash::Hash>) -> Option<
    crate::hash::Hash,
> {
    match v {
        Variant::Human => human,
        Variant::Ai => ai,
    }
}

fn head_hash(v: Variant, human: Option<crate::hash::Hash>, ai: Option<crate::hash::Hash>) -> (h: Option<crate::hash::Hash>)
    ensures
        h == head_of(v, human, ai),
{
    match v {
        Variant::Human => human,
        Variant::Ai => ai,
    }
}

fn same_hash(a: Option<crate::hash::Hash>, b: Option<crate::hash::Hash>) -> (r: bool)
    ensures
        r == (a == b),
{
    match (a, b) {
        (None, None) => true,
        (Some(x), Some(y)) => x == y,
        _ => false,
    }
}

/// A proposal is outdated once either head moved since it was submitted.
pub open spec fn is_outdated(
    p: Proposal,
    human: Option<crate::hash::Hash>,
    ai: Option<crate::hash::Hash>,
) -> bool {
    p.base_hash != head_of(p.variant, human, ai) || p.source_hash != head_of(
        crate::sync::other_variant(p.variant),
        human,
        ai,
    )
}

/// Whether `p` is outdated against the current heads.
pub fn outdated(p: &Proposal, human: Option<crate::hash::Hash>, ai: Option<crate::hash::Hash>) -> (b: bool)
    ensures
        b == is_outdated(*p, human, ai),
{
    !same_hash(p.base_hash, head_hash(p.variant, human, ai)) || !same_hash(
        p.source_hash,
        head_hash(p.variant.other(), human, ai),
    )
}

/// The proposal with its standing and its diff from the current content of the
/// replaced variant (`human_content` or `ai_content`, empty when not written).
pub fn view(
    p: Proposal,
    human: Option<crate::hash::Hash>,
    ai: Option<crate::hash::Hash>,
    human_content: &str,
    ai_content: &str,
) -> (v: ProposalView)
    ensures
        v.proposal == p,
        v.outdated == is_outdated(p, human, ai),
        v.diff@ == unified_of(
            match p.variant {
                Variant::Human => human_content@,
                Variant::Ai => ai_content@,
            },
            p.content@,
            "current"@,
            "proposed"@,
        ),
{
    let current = match p.variant {
        Variant::Human => human_content,
        Variant::Ai => ai_content,
    };
    let o = outdated(&p, human, ai);
    let diff = unified(current, p.content.as_str(), "current", "proposed");
    ProposalView { proposal: p, outdated: o, diff }
}

/// The index of the entry keyed `a`, or -1.
pub open spec fn ref_index(list: Seq<(Seq<char>, ProposalRef)>, a: Seq<char>) -> int
    decreases list.len(),
{
    if list.len() == 0 {
        -1
    } else if list.last().0 == a {
        list.len() - 1
    } else {
        ref_index(list.drop_last(), a)
    }
}

proof fn lemma_ref_index(list: Seq<(Seq<char>, ProposalRef)>, a: Seq<char>)
    ensures
        -1 <= ref_index(list, a) < list.len(),
        ref_index(list, a) >= 0 ==> list[ref_index(list, a)].0 == a,
        ref_index(list, a) < 0 ==> forall|i: int| 0 <= i < list.len() ==> #[trigger] list[i].0 != a,
    decreases list.len(),
{
    if list.len() > 0 {
        lemma_ref_index(list.drop_last(), a);
        assert forall|i: int| 0 <= i < list.len() - 1 implies #[trigger] list[i] == list.drop_last()[i] by {}
    }
}

/// `list` with `r` recorded for anchor `a`, unless `a` already has a current proposal
/// or `r` is outdated too.
pub open spec fn upsert_ref(list: Seq<(Seq<char>, ProposalRef)>, a: Seq<char>, r: ProposalRef) -> Seq<
    (Seq<char>, ProposalRef),
> {
    let i = ref_index(list, a);
    if i < 0 {
        list.push((a, r))
    } else if list[i].1.outdated && !r.outdated {
        list.update(i, (a, r))
    } else {
        list
    }
}

pub open spec fn upsert_all(list: Seq<(Seq<char>, ProposalRef)>, anchors: Seq<Seq<char>>, r: ProposalRef) -> Seq<
    (Seq<char>, ProposalRef),
>
    decreases anchors.len(),
{
    if anchors.len() == 0 {
        list
    } else {
        upsert_ref(upsert_all(list, anchors.drop_last(), r), anchors.last(), r)
    }
}

/// The proposals keyed by the anchors they resolve, in order of first mention. A
/// current proposal wins over an outdated one for the same anchor.
pub open spec fn refs_of(
    ps: Seq<Proposal>,
    human: Option<crate::hash::Hash>,
    ai: Option<crate::hash::Hash>,
) -> Seq<(Seq<char>, ProposalRef)>
    decreases ps.len(),
{
    if ps.len() == 0 {
        seq![]
    } else {
        let p = ps.last();
        upsert_all(
            refs_of(ps.drop_last(), human, ai),
            strings_view(p.resolves@),
            ProposalRef { id: p.id, variant: p.variant, outdated: is_outdated(p, human, ai) },
        )
    }
}

pub open spec fn ref_views(v: Seq<(String, ProposalRef)>) -> Seq<(Seq<char>, ProposalRef)> {
    Seq::new(v.len(), |i: int| (v[i].0@, v[i].1))
}

fn upsert(out: &mut Vec<(String, ProposalRef)>, a: &str, r: ProposalRef)
    ensures
        ref_views(final(out)@) == upsert_ref(ref_views(old(out)@), a@, r),
{
    let ghost before = ref_views(out@);
    proof {
        lemma_ref_index(before, a@);
    }
    let mut j: usize = out.len();
    assert(before.take(j as int) =~= before);
    while j > 0
        invariant
            j <= out@.len(),
            before == ref_views(out@),
            before == ref_views(old(out)@),
            ref_index(before, a@) == ref_index(before.take(j as int), a@),
        decreases j,
    {
        let ghost t = before.take(j as int);
        assert(t.last() == before[j - 1]);
        if crate::auth::str_eq(out[j - 1].0.as_str(), a) {
            assert(ref_index(before, a@) == j - 1);
            assert(before[j - 1] == (out@[j - 1].0@, out@[j - 1].1));
            if out[j - 1].1.outdated && !r.outdated {
                let key = String::from_str(a);
                out.set(j - 1, (key, r));
                assert(ref_views(out@) =~= before.update(j - 1, (a@, r)));
            }
            return;
        }
        assert(t.drop_last() =~= before.take(j - 1));
        j -= 1;
    }
    out.push((String::from_str(a), r));
    assert(ref_views(out@) =~= before.push((a@, r)));
}

/// Whether the entry keyed `a` in `list` exists and is current.
pub open spec fn current_ref(list: Seq<(Seq<char>, ProposalRef)>, a: Seq<char>) -> bool {
    exists|i: int| 0 <= i < list.len() && #[trigger] list[i].0 == a && !list[i].1.outdated
}

/// No key occurs twice.
pub open spec fn unique_keys(list: Seq<(Seq<char>, ProposalRef)>) -> bool {
    forall|i: int, j: int| 0 <= i < j < list.len() ==> #[trigger] list[i].0 != #[trigger] list[j].0
}

proof fn lemma_upsert_ref(list: Seq<(Seq<char>, ProposalRef)>, a: Seq<char>, r: ProposalRef, b: Seq<char>)
    requires
        unique_keys(list),
    ensures
        unique_keys(upsert_ref(list, a, r)),
        current_ref(list, b) ==> current_ref(upsert_ref(list, a, r), b),
        !r.outdated ==> current_ref(upsert_ref(list, a, r), a),
{
    lemma_ref_index(list, a);
    let u = upsert_ref(list, a, r);
    let i = ref_index(list, a);
    if i < 0 {
        assert forall|x: int, y: int| 0 <= x < y < u.len() implies #[trigger] u[x].0 != #[trigger] u[y].0 by {
            if y == list.len() {
                assert(list[x].0 != a);
            } else {
                assert(u[x] == list[x] && u[y] == list[y]);
            }
        }
        if current_ref(list, b) {
            let w = choose|w: int| 0 <= w < list.len() && #[trigger] list[w].0 == b && !list[w].1.outdated;
            assert(u[w] == list[w]);
        }
        assert(u[list.len() as int] == (a, r));
        assert(u[list.len() as int].0 == a);
    } else if !r.outdated && list[i].1.outdated {
        assert forall|x: int, y: int| 0 <= x < y < u.len() implies #[trigger] u[x].0 != #[trigger] u[y].0 by {
            assert(u[x].0 == list[x].0 && u[y].0 == list[y].0);
        }
        if current_ref(list, b) {
            let w = choose|w: int| 0 <= w < list.len() && #[trigger] list[w].0 == b && !list[w].1.outdated;
            if w == i {
                assert(u[w] == (a, r));
            } else {
                assert(u[w] == list[w]);
            }
        }
        assert(u[i] == (a, r));
        assert(u[i].0 == a);
    } else {
        if !r.outdated {
            assert(list[i].0 == a && !list[i].1.outdated);
        }
    }
}

proof fn lemma_upsert_all(list: Seq<(Seq<char>, ProposalRef)>, anchors: Seq<Seq<char>>, r: ProposalRef, b: Seq<char>)
    requires
        unique_keys(list),
    ensures
        unique_keys(upsert_all(list, anchors, r)),
        current_ref(list, b) ==> current_ref(upsert_all(list, anchors, r), b),
        !r.outdated && anchors.contains(b) ==> current_ref(upsert_all(list, anchors, r), b),
    decreases anchors.len(),
{
    if anchors.len() > 0 {
        let init = anchors.drop_last();
        lemma_upsert_all(list, init, r, b);
        let mid = upsert_all(list, init, r);
        lemma_upsert_ref(mid, anchors.last(), r, b);
        if !r.outdated && anchors.contains(b) && anchors.last() != b {
            let k = choose|k: int| 0 <= k < anchors.len() && anchors[k] == b;
            assert(init[k] == b);
        }
    }
}

proof fn lemma_refs_unique(ps: Seq<Proposal>, human: Option<crate::hash::Hash>, ai: Option<crate::hash::Hash>)
    ensures
        unique_keys(refs_of(ps, human, ai)),
    decreases ps.len(),
{
    if ps.len() > 0 {
        lemma_refs_unique(ps.drop_last(), human, ai);
        let p = ps.last();
        lemma_upsert_all(
            refs_of(ps.drop_last(), human, ai),
            strings_view(p.resolves@),
            ProposalRef { id: p.id, variant: p.variant, outdated: is_outdated(p, human, ai) },
            seq![],
        );
    }
}

/// A current proposal wins over an outdated one for the same anchor: when any
/// proposal resolving `a` is still current, the proposals listed for `a` hold an
/// entry for it, and the one entry keyed `a` is current, whatever the order of the
/// proposals.
pub proof fn lemma_current_proposal_wins(
    ps: Seq<Proposal>,
    human: Option<crate::hash::Hash>,
    ai: Option<crate::hash::Hash>,
    j: int,
    a: Seq<char>,
)
    requires
        0 <= j < ps.len(),
        strings_view(ps[j].resolves@).contains(a),
        !is_outdated(ps[j], human, ai),
    ensures
        exists|i: int| 0 <= i < refs_of(ps, human, ai).len() && #[trigger] refs_of(ps, human, ai)[i].0 == a,
        forall|i: int|
            0 <= i < refs_of(ps, human, ai).len() && #[trigger] refs_of(ps, human, ai)[i].0 == a
                ==> !refs_of(ps, human, ai)[i].1.outdated,
        forall|i: int, k: int|
            0 <= i < k < refs_of(ps, human, ai).len() ==> #[trigger] refs_of(ps, human, ai)[i].0
                != #[trigger] refs_of(ps, human, ai)[k].0,
    decreases ps.len(),
{
    lemma_refs_unique(ps, human, ai);
    lemma_current_ref(ps, human, ai, j, a);
    let l = refs_of(ps, human, ai);
    let w = choose|w: int| 0 <= w < l.len() && #[trigger] l[w].0 == a && !l[w].1.outdated;
    assert forall|i: int| 0 <= i < l.len() && #[trigger] l[i].0 == a implies !l[i].1.outdated by {
        if i != w {
            if i < w {
                assert(l[i].0 != l[w].0);
            } else {
                assert(l[w].0 != l[i].0);
            }
        }
    }
}

proof fn lemma_current_ref(
    ps: Seq<Proposal>,
    human: Option<crate::hash::Hash>,
    ai: Option<crate::hash::Hash>,
    j: int,
    a: Seq<char>,
)
    requires
        0 <= j < ps.len(),
        strings_view(ps[j].resolves@).contains(a),
        !is_outdated(ps[j], human, ai),
    ensures
        current_ref(refs_of(ps, human, ai), a),
    decreases ps.len(),
{
    let init = ps.drop_last();
    let p = ps.last();
    lemma_refs_unique(init, human, ai);
    let r = ProposalRef { id: p.id, variant: p.variant, outdated: is_outdated(p, human, ai) };
    if j < ps.len() - 1 {
        assert(init[j] == ps[j]);
        lemma_current_ref(init, human, ai, j, a);
    }
    lemma_upsert_all(refs_of(init, human, ai), strings_view(p.resolves@), r, a);
}

/// Proposals of a document keyed by the anchors they resolve. A current proposal
/// wins over an outdated one for the same anchor.
pub fn proposal_refs(proposals: &[Proposal], human: Option<crate::hash::Hash>, ai: Option<crate::hash::Hash>) -> (r: Vec<
    (String, ProposalRef),
>)
    ensures
        ref_views(r@) == refs_of(proposals@, human, ai),
{
    let mut out: Vec<(String, ProposalRef)> = Vec::new();
    let mut i: usize = 0;
    assert(ref_views(out@) =~= refs_of(proposals@.take(0), human, ai));
    while i < proposals.len()
        invariant
            0 <= i <= proposals@.len(),
            ref_views(out@) == refs_of(proposals@.take(i as int), human, ai),
        decreases proposals@.len() - i,
    {
        let p = &proposals[i];
        assert(proposals@.take(i + 1).drop_last() =~= proposals@.take(i as int));
        assert(proposals@.take(i + 1).last() == *p);
        let r = ProposalRef { id: p.id, variant: p.variant, outdated: outdated(p, human, ai) };
        let ghost start = ref_views(out@);
        let ghost av = strings_view(p.resolves@);
        let mut k: usize = 0;
        assert(av.take(0) =~= Seq::<Seq<char>>::empty());
        while k < p.resolves.len()
            invariant
                0 <= k <= p.resolves@.len(),
                av == strings_view(p.resolves@),
                ref_views(out@) == upsert_all(start, av.take(k as int), r),
            decreases p.resolves@.len() - k,
        {
            assert(av.take(k + 1).drop_last() =~= av.take(k as int));
            assert(av.take(k + 1).last() == p.resolves@[k as int]@);
            upsert(&mut out, p.resolves[k].as_str(), r);
            k += 1;
        }
        assert(av.take(k as int) =~= av);
        i += 1;
    }
    assert(proposals@.take(i as int) =~= proposals@);
    out
}

/// The message for proposing a translation of a variant whose counterpart is unwritten.
pub open spec fn nothing_to_translate_text(v: Variant) -> Seq<char> {
    "nothing to translate: the "@ + variant_text(crate::sync::other_variant(v)) + " variant has not been written"@
}

/// Checks a proposal against the current heads: the other variant must exist, and
/// `base` must be the replaced variant's head. Returns both heads, replaced first.
pub fn check_proposal(
    variant: Variant,
    base: Option<crate::hash::Hash>,
    human: Option<crate::hash::Hash>,
    ai: Option<crate::hash::Hash>,
) -> (r: Result<(Option<crate::hash::Hash>, Option<crate::hash::Hash>), AppError>)
    ensures
        match r {
            Ok((b, s)) => {
                &&& b == head_of(variant, human, ai)
                &&& s == head_of(crate::sync::other_variant(variant), human, ai)
                &&& s is Some
                &&& base == b
            },
            Err(e) => if head_of(crate::sync::other_variant(variant), human, ai) is None {
                e is Invalid && e->Invalid_0@ == nothing_to_translate_text(variant)
            } else {
                base != head_of(variant, human, ai) && e == AppError::PreconditionFailed {
                    current: head_of(variant, human, ai),
                }
            },
        },
{
    let b = head_hash(variant, human, ai);
    let s = head_hash(variant.other(), human, ai);
    if s.is_none() {
        let mut msg = String::from_str("nothing to translate: the ");
        msg.append(variant.other().as_str());
        msg.append(" variant has not been written");
        return Err(AppError::Invalid(msg));
    }
    if !same_hash(base, b) {
        return Err(AppError::PreconditionFailed { current: b });
    }
    Ok((b, s))
}

/// The anchors a proposal resolves. With none requested: every row of `current`
/// needing attention whose anchor is still in `after`, the plan with the proposal
/// applied. Otherwise the requested anchors, each of which must be in `after`.
pub open spec fn resolves_of(
    current: Seq<SectionSyncView>,
    after: Seq<SectionSyncView>,
    requested: Seq<Seq<char>>,
) -> Seq<Seq<char>>
    decreases current.len(),
{
    if requested.len() > 0 {
        requested
    } else if current.len() == 0 {
        seq![]
    } else {
        let rest = resolves_of(current.drop_last(), after, requested);
        let s = current.last();
        if s.state != SyncState::InSync && exists|i: int| 0 <= i < after.len() && #[trigger] after[i].anchor == s.anchor {
            rest.push(s.anchor)
        } else {
            rest
        }
    }
}

pub fn proposal_resolves(current: &[SectionSync], after: &[SectionSync], requested: &[String]) -> (r: Result<
    Vec<String>,
    AppError,
>)
    ensures
        match r {
            Ok(v) => {
                &&& (requested@.len() > 0 ==> first_unknown(sync_views(after@), strings_view(requested@)) is None)
                &&& strings_view(v@) == resolves_of(sync_views(current@), sync_views(after@), strings_view(requested@))
            },
            Err(e) => requested@.len() > 0 && match first_unknown(sync_views(after@), strings_view(requested@)) {
                Some(u) => e is Invalid && e->Invalid_0@ == "unknown section anchor "@ + debug_quoted(u),
                None => false,
            },
        },
{
    let ghost cv = sync_views(current@);
    let ghost afv = sync_views(after@);
    let ghost rv = strings_view(requested@);
    if requested.len() > 0 {
        let mut out: Vec<String> = Vec::new();
        let mut i: usize = 0;
        assert(rv.skip(0) =~= rv);
        while i < requested.len()
            invariant
                0 <= i <= requested@.len(),
                afv == sync_views(after@),
                rv == strings_view(requested@),
                first_unknown(afv, rv) == first_unknown(afv, rv.skip(i as int)),
                strings_view(out@) == rv.take(i as int),
            decreases requested@.len() - i,
        {
            let a = requested[i].as_str();
            assert(rv.skip(i as int)[0] == a@);
            if !plan_has(after, a) {
                let mut msg = String::from_str("unknown section anchor ");
                msg.append(quoted(a).as_str());
                return Err(AppError::Invalid(msg));
            }
            assert(rv.skip(i as int).drop_first() =~= rv.skip(i + 1));
            let ghost prev = strings_view(out@);
            out.push(String::from_str(a));
            assert(strings_view(out@) =~= prev.push(a@));
            assert(rv.take(i + 1) =~= rv.take(i as int).push(a@));
            i += 1;
        }
        assert(rv.skip(i as int) =~= Seq::<Seq<char>>::empty());
        assert(rv.take(i as int) =~= rv);
        return Ok(out);
    }
    let mut out: Vec<String> = Vec::new();
    let mut i: usize = 0;
    assert(strings_view(out@) =~= resolves_of(cv.take(0), afv, rv));
    while i < current.len()
        invariant
            0 <= i <= current@.len(),
            cv == sync_views(current@),
            afv == sync_views(after@),
            rv == strings_view(requested@),
            rv.len() == 0,
            strings_view(out@) == resolves_of(cv.take(i as int), afv, rv),
        decreases current@.len() - i,
    {
        let s = &current[i];
        assert(cv.take(i + 1).drop_last() =~= cv.take(i as int));
        assert(cv.take(i + 1).last() == s@);
        if s.state.needs_attention() && plan_has(after, s.anchor.as_str()) {
            let ghost prev = strings_view(out@);
            out.push(s.anchor.clone());
            assert(strings_view(out@) =~= prev.push(s.anchor@));
        }
        i += 1;
    }
    assert(cv.take(i as int) =~= cv);
    Ok(out)
}

/// The commit message of an accepted proposal when it carries none.
pub const ACCEPT_MESSAGE: &'static str = "Accept translation proposal";

/// What accepting `p` writes, given the current heads: refused with the replaced
/// variant's head when `p` is outdated; otherwise the write expects the head `p`
/// was made against (no head when it had none) and carries `p`'s message, or
/// [`ACCEPT_MESSAGE`] without one.
pub fn accept_decision(p: &Proposal, human: Option<crate::hash::Hash>, ai: Option<crate::hash::Hash>) -> (r: Result<
    (Expect, String),
    AppError,
>)
    ensures
        match r {
            Ok((expect, message)) => {
                &&& !is_outdated(*p, human, ai)
                &&& expect == match p.base_hash {
                    Some(h) => Expect::Head(h),
                    None => Expect::Absent,
                }
                &&& message@ == match p.message {
                    Some(m) => m@,
                    None => ACCEPT_MESSAGE@,
                }
            },
            Err(e) => is_outdated(*p, human, ai) && e == AppError::PreconditionFailed {
                current: head_of(p.variant, human, ai),
            },
        },
{
    if outdated(p, human, ai) {
        return Err(AppError::PreconditionFailed { current: head_hash(p.variant, human, ai) });
    }
    let expect = match p.base_hash {
        Some(h) => Expect::Head(h),
        None => Expect::Absent,
    };
    let message = match &p.message {
        Some(m) => m.clone(),
        None => String::from_str(ACCEPT_MESSAGE),
    };
    Ok((expect, message))
}

/// The guide source text for a guide found in project `owner`: `owner:` and
/// [`GUIDE_PATH`].
pub open spec fn guide_source(owner: Seq<char>) -> Seq<char> {
    owner + seq![':'] + GUIDE_PATH@
}

/// The translation guide in effect, given the nearest guide document found along
/// the project chain, if any, as its owner's slug and its content (the AI variant,
/// else the human one): that document, or else the built-in [`DEFAULT_GUIDE`].
pub fn translation_guide(found: Option<(&str, String)>) -> (g: TranslationGuide)
    ensures
        match found {
            Some((owner, content)) => opt_view_string(g.source) == Some(guide_source(owner@)) && g.content@
                == content@,
            None => g.source is None && g.content@ == DEFAULT_GUIDE@,
        },
{
    match found {
        Some((owner, content)) => {
            let mut source = String::from_str(owner);
            source.append(":");
            source.append(GUIDE_PATH);
            proof {
                reveal_strlit(":");
            }
            TranslationGuide { source: Some(source), content }
        },
        None => TranslationGuide { source: None, content: String::from_str(DEFAULT_GUIDE) },
    }
}

/// The sync plan as it would stand with a proposal applied: the proposed sections
/// (`proposed`, anchors and hashes) take the place of `variant`'s current ones, the
/// other variant keeps its current sections, against the recorded `bases`.
pub fn proposed_plan(
    variant: Variant,
    proposed: &[(&str, crate::hash::Hash)],
    human: &[(&str, crate::hash::Hash)],
    ai: &[(&str, crate::hash::Hash)],
    bases: &[(String, crate::sync::SyncBase)],
) -> (r: Vec<SectionSync>)
    ensures
        sync_views(r@) == match variant {
            Variant::Human => crate::sync::plan_spec(
                crate::sync::pairs_view(proposed@),
                crate::sync::pairs_view(ai@),
                crate::sync::bases_view(bases@),
            ),
            Variant::Ai => crate::sync::plan_spec(
                crate::sync::pairs_view(human@),
                crate::sync::pairs_view(proposed@),
                crate::sync::bases_view(bases@),
            ),
        },
{
    match variant {
        Variant::Human => crate::sync::plan(proposed, ai, bases),
        Variant::Ai => crate::sync::plan(human, proposed, bases),
    }
}

} // verus!
