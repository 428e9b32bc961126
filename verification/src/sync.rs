//! Tracks sync between a document's human and AI variants.
//!
//! Each variant splits into sections, and sections are paired by anchor. For every
//! pair, Solidate records a [`SyncBase`]: the semantic hash each side had when the pair
//! was last reconciled. Comparing current hashes to that base tells which side moved:
//!
//! | human changed | AI changed | state         |
//! |---------------|------------|---------------|
//! | no            | no         | `InSync`      |
//! | yes           | no         | `HumanAhead`  |
//! | no            | yes        | `AiAhead`     |
//! | yes           | yes        | `Conflict`    |
//!
//! Additional rules:
//!
//! - A missing side counts as a hash of `None`. Adding or deleting a section is a
//!   change, so a section present only in the human variant is `HumanAhead` until
//!   its AI counterpart is written or the human section is deleted.
//! - If both sides currently have identical content, the pair is `InSync`.
//! - A pair that's missing on both sides is dropped from the plan.
//!
//! This module does not propagate content. External actors (users, agents) edit the
//! stale side; [`reconcile`] then records the new base.

use vstd::prelude::*;

use crate::auth::{str_eq, ParseEnumError};
use crate::markdown::Section;
use crate::text::{
    chars_of, compare_chars, contains_chars, insert_sorted, lemma_sorted_set_unique, lemma_views_push, strictly_sorted, string_of, views,
};

verus! {

/// One of a document's two variants.
#[derive(Debug, Clone, Copy, PartialEq, Eq, Structural, Hash, PartialOrd, Ord)]
pub enum Variant {
    Human,
    Ai,
}

pub open spec fn variant_text(v: Variant) -> Seq<char> {
    match v {
        Variant::Human => "human"@,
        Variant::Ai => "ai"@,
    }
}

/// The other variant of a document.
pub open spec fn other_variant(v: Variant) -> Variant {
    match v {
        Variant::Human => Variant::Ai,
        Variant::Ai => Variant::Human,
    }
}

/// A name that is neither `human` nor `ai`, holding the input.
#[derive(Debug)]
pub struct ParseVariantError(String);

impl ParseVariantError {
    pub closed spec fn value_text(&self) -> Seq<char> {
        self.0@
    }

    /// The refused text.
    pub fn value(&self) -> (s: &str)
        ensures
            s@ == self.value_text(),
    {
        self.0.as_str()
    }

    /// The message: `unknown variant "<value>": expected "human" or "ai"`.
    pub fn to_string(&self) -> (s: String)
        ensures
            s@ == "unknown variant "@ + crate::text::debug_quoted(self.value_text())
                + ": expected \"human\" or \"ai\""@,
    {
        let mut s = String::from_str("unknown variant ");
        s.append(crate::text::quoted(self.0.as_str()).as_str());
        s.append(": expected \"human\" or \"ai\"");
        s
    }
}

impl Variant {
    pub const ALL: [Variant; 2] = [Variant::Human, Variant::Ai];

    pub fn other(self) -> (o: Variant)
        ensures
            o == other_variant(self),
    {
        match self {
            Variant::Human => Variant::Ai,
            Variant::Ai => Variant::Human,
        }
    }

    pub fn as_str(self) -> (s: &'static str)
        ensures
            s@ == variant_text(self),
    {
        match self {
            Variant::Human => "human",
            Variant::Ai => "ai",
        }
    }

    /// Parses `human` or `ai`.
    pub fn parse(s: &str) -> (r: Result<Variant, ParseVariantError>)
        ensures
            match r {
                Ok(v) => variant_text(v) == s@,
                Err(e) => (forall|x: Variant| variant_text(x) != s@) && e.value_text() == s@,
            },
    {
        if str_eq(s, "human") {
            Ok(Variant::Human)
        } else if str_eq(s, "ai") {
            Ok(Variant::Ai)
        } else {
            assert forall|x: Variant| variant_text(x) != s@ by {
                match x {
                    Variant::Human => {},
                    Variant::Ai => {},
                }
            }
            Err(ParseVariantError(String::from_str(s)))
        }
    }
}

/// Each side's semantic section hash at the last reconciliation.
#[derive(Debug, Clone, Copy, PartialEq, Eq)]
pub struct SyncBase {
    pub human: Option<crate::hash::Hash>,
    pub ai: Option<crate::hash::Hash>,
}

impl Default for SyncBase {
    fn default() -> (b: SyncBase)
        ensures
            b.human is None && b.ai is None,
    {
        SyncBase { human: None, ai: None }
    }
}

/// Where a section pair stands.
#[derive(Debug, Clone, Copy, PartialEq, Eq, Structural, Hash)]
pub enum SyncState {
    InSync,
    HumanAhead,
    AiAhead,
    Conflict,
}

pub open spec fn sync_state_text(s: SyncState) -> Seq<char> {
    match s {
        SyncState::InSync => "in_sync"@,
        SyncState::HumanAhead => "human_ahead"@,
        SyncState::AiAhead => "ai_ahead"@,
        SyncState::Conflict => "conflict"@,
    }
}

/// The variant that needs editing.
pub open spec fn stale_side_of(s: SyncState) -> Option<Variant> {
    match s {
        SyncState::HumanAhead => Some(Variant::Ai),
        SyncState::AiAhead => Some(Variant::Human),
        _ => None,
    }
}

impl SyncState {
    pub fn as_str(self) -> (s: &'static str)
        ensures
            s@ == sync_state_text(self),
    {
        match self {
            SyncState::InSync => "in_sync",
            SyncState::HumanAhead => "human_ahead",
            SyncState::AiAhead => "ai_ahead",
            SyncState::Conflict => "conflict",
        }
    }

    /// Parses a state name such as `in_sync`.
    pub fn parse(s: &str) -> (r: Result<SyncState, ParseEnumError>)
        ensures
            match r {
                Ok(st) => sync_state_text(st) == s@,
                Err(e) => (forall|x: SyncState| sync_state_text(x) != s@) && e.kind_text() == "sync state"@
                    && e.value_text() == s@,
            },
    {
        if str_eq(s, "in_sync") {
            Ok(SyncState::InSync)
        } else if str_eq(s, "human_ahead") {
            Ok(SyncState::HumanAhead)
        } else if str_eq(s, "ai_ahead") {
            Ok(SyncState::AiAhead)
        } else if str_eq(s, "conflict") {
            Ok(SyncState::Conflict)
        } else {
            assert forall|x: SyncState| sync_state_text(x) != s@ by {
                match x {
                    SyncState::InSync => {},
                    SyncState::HumanAhead => {},
                    SyncState::AiAhead => {},
                    SyncState::Conflict => {},
                }
            }
            Err(ParseEnumError::new("sync state", s))
        }
    }

    /// The variant that needs editing. `None` when the pair is in sync or in conflict.
    pub fn stale_side(self) -> (v: Option<Variant>)
        ensures
            v == stale_side_of(self),
    {
        match self {
            SyncState::HumanAhead => Some(Variant::Ai),
            SyncState::AiAhead => Some(Variant::Human),
            SyncState::InSync | SyncState::Conflict => None,
        }
    }

    pub fn needs_attention(self) -> (b: bool)
        ensures
            b == (self != SyncState::InSync),
    {
        match self {
            SyncState::InSync => false,
            _ => true,
        }
    }
}

/// The state of one section pair with current hashes `human` and `ai` against the
/// recorded `base`; `None` when neither side exists.
pub open spec fn classify_spec(base: Option<SyncBase>, human: Option<crate::hash::Hash>, ai: Option<crate::hash::Hash>) -> Option<SyncState> {
    if human is None && ai is None {
        None
    } else if human == ai {
        Some(SyncState::InSync)
    } else {
        let b = match base {
            Some(b) => b,
            None => SyncBase { human: None, ai: None },
        };
        let human_changed = human != b.human;
        let ai_changed = ai != b.ai;
        Some(
            if !human_changed && !ai_changed {
                SyncState::InSync
            } else if human_changed && !ai_changed {
                SyncState::HumanAhead
            } else if !human_changed && ai_changed {
                SyncState::AiAhead
            } else {
                SyncState::Conflict
            },
        )
    }
}

fn opt_hash_eq(a: Option<crate::hash::Hash>, b: Option<crate::hash::Hash>) -> (r: bool)
    ensures
        r == (a == b),
{
    match (a, b) {
        (None, None) => true,
        (Some(x), Some(y)) => x == y,
        _ => false,
    }
}

pub open spec fn opt_base(b: Option<&SyncBase>) -> Option<SyncBase> {
    match b {
        Some(x) => Some(*x),
        None => None,
    }
}

/// Classifies one section pair. Returns `None` if neither side exists.
pub fn classify(base: Option<&SyncBase>, human: Option<crate::hash::Hash>, ai: Option<crate::hash::Hash>) -> (r: Option<SyncState>)
    ensures
        r == classify_spec(opt_base(base), human, ai),
{
    if human.is_none() && ai.is_none() {
        return None;
    }
    if opt_hash_eq(human, ai) {
        return Some(SyncState::InSync);
    }
    let b = match base {
        Some(b) => *b,
        None => SyncBase::default(),
    };
    let human_changed = !opt_hash_eq(human, b.human);
    let ai_changed = !opt_hash_eq(ai, b.ai);
    Some(
        if !human_changed && !ai_changed {
            SyncState::InSync
        } else if human_changed && !ai_changed {
            SyncState::HumanAhead
        } else if !human_changed && ai_changed {
            SyncState::AiAhead
        } else {
            SyncState::Conflict
        },
    )
}

/// One section pair in a sync plan.
#[derive(Debug, Clone, PartialEq, Eq)]
pub struct SectionSync {
    pub anchor: String,
    pub state: SyncState,
    pub human: Option<crate::hash::Hash>,
    pub ai: Option<crate::hash::Hash>,
    pub base: Option<SyncBase>,
}

/// The mathematical content of a [`SectionSync`].
pub struct SectionSyncView {
    pub anchor: Seq<char>,
    pub state: SyncState,
    pub human: Option<crate::hash::Hash>,
    pub ai: Option<crate::hash::Hash>,
    pub base: Option<SyncBase>,
}

impl View for SectionSync {
    type V = SectionSyncView;

    open spec fn view(&self) -> SectionSyncView {
        SectionSyncView { anchor: self.anchor@, state: self.state, human: self.human, ai: self.ai, base: self.base }
    }
}

impl SectionSync {
    /// The base to record once this pair's current content is accepted as in sync.
    pub fn reconciled(&self) -> (b: SyncBase)
        ensures
            b == (SyncBase { human: self.human, ai: self.ai }),
    {
        SyncBase { human: self.human, ai: self.ai }
    }
}

/// The hash under `anchor` in `pairs`; a later pair overrides an earlier one, as
/// collecting them into a map does.
pub open spec fn lookup_hash(pairs: Seq<(Seq<char>, crate::hash::Hash)>, anchor: Seq<char>) -> Option<crate::hash::Hash>
    decreases pairs.len(),
{
    if pairs.len() == 0 {
        None
    } else if pairs.last().0 == anchor {
        Some(pairs.last().1)
    } else {
        lookup_hash(pairs.drop_last(), anchor)
    }
}

/// The base recorded for `anchor`: the first entry under it.
pub open spec fn lookup_base(bases: Seq<(Seq<char>, SyncBase)>, anchor: Seq<char>) -> Option<SyncBase>
    decreases bases.len(),
{
    if bases.len() == 0 {
        None
    } else if bases[0].0 == anchor {
        Some(bases[0].1)
    } else {
        lookup_base(bases.drop_first(), anchor)
    }
}

/// The distinct anchors of `bases` in increasing order.
pub open spec fn sorted_base_keys(bases: Seq<(Seq<char>, SyncBase)>) -> Seq<Seq<char>> {
    choose|s: Seq<Seq<char>>|
        strictly_sorted(s) && forall|x: Seq<char>| s.contains(x) <==> exists|i: int| 0 <= i < bases.len() && #[trigger] bases[i].0 == x
}

/// `s` with every element after its first occurrence removed.
pub open spec fn dedup(s: Seq<Seq<char>>) -> Seq<Seq<char>>
    decreases s.len(),
{
    if s.len() == 0 {
        seq![]
    } else {
        let d = dedup(s.drop_last());
        if d.contains(s.last()) {
            d
        } else {
            d.push(s.last())
        }
    }
}

pub open spec fn pair_anchors(pairs: Seq<(Seq<char>, crate::hash::Hash)>) -> Seq<Seq<char>> {
    Seq::new(pairs.len(), |i: int| pairs[i].0)
}

/// The anchors a plan visits, in order: the human variant's, then AI-only ones, then
/// those left only in `bases`, sorted.
pub open spec fn plan_order(
    human: Seq<(Seq<char>, crate::hash::Hash)>,
    ai: Seq<(Seq<char>, crate::hash::Hash)>,
    bases: Seq<(Seq<char>, SyncBase)>,
) -> Seq<Seq<char>> {
    dedup(pair_anchors(human) + pair_anchors(ai) + sorted_base_keys(bases))
}

/// The plan rows for the anchors in `order`.
pub open spec fn plan_rows(
    order: Seq<Seq<char>>,
    human: Seq<(Seq<char>, crate::hash::Hash)>,
    ai: Seq<(Seq<char>, crate::hash::Hash)>,
    bases: Seq<(Seq<char>, SyncBase)>,
) -> Seq<SectionSyncView>
    decreases order.len(),
{
    if order.len() == 0 {
        seq![]
    } else {
        let rest = plan_rows(order.drop_last(), human, ai, bases);
        let a = order.last();
        let (hh, ah, b) = (lookup_hash(human, a), lookup_hash(ai, a), lookup_base(bases, a));
        match classify_spec(b, hh, ah) {
            Some(state) => rest.push(SectionSyncView { anchor: a, state, human: hh, ai: ah, base: b }),
            None => rest,
        }
    }
}

/// What [`plan`] returns.
pub open spec fn plan_spec(
    human: Seq<(Seq<char>, crate::hash::Hash)>,
    ai: Seq<(Seq<char>, crate::hash::Hash)>,
    bases: Seq<(Seq<char>, SyncBase)>,
) -> Seq<SectionSyncView> {
    plan_rows(plan_order(human, ai, bases), human, ai, bases)
}

pub open spec fn pairs_view(p: Seq<(&str, crate::hash::Hash)>) -> Seq<(Seq<char>, crate::hash::Hash)> {
    Seq::new(p.len(), |i: int| (p[i].0@, p[i].1))
}

pub open spec fn bases_view(b: Seq<(String, SyncBase)>) -> Seq<(Seq<char>, SyncBase)> {
    Seq::new(b.len(), |i: int| (b[i].0@, b[i].1))
}

pub open spec fn sync_views(v: Seq<SectionSync>) -> Seq<SectionSyncView> {
    Seq::new(v.len(), |i: int| v[i]@)
}

fn find_hash(pairs: &[(&str, crate::hash::Hash)], anchor: &[char]) -> (r: Option<crate::hash::Hash>)
    ensures
        r == lookup_hash(pairs_view(pairs@), anchor@),
{
    let mut j: usize = pairs.len();
    assert(pairs_view(pairs@).take(j as int) =~= pairs_view(pairs@));
    while j > 0
        invariant
            j <= pairs@.len(),
            lookup_hash(pairs_view(pairs@), anchor@) == lookup_hash(pairs_view(pairs@).take(j as int), anchor@),
        decreases j,
    {
        let ghost t = pairs_view(pairs@).take(j as int);
        assert(t.last() == pairs_view(pairs@)[j - 1]);
        if compare_chars(&chars_of(pairs[j - 1].0), anchor) == 0 {
            return Some(pairs[j - 1].1);
        }
        assert(t.drop_last() =~= pairs_view(pairs@).take(j - 1));
        j -= 1;
    }
    None
}

fn find_base(bases: &[(String, SyncBase)], anchor: &[char]) -> (r: Option<SyncBase>)
    ensures
        r == lookup_base(bases_view(bases@), anchor@),
{
    let mut i: usize = 0;
    assert(bases_view(bases@).skip(0) =~= bases_view(bases@));
    while i < bases.len()
        invariant
            0 <= i <= bases@.len(),
            lookup_base(bases_view(bases@), anchor@) == lookup_base(bases_view(bases@).skip(i as int), anchor@),
        decreases bases@.len() - i,
    {
        let ghost t = bases_view(bases@).skip(i as int);
        assert(t[0] == bases_view(bases@)[i as int]);
        if compare_chars(&chars_of(bases[i].0.as_str()), anchor) == 0 {
            return Some(bases[i].1);
        }
        assert(t.drop_first() =~= bases_view(bases@).skip(i + 1));
        i += 1;
    }
    None
}

/// `(anchor, hash)` pairs of analyzed sections, for [`plan`].
pub fn section_hashes(sections: &[Section]) -> (r: Vec<(&str, crate::hash::Hash)>)
    ensures
        pairs_view(r@) == Seq::new(sections@.len(), |i: int| (sections@[i].anchor@, sections@[i].hash)),
{
    let mut out: Vec<(&str, crate::hash::Hash)> = Vec::new();
    let mut i: usize = 0;
    while i < sections.len()
        invariant
            0 <= i <= sections@.len(),
            pairs_view(out@) == Seq::new(i as nat, |k: int| (sections@[k].anchor@, sections@[k].hash)),
        decreases sections@.len() - i,
    {
        let ghost prev = out@;
        let a = sections[i].anchor.as_str();
        let h = sections[i].hash;
        out.push((a, h));
        assert(pairs_view(out@) =~= pairs_view(prev).push((a@, h)));
        assert(Seq::new((i + 1) as nat, |k: int| (sections@[k].anchor@, sections@[k].hash)) =~= Seq::new(
            i as nat,
            |k: int| (sections@[k].anchor@, sections@[k].hash),
        ).push((a@, h)));
        i += 1;
        assert(pairs_view(out@) =~= Seq::new(i as nat, |k: int| (sections@[k].anchor@, sections@[k].hash)));
    }
    out
}

/// Classifies every section pair in a document. The result is ordered by the human
/// variant, then AI-only sections in AI order, then pairs left only in `bases`.
///
/// `human` and `ai` are `(anchor, semantic hash)` pairs in document order. `bases`
/// holds the recorded base of each anchor; when an anchor repeats there, its first
/// entry counts.
pub fn plan(human: &[(&str, crate::hash::Hash)], ai: &[(&str, crate::hash::Hash)], bases: &[(String, SyncBase)]) -> (r: Vec<SectionSync>)
    ensures
        sync_views(r@) == plan_spec(pairs_view(human@), pairs_view(ai@), bases_view(bases@)),
{
    let ghost hv = pairs_view(human@);
    let ghost av = pairs_view(ai@);
    let ghost bv = bases_view(bases@);
    // The distinct base anchors, sorted.
    let mut keys: Vec<Vec<char>> = Vec::new();
    let mut i: usize = 0;
    while i < bases.len()
        invariant
            0 <= i <= bases@.len(),
            bv == bases_view(bases@),
            strictly_sorted(views(keys@)),
            forall|x: Seq<char>| views(keys@).contains(x) <==> exists|k: int| 0 <= k < i && #[trigger] bv[k].0 == x,
        decreases bases@.len() - i,
    {
        let ghost before = views(keys@);
        insert_sorted(&mut keys, chars_of(bases[i].0.as_str()));
        assert forall|x: Seq<char>| views(keys@).contains(x) <==> exists|k: int| 0 <= k < i + 1 && #[trigger] bv[k].0 == x by {
            if x == bv[i as int].0 {
                assert(exists|k: int| 0 <= k < i + 1 && #[trigger] bv[k].0 == x);
            }
            if exists|k: int| 0 <= k < i + 1 && #[trigger] bv[k].0 == x {
                let k = choose|k: int| 0 <= k < i + 1 && #[trigger] bv[k].0 == x;
                if k < i {
                    assert(before.contains(x));
                }
            }
        }
        i += 1;
    }
    proof {
        let s = sorted_base_keys(bv);
        assert(strictly_sorted(s) && forall|x: Seq<char>| s.contains(x) <==> exists|k: int| 0 <= k < bv.len() && #[trigger] bv[k].0 == x);
        lemma_sorted_set_unique(s, views(keys@));
    }
    // All candidate anchors, in order.
    let mut cands: Vec<Vec<char>> = Vec::new();
    let mut i: usize = 0;
    while i < human.len()
        invariant
            0 <= i <= human@.len(),
            hv == pairs_view(human@),
            views(cands@) == pair_anchors(hv).take(i as int),
        decreases human@.len() - i,
    {
        let ghost prev = cands@;
        let x = chars_of(human[i].0);
        assert(x@ == pair_anchors(hv)[i as int]);
        cands.push(x);
        proof {
            lemma_views_push(prev, x);
        }
        assert(pair_anchors(hv).take(i + 1) =~= pair_anchors(hv).take(i as int).push(x@));
        i += 1;
    }
    assert(pair_anchors(hv).take(i as int) =~= pair_anchors(hv));
    let ghost c1 = views(cands@);
    let mut i: usize = 0;
    while i < ai.len()
        invariant
            0 <= i <= ai@.len(),
            av == pairs_view(ai@),
            views(cands@) == c1 + pair_anchors(av).take(i as int),
        decreases ai@.len() - i,
    {
        let ghost prev = cands@;
        let x = chars_of(ai[i].0);
        assert(x@ == pair_anchors(av)[i as int]);
        cands.push(x);
        proof {
            lemma_views_push(prev, x);
        }
        assert(c1 + pair_anchors(av).take(i + 1) =~= (c1 + pair_anchors(av).take(i as int)).push(x@));
        i += 1;
    }
    assert(pair_anchors(av).take(i as int) =~= pair_anchors(av));
    let ghost c2 = views(cands@);
    let mut i: usize = 0;
    while i < keys.len()
        invariant
            0 <= i <= keys@.len(),
            views(cands@) == c2 + views(keys@).take(i as int),
        decreases keys@.len() - i,
    {
        let k = crate::text::copy_range(&keys[i], 0, keys[i].len());
        assert(k@ =~= keys@[i as int]@);
        let ghost prev = cands@;
        cands.push(k);
        proof {
            lemma_views_push(prev, k);
        }
        assert(c2 + views(keys@).take(i + 1) =~= (c2 + views(keys@).take(i as int)).push(k@));
        i += 1;
    }
    assert(views(keys@).take(i as int) =~= views(keys@));
    let ghost all = views(cands@);
    assert(all == pair_anchors(hv) + pair_anchors(av) + sorted_base_keys(bv));
    // Distinct anchors, first occurrence kept, and their rows.
    let mut order: Vec<Vec<char>> = Vec::new();
    let mut rows: Vec<SectionSync> = Vec::new();
    let mut i: usize = 0;
    while i < cands.len()
        invariant
            0 <= i <= cands@.len(),
            all == views(cands@),
            hv == pairs_view(human@),
            av == pairs_view(ai@),
            bv == bases_view(bases@),
            views(order@) == dedup(all.take(i as int)),
            sync_views(rows@) == plan_rows(dedup(all.take(i as int)), hv, av, bv),
        decreases cands@.len() - i,
    {
        let ghost d = dedup(all.take(i as int));
        assert(all.take(i + 1).drop_last() =~= all.take(i as int));
        assert(all.take(i + 1).last() == cands@[i as int]@);
        assert(all[i as int] == cands@[i as int]@);
        if !contains_chars(&order, &cands[i]) {
            let a = crate::text::copy_range(&cands[i], 0, cands[i].len());
            let hh = find_hash(human, &a);
            let ah = find_hash(ai, &a);
            let b = find_base(bases, &a);
            let ghost prev_order = views(order@);
            let ghost prev_rows = sync_views(rows@);
            match classify(b.as_ref(), hh, ah) {
                Some(state) => {
                    rows.push(SectionSync { anchor: string_of(&a), state, human: hh, ai: ah, base: b });
                    assert(sync_views(rows@) =~= prev_rows.push(rows@.last()@));
                },
                None => {},
            }
            let ghost po = order@;
            order.push(a);
            proof {
                lemma_views_push(po, a);
                assert(a@ == cands@[i as int]@);
                assert(dedup(all.take(i + 1)) == d.push(a@));
                assert(d.push(a@).drop_last() =~= d);
            }
        } else {
            assert(dedup(all.take(i + 1)) == d);
        }
        i += 1;
    }
    assert(all.take(i as int) =~= all);
    rows
}

/// New bases after accepting the current content of `anchors` as in sync. Anchors
/// that are gone from both sides are dropped.
pub open spec fn reconcile_spec(plan: Seq<SectionSyncView>, anchors: Seq<Seq<char>>) -> Seq<(Seq<char>, SyncBase)>
    decreases plan.len(),
{
    if plan.len() == 0 {
        seq![]
    } else {
        let rest = reconcile_spec(plan.drop_last(), anchors);
        let s = plan.last();
        if anchors.contains(s.anchor) {
            rest.push((s.anchor, SyncBase { human: s.human, ai: s.ai }))
        } else {
            rest
        }
    }
}

pub open spec fn strs_view(v: Seq<&str>) -> Seq<Seq<char>> {
    Seq::new(v.len(), |i: int| v[i]@)
}

/// New bases after accepting the current content of `anchors` as in sync. Anchors
/// that are gone from both sides are dropped.
pub fn reconcile(plan: &[SectionSync], anchors: &[&str]) -> (r: Vec<(String, SyncBase)>)
    ensures
        bases_view(r@) == reconcile_spec(sync_views(plan@), strs_view(anchors@)),
{
    let mut wanted: Vec<Vec<char>> = Vec::new();
    let mut i: usize = 0;
    while i < anchors.len()
        invariant
            0 <= i <= anchors@.len(),
            views(wanted@) == strs_view(anchors@).take(i as int),
        decreases anchors@.len() - i,
    {
        let ghost prev = wanted@;
        let x = chars_of(anchors[i]);
        wanted.push(x);
        proof {
            lemma_views_push(prev, x);
        }
        assert(strs_view(anchors@).take(i + 1) =~= strs_view(anchors@).take(i as int).push(x@));
        i += 1;
    }
    assert(strs_view(anchors@).take(i as int) =~= strs_view(anchors@));
    let ghost pv = sync_views(plan@);
    let mut out: Vec<(String, SyncBase)> = Vec::new();
    let mut i: usize = 0;
    while i < plan.len()
        invariant
            0 <= i <= plan@.len(),
            pv == sync_views(plan@),
            views(wanted@) == strs_view(anchors@),
            bases_view(out@) == reconcile_spec(pv.take(i as int), strs_view(anchors@)),
        decreases plan@.len() - i,
    {
        assert(pv.take(i + 1).drop_last() =~= pv.take(i as int));
        assert(pv.take(i + 1).last() == plan@[i as int]@);
        let ghost prev = bases_view(out@);
        let s = &plan[i];
        if contains_chars(&wanted, &chars_of(s.anchor.as_str())) {
            out.push((s.anchor.clone(), s.reconciled()));
            assert(bases_view(out@) =~= prev.push((s.anchor@, SyncBase { human: s.human, ai: s.ai })));
        }
        i += 1;
    }
    assert(pv.take(i as int) =~= pv);
    out
}

/// A pair with the same content on both sides is in sync, whatever its base.
pub proof fn lemma_identical_sides_in_sync(base: Option<SyncBase>, h: crate::hash::Hash)
    ensures
        classify_spec(base, Some(h), Some(h)) == Some(SyncState::InSync),
{
}

proof fn lemma_dedup(s: Seq<Seq<char>>)
    ensures
        forall|i: int, j: int| 0 <= i < j < dedup(s).len() ==> #[trigger] dedup(s)[i] != #[trigger] dedup(s)[j],
        forall|x: Seq<char>| #[trigger] dedup(s).contains(x) ==> s.contains(x),
    decreases s.len(),
{
    if s.len() > 0 {
        let init = s.drop_last();
        lemma_dedup(init);
        let d = dedup(init);
        assert forall|x: Seq<char>| #[trigger] dedup(s).contains(x) implies s.contains(x) by {
            if d.contains(x) {
                let k = choose|k: int| 0 <= k < init.len() && init[k] == x;
                assert(s[k] == x);
            } else {
                assert(x == s.last());
                assert(s[s.len() - 1] == x);
            }
        }
        if !d.contains(s.last()) {
            let e = dedup(s);
            assert forall|i: int, j: int| 0 <= i < j < e.len() implies #[trigger] e[i] != #[trigger] e[j] by {
                if j == e.len() - 1 {
                    assert(e[i] == d[i]);
                    assert(d.contains(d[i]));
                } else {
                    assert(e[i] == d[i] && e[j] == d[j]);
                }
            }
        }
    }
}

proof fn lemma_plan_rows(
    order: Seq<Seq<char>>,
    human: Seq<(Seq<char>, crate::hash::Hash)>,
    ai: Seq<(Seq<char>, crate::hash::Hash)>,
    bases: Seq<(Seq<char>, SyncBase)>,
)
    ensures
        forall|k: int|
            0 <= k < plan_rows(order, human, ai, bases).len() ==> (#[trigger] plan_rows(order, human, ai, bases)[k]).human is Some
                || plan_rows(order, human, ai, bases)[k].ai is Some,
        forall|k: int|
            0 <= k < plan_rows(order, human, ai, bases).len() ==> order.contains(
                #[trigger] plan_rows(order, human, ai, bases)[k].anchor,
            ),
        (forall|i: int, j: int| 0 <= i < j < order.len() ==> #[trigger] order[i] != #[trigger] order[j]) ==> forall|
            i: int,
            j: int,
        |
            0 <= i < j < plan_rows(order, human, ai, bases).len() ==> #[trigger] plan_rows(order, human, ai, bases)[i].anchor
                != #[trigger] plan_rows(order, human, ai, bases)[j].anchor,
    decreases order.len(),
{
    if order.len() > 0 {
        let init = order.drop_last();
        lemma_plan_rows(init, human, ai, bases);
        let rest = plan_rows(init, human, ai, bases);
        let rows = plan_rows(order, human, ai, bases);
        assert forall|k: int| 0 <= k < rows.len() implies (#[trigger] rows[k]).human is Some || rows[k].ai is Some by {
            if k < rest.len() {
                assert(rows[k] == rest[k]);
            }
        }
        assert forall|k: int| 0 <= k < rows.len() implies order.contains(#[trigger] rows[k].anchor) by {
            if k < rest.len() {
                assert(rows[k] == rest[k]);
                let m = choose|m: int| 0 <= m < init.len() && init[m] == rest[k].anchor;
                assert(order[m] == init[m]);
            } else {
                assert(rows[k].anchor == order.last());
                assert(order[order.len() - 1] == order.last());
            }
        }
        if forall|i: int, j: int| 0 <= i < j < order.len() ==> #[trigger] order[i] != #[trigger] order[j] {
            assert forall|i: int, j: int| 0 <= i < j < init.len() implies #[trigger] init[i] != #[trigger] init[j] by {
                assert(init[i] == order[i] && init[j] == order[j]);
            }
            assert forall|i: int, j: int| 0 <= i < j < rows.len() implies #[trigger] rows[i].anchor != #[trigger] rows[j].anchor by {
                if j < rest.len() {
                    assert(rows[i] == rest[i] && rows[j] == rest[j]);
                } else {
                    assert(rows[i] == rest[i]);
                    let m = choose|m: int| 0 <= m < init.len() && init[m] == rest[i].anchor;
                    assert(order[m] == init[m]);
                    assert(rows[j].anchor == order[order.len() - 1]);
                }
            }
        }
    }
}

/// A plan has one row per anchor, and drops pairs missing on both sides.
pub proof fn lemma_plan_pairs_once(
    human: Seq<(Seq<char>, crate::hash::Hash)>,
    ai: Seq<(Seq<char>, crate::hash::Hash)>,
    bases: Seq<(Seq<char>, SyncBase)>,
)
    ensures
        forall|i: int, j: int|
            0 <= i < j < plan_spec(human, ai, bases).len() ==> #[trigger] plan_spec(human, ai, bases)[i].anchor
                != #[trigger] plan_spec(human, ai, bases)[j].anchor,
        forall|k: int|
            0 <= k < plan_spec(human, ai, bases).len() ==> (#[trigger] plan_spec(human, ai, bases)[k]).human is Some
                || plan_spec(human, ai, bases)[k].ai is Some,
{
    let order = plan_order(human, ai, bases);
    lemma_dedup(pair_anchors(human) + pair_anchors(ai) + sorted_base_keys(bases));
    lemma_plan_rows(order, human, ai, bases);
}

proof fn lemma_plan_rows_built(
    order: Seq<Seq<char>>,
    human: Seq<(Seq<char>, crate::hash::Hash)>,
    ai: Seq<(Seq<char>, crate::hash::Hash)>,
    bases: Seq<(Seq<char>, SyncBase)>,
)
    ensures
        forall|k: int|
            0 <= k < plan_rows(order, human, ai, bases).len() ==> {
                let row = #[trigger] plan_rows(order, human, ai, bases)[k];
                &&& row.human == lookup_hash(human, row.anchor)
                &&& row.ai == lookup_hash(ai, row.anchor)
                &&& row.base == lookup_base(bases, row.anchor)
                &&& Some(row.state) == classify_spec(row.base, row.human, row.ai)
            },
    decreases order.len(),
{
    if order.len() > 0 {
        lemma_plan_rows_built(order.drop_last(), human, ai, bases);
        let rest = plan_rows(order.drop_last(), human, ai, bases);
        let rows = plan_rows(order, human, ai, bases);
        assert forall|k: int| 0 <= k < rows.len() implies {
            let row = #[trigger] rows[k];
            &&& row.human == lookup_hash(human, row.anchor)
            &&& row.ai == lookup_hash(ai, row.anchor)
            &&& row.base == lookup_base(bases, row.anchor)
            &&& Some(row.state) == classify_spec(row.base, row.human, row.ai)
        } by {
            if k < rest.len() {
                assert(rows[k] == rest[k]);
            }
        }
    }
}

/// Every plan row is built from its anchor's lookups: the human and AI hashes under
/// the anchor, the base recorded for it, and the state that [`classify`] gives them.
pub proof fn lemma_plan_rows_from_lookups(
    human: Seq<(Seq<char>, crate::hash::Hash)>,
    ai: Seq<(Seq<char>, crate::hash::Hash)>,
    bases: Seq<(Seq<char>, SyncBase)>,
)
    ensures
        forall|k: int|
            0 <= k < plan_spec(human, ai, bases).len() ==> {
                let row = #[trigger] plan_spec(human, ai, bases)[k];
                &&& row.human == lookup_hash(human, row.anchor)
                &&& row.ai == lookup_hash(ai, row.anchor)
                &&& row.base == lookup_base(bases, row.anchor)
                &&& Some(row.state) == classify_spec(row.base, row.human, row.ai)
            },
{
    lemma_plan_rows_built(plan_order(human, ai, bases), human, ai, bases);
}

/// Reconciling a pair and classifying it again against the recorded base finds it
/// in sync until one side changes; a change on exactly one side marks the other
/// side stale.
pub proof fn lemma_reconcile_then_edit(h0: Option<crate::hash::Hash>, a0: Option<crate::hash::Hash>, h1: Option<crate::hash::Hash>, a1: Option<crate::hash::Hash>)
    ensures
        (h0 is Some || a0 is Some) ==> classify_spec(Some(SyncBase { human: h0, ai: a0 }), h0, a0) == Some(
            SyncState::InSync,
        ),
        h1 != h0 && h1 != a0 ==> classify_spec(Some(SyncBase { human: h0, ai: a0 }), h1, a0).unwrap()
            == SyncState::HumanAhead,
        a1 != a0 && a1 != h0 ==> classify_spec(Some(SyncBase { human: h0, ai: a0 }), h0, a1).unwrap()
            == SyncState::AiAhead,
        stale_side_of(SyncState::HumanAhead) == Some(Variant::Ai),
        stale_side_of(SyncState::AiAhead) == Some(Variant::Human),
{
}

/// Every row that [`reconcile`] records is in sync against its new base.
pub proof fn lemma_reconciled_rows_in_sync(plan: Seq<SectionSyncView>, anchors: Seq<Seq<char>>, k: int)
    requires
        0 <= k < reconcile_spec(plan, anchors).len(),
        forall|i: int| 0 <= i < plan.len() ==> (#[trigger] plan[i]).human is Some || plan[i].ai is Some,
    ensures
        ({
            let (a, b) = reconcile_spec(plan, anchors)[k];
            classify_spec(Some(b), b.human, b.ai) == Some(SyncState::InSync)
        }),
    decreases plan.len(),
{
    if plan.len() > 0 {
        let rest = reconcile_spec(plan.drop_last(), anchors);
        if k < rest.len() {
            assert forall|i: int| 0 <= i < plan.drop_last().len() implies (#[trigger] plan.drop_last()[i]).human is Some
                || plan.drop_last()[i].ai is Some by {
                assert(plan.drop_last()[i] == plan[i]);
            }
            lemma_reconciled_rows_in_sync(plan.drop_last(), anchors, k);
        } else {
            assert(plan[plan.len() - 1] == plan.last());
        }
    }
}

} // verus!
