use solidate::error::AppError;

type Digest = solidate::hash::Hash;
use solidate::ids::{DocumentId, ProposalId};
use solidate::documents::Expect;
use solidate::proposals::{accept_decision, check_proposal, proposed_plan, translation_guide, outdated, proposal_refs, proposal_resolves, view, Proposal, DEFAULT_GUIDE, GUIDE_PATH};
use solidate::sync::{plan, Variant};

fn proposal(id: u128, variant: Variant, base: Option<Digest>, source: Option<Digest>, resolves: &[&str]) -> Proposal {
    Proposal {
        id: ProposalId(id),
        document_id: DocumentId(1),
        path: "doc".into(),
        variant,
        base_hash: base,
        source_hash: source,
        content: "new\n".into(),
        resolves: resolves.iter().map(|s| s.to_string()).collect(),
        message: None,
        author_user_id: None,
        author_token_id: None,
    }
}

#[test]
fn outdated_when_either_head_moves() {
    let (h, a) = (Some(Digest::of_str("h")), Some(Digest::of_str("a")));
    let p = proposal(1, Variant::Ai, a, h, &["x"]);
    assert!(!outdated(&p, h, a));
    assert!(outdated(&p, Some(Digest::of_str("h2")), a));
    assert!(outdated(&p, h, None));
    let v = view(p, h, a, "human text\n", "old\n");
    assert!(!v.outdated);
    assert!(v.diff.contains("-old") && v.diff.contains("+new"));
}

#[test]
fn current_proposals_win_per_anchor() {
    let (h, a) = (Some(Digest::of_str("h")), Some(Digest::of_str("a")));
    let stale = proposal(1, Variant::Ai, None, h, &["x", "y"]);
    let fresh = proposal(2, Variant::Ai, a, h, &["y", "z"]);
    let refs = proposal_refs(&[stale, fresh], h, a);
    let got: Vec<_> = refs.iter().map(|(k, r)| (k.as_str(), r.id, r.outdated)).collect();
    assert_eq!(got, [("x", ProposalId(1), true), ("y", ProposalId(2), false), ("z", ProposalId(2), false)]);
}

#[test]
fn proposals_need_a_source_and_the_current_base() {
    let (h, a) = (Some(Digest::of_str("h")), Some(Digest::of_str("a")));
    assert_eq!(check_proposal(Variant::Ai, a, h, a), Ok((a, h)));
    assert_eq!(
        check_proposal(Variant::Ai, None, None, a),
        Err(AppError::Invalid("nothing to translate: the human variant has not been written".into()))
    );
    assert_eq!(check_proposal(Variant::Human, None, h, a), Err(AppError::PreconditionFailed { current: h }));
}

#[test]
fn resolves_default_to_pending_sections_still_present() {
    let current = plan(&[("a", Digest::of_str("1")), ("b", Digest::of_str("2"))], &[("a", Digest::of_str("1"))], &[]);
    let after = plan(&[("a", Digest::of_str("1")), ("b", Digest::of_str("2"))], &[("a", Digest::of_str("1")), ("b", Digest::of_str("2"))], &[]);
    assert_eq!(proposal_resolves(&current, &after, &[]).unwrap(), vec!["b".to_owned()]);
    assert_eq!(proposal_resolves(&current, &after, &["a".to_owned()]).unwrap(), vec!["a".to_owned()]);
    assert_eq!(
        proposal_resolves(&current, &after, &["q".to_owned()]).unwrap_err(),
        AppError::Invalid("unknown section anchor \"q\"".into())
    );
    assert_eq!(GUIDE_PATH, "_meta/translation");
    assert!(DEFAULT_GUIDE.starts_with("# Translation guide\n"));
}

#[test]
fn accepting_expects_the_base_and_refuses_outdated_proposals() {
    let (h, a) = (Some(Digest::of_str("h")), Some(Digest::of_str("a")));
    let p = proposal(1, Variant::Ai, a, h, &["x"]);
    assert_eq!(accept_decision(&p, h, a), Ok((Expect::Head(a.unwrap()), "Accept translation proposal".to_string())));
    let mut fresh = proposal(2, Variant::Ai, None, h, &[]);
    fresh.message = Some("ttl 30d".into());
    assert_eq!(accept_decision(&fresh, h, None), Ok((Expect::Absent, "ttl 30d".to_string())));
    let moved = Some(Digest::of_str("a2"));
    assert_eq!(accept_decision(&p, h, moved), Err(AppError::PreconditionFailed { current: moved }));
    assert_eq!(
        accept_decision(&p, Some(Digest::of_str("h2")), a),
        Err(AppError::PreconditionFailed { current: a })
    );
}

#[test]
fn the_nearest_guide_wins_over_the_default() {
    let g = translation_guide(Some(("shared", "# Guide\n\nAI variant: YAML-like lists.\n".to_string())));
    assert_eq!(g.source.as_deref(), Some("shared:_meta/translation"));
    assert!(g.content.contains("YAML-like"));
    let d = translation_guide(None);
    assert_eq!(d.source, None);
    assert_eq!(d.content, DEFAULT_GUIDE);
}

#[test]
fn the_proposed_plan_replaces_one_side() {
    let (x, y, z) = (Digest::of_str("x"), Digest::of_str("y"), Digest::of_str("z"));
    let human = [("a", x), ("b", y)];
    let ai = [("a", x)];
    let proposed = [("a", x), ("b", z)];
    let after = proposed_plan(Variant::Ai, &proposed, &human, &ai, &[]);
    assert_eq!(after, plan(&human, &proposed, &[]));
    let after = proposed_plan(Variant::Human, &proposed, &human, &ai, &[]);
    assert_eq!(after, plan(&proposed, &ai, &[]));
}
