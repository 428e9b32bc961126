use solidate::error::AppError;

type Digest = solidate::hash::Hash;
use solidate::models::SectionRow;
use solidate::status::{pairs, plan_row, queue_entries, reconcile_plan, section_statuses, section_title, sync_item, SectionText};
use solidate::sync::{plan, SyncBase, SyncState, Variant};

fn row(anchor: &str, title: &str, content: &str) -> SectionRow {
    SectionRow {
        ordinal: 0,
        anchor: anchor.into(),
        title: title.into(),
        level: 1,
        parent_anchor: None,
        hash: Digest::of_str(content),
    }
}

#[test]
fn statuses_and_queue() {
    let human = vec![row("a", "A (human)", "1"), row("b", "B", "2")];
    let ai = vec![row("a", "A (ai)", "1"), row("c", "C", "3")];
    let p = plan(&pairs(&human), &pairs(&ai), &[]);
    let st = section_statuses(&p, &human, &ai);
    let got: Vec<_> = st.iter().map(|s| (s.anchor.as_str(), s.title.as_str(), s.state, s.stale_side)).collect();
    assert_eq!(
        got,
        [
            ("a", "A (human)", SyncState::InSync, None),
            ("b", "B", SyncState::HumanAhead, Some(Variant::Ai)),
            ("c", "C", SyncState::AiAhead, Some(Variant::Human)),
        ]
    );
    let q = queue_entries("design/x", Some("X"), &p, &human, &ai);
    let got: Vec<_> = q.iter().map(|e| (e.path.as_str(), e.document_title.as_deref(), e.anchor.as_str())).collect();
    assert_eq!(got, [("design/x", Some("X"), "b"), ("design/x", Some("X"), "c")]);
    assert_eq!(section_title(&human, &ai, "zzz"), "");
}

#[test]
fn resolving_records_bases_and_refuses_unknown_anchors() {
    let human = vec![row("a", "A", "h")];
    let ai = vec![row("a", "A", "x")];
    let p = plan(&pairs(&human), &pairs(&ai), &[]);
    assert_eq!(p[0].state, SyncState::Conflict);
    let (after, bases) = reconcile_plan(&p, &["a".to_owned()]).unwrap();
    assert_eq!(after[0].state, SyncState::InSync);
    assert_eq!(after[0].base, Some(SyncBase { human: Some(Digest::of_str("h")), ai: Some(Digest::of_str("x")) }));
    assert_eq!(bases, vec![("a".to_owned(), after[0].base.unwrap())]);
    assert_eq!(
        reconcile_plan(&p, &["a".to_owned(), "b c".to_owned()]).unwrap_err(),
        AppError::Invalid("unknown section anchor \"b c\"".into())
    );
    let (same, none) = reconcile_plan(&p, &[]).unwrap();
    assert_eq!(same, p);
    assert!(none.is_empty());
}

#[test]
fn sync_item_diffs_the_changed_side() {
    let p = plan(&[("a", Digest::of_str("new"))], &[("a", Digest::of_str("old"))], &[(
        "a".to_owned(),
        SyncBase { human: Some(Digest::of_str("old")), ai: Some(Digest::of_str("old")) },
    )]);
    assert_eq!(p[0].state, SyncState::HumanAhead);
    let text = |b: &str| SectionText { title: "A".into(), body: b.into(), hash: Digest::of_str(b) };
    let item = sync_item(
        "doc".into(),
        &p[0],
        Some(text("x\ny\n")),
        Some(text("x\n")),
        Some("x\n".into()),
        Some("x\n".into()),
        None,
        None,
    );
    assert_eq!(item.stale_side, Some(Variant::Ai));
    assert_eq!(item.ai_diff, None);
    let d = item.human_diff.unwrap();
    assert!(d.contains("--- synced") && d.contains("+++ current") && d.contains("+y"), "{d}");
}

#[test]
fn plan_rows_are_found_by_anchor() {
    let human = [row("a", "A", "x"), row("b", "B", "y")];
    let ai = [row("a", "A", "x")];
    let p = plan(&pairs(&human), &pairs(&ai), &[]);
    let i = plan_row(&p, "b").unwrap();
    assert_eq!(p[i].anchor, "b");
    assert_eq!(plan_row(&p, "a"), Ok(0));
    assert_eq!(plan_row(&p, "nope"), Err(AppError::NotFound));
}
