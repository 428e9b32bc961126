
type Digest = solidate::hash::Hash;
use solidate::markdown::analyze;
use solidate::sync::{classify, plan, reconcile, section_hashes, SyncBase, SyncState, Variant};

fn h(s: &str) -> Option<Digest> {
    Some(Digest::of_str(s))
}

#[test]
fn truth_table() {
    let base = SyncBase { human: h("h0"), ai: h("a0") };
    let b = Some(&base);
    assert_eq!(classify(b, h("h0"), h("a0")), Some(SyncState::InSync));
    assert_eq!(classify(b, h("h1"), h("a0")), Some(SyncState::HumanAhead));
    assert_eq!(classify(b, h("h0"), h("a1")), Some(SyncState::AiAhead));
    assert_eq!(classify(b, h("h1"), h("a1")), Some(SyncState::Conflict));
    assert_eq!(classify(b, None, h("a0")), Some(SyncState::HumanAhead), "human deleted");
    assert_eq!(classify(b, None, None), None, "deleted on both sides");
    assert_eq!(classify(b, h("same"), h("same")), Some(SyncState::InSync));
    assert_eq!(classify(None, h("new"), None), Some(SyncState::HumanAhead));
    assert_eq!(classify(None, h("x"), h("y")), Some(SyncState::Conflict));
}

#[test]
fn plan_over_documents() {
    let human = analyze("# A\n\nhuman a\n\n# B\n\nhuman b v2\n\n# New\n\nfresh\n", None);
    let ai = analyze("# A\n\nai a\n\n# B\n\nai b\n\n# Gone\n\nold\n", None);
    let bases = vec![
        (
            "a".to_owned(),
            SyncBase {
                human: Some(human.section("a").unwrap().hash),
                ai: Some(ai.section("a").unwrap().hash),
            },
        ),
        (
            "b".to_owned(),
            SyncBase {
                human: h("stale"),
                ai: Some(ai.section("b").unwrap().hash),
            },
        ),
        (
            "gone".to_owned(),
            SyncBase {
                human: h("old"),
                ai: Some(ai.section("gone").unwrap().hash),
            },
        ),
    ];
    let p = plan(&section_hashes(&human.sections), &section_hashes(&ai.sections), &bases);
    let got: Vec<_> = p.iter().map(|s| (s.anchor.as_str(), s.state)).collect();
    assert_eq!(
        got,
        [
            ("a", SyncState::InSync),
            ("b", SyncState::HumanAhead),
            ("new", SyncState::HumanAhead),
            ("gone", SyncState::HumanAhead),
        ]
    );
    let rec = reconcile(&p, &["b"]);
    assert_eq!(
        rec[0].1,
        SyncBase {
            human: Some(human.section("b").unwrap().hash),
            ai: Some(ai.section("b").unwrap().hash)
        }
    );
}

#[test]
fn reconcile_then_edit() {
    for (h0, a0, h1) in [([1u8, 2, 3, 4], [5u8, 6, 7, 8], [9u8, 9, 9, 9]), ([0; 4], [0; 4], [1; 4]), ([7; 4], [8; 4], [8; 4])] {
        let (h0, a0, h1) = (Digest::of(&h0), Digest::of(&a0), Digest::of(&h1));
        let base = SyncBase { human: Some(h0), ai: Some(a0) };
        assert_eq!(classify(Some(&base), Some(h0), Some(a0)), Some(SyncState::InSync));
        if h1 != h0 && h1 != a0 {
            let s = classify(Some(&base), Some(h1), Some(a0)).unwrap();
            assert_eq!(s.stale_side(), Some(Variant::Ai));
        }
    }
}

#[test]
fn reconciled_rows_are_in_sync_against_their_base() {
    let p = plan(&[("a", Digest::of_str("h"))], &[("a", Digest::of_str("x"))], &[]);
    assert_eq!(p[0].state, SyncState::Conflict);
    let rec = reconcile(&p, &["a", "nope"]);
    assert_eq!(rec.len(), 1);
    assert_eq!(classify(Some(&rec[0].1), p[0].human, p[0].ai), Some(SyncState::InSync));
    assert_eq!(p[0].reconciled(), rec[0].1);
}

#[test]
fn plan_orders_human_then_ai_then_sorted_bases() {
    let bases = vec![
        ("z".to_owned(), SyncBase { human: h("1"), ai: None }),
        ("m".to_owned(), SyncBase { human: h("2"), ai: None }),
        ("gone".to_owned(), SyncBase { human: None, ai: None }),
    ];
    let p = plan(&[("b", Digest::of_str("b")), ("a", Digest::of_str("a"))], &[("c", Digest::of_str("c")), ("a", Digest::of_str("a"))], &bases);
    let got: Vec<_> = p.iter().map(|s| (s.anchor.as_str(), s.state)).collect();
    assert_eq!(
        got,
        [("b", SyncState::HumanAhead), ("a", SyncState::InSync), ("c", SyncState::AiAhead)]
    );
}

#[test]
fn names_and_sides() {
    for s in [SyncState::InSync, SyncState::HumanAhead, SyncState::AiAhead, SyncState::Conflict] {
        assert_eq!(SyncState::parse(s.as_str()).unwrap(), s);
    }
    assert_eq!(SyncState::parse("nope").unwrap_err().to_string(), "unknown sync state \"nope\"");
    assert_eq!(SyncState::AiAhead.stale_side(), Some(Variant::Human));
    assert_eq!(SyncState::Conflict.stale_side(), None);
    assert!(!SyncState::InSync.needs_attention());
    assert!(SyncState::Conflict.needs_attention());
    assert_eq!(Variant::parse("ai").unwrap(), Variant::Ai);
    assert_eq!(Variant::Human.other(), Variant::Ai);
    assert_eq!(Variant::parse("x").unwrap_err().to_string(), "unknown variant \"x\": expected \"human\" or \"ai\"");
    assert_eq!(Variant::ALL, [Variant::Human, Variant::Ai]);
}
