use solidate::args::{change_note, parse_expect, parse_path, parse_scope, parse_variant, search_request};
use solidate::auth::Scope;
use solidate::documents::{check_doc_size, include_key, tree_root, Expect};
use solidate::error::AppError;
use solidate::hash::Merkle;

type Digest = solidate::hash::Hash;
use solidate::links::LinkTarget;
use solidate::path::{DocPath, Slug};
use solidate::sync::Variant;

#[test]
fn tool_arguments() {
    assert_eq!(parse_path("/a/b.md").unwrap().as_str(), "a/b");
    assert_eq!(parse_path("a b").unwrap_err(), AppError::Invalid("path segment \"a b\" is not allowed".into()));
    assert_eq!(parse_variant(None).unwrap(), Variant::Human);
    assert_eq!(parse_variant(Some("ai")).unwrap(), Variant::Ai);
    assert_eq!(
        parse_variant(Some("robot")).unwrap_err(),
        AppError::Invalid("unknown variant \"robot\"; expected human or ai".into())
    );
    let h = Digest::of_str("x");
    assert_eq!(parse_expect(Some(&h.to_hex())).unwrap(), Expect::Head(h));
    assert_eq!(parse_expect(None).unwrap(), Expect::Absent);
    assert_eq!(
        parse_expect(Some("abc")).unwrap_err(),
        AppError::Invalid("base_hash must be a 64-character hex hash".into())
    );
    assert_eq!(change_note(Some("  fix  ")), Some("fix".to_owned()));
    assert_eq!(change_note(Some("   ")), None);
    assert_eq!(parse_scope("write"), Ok(Scope::Write));
    assert_eq!(parse_scope("all"), Err("unknown scope \"all\"".to_owned()));
}

#[test]
fn document_limits_keys_and_tree_hash() {
    assert!(check_doc_size(4, "abcd").is_ok());
    assert_eq!(check_doc_size(4, "abcde"), Err(AppError::Invalid("document exceeds 4 bytes".into())));
    assert!(check_doc_size(4, "éé").is_ok());
    assert!(check_doc_size(4, "ééé").is_err());
    let t = LinkTarget {
        project: Some(Slug::parse("shared").unwrap()),
        path: Some(DocPath::parse("rules").unwrap()),
        anchor: Some("x".into()),
    };
    assert_eq!(include_key(&t), "shared:rules");
    assert_eq!(include_key(&LinkTarget { project: None, path: None, anchor: None }), ":");
    let (a, b) = (Digest::of_str("a"), Digest::of_str("b"));
    let root = tree_root(&[("x", Some(a), None), ("y", Some(a), Some(b))]);
    let mut m = Merkle::new();
    m.insert("y@ai".into(), b);
    m.insert("x@human".into(), a);
    m.insert("y@human".into(), a);
    assert_eq!(root, m.finish());
}

#[test]
fn search_requests_trim_the_query_and_clamp_the_limit() {
    assert_eq!(search_request("  rotated ", 20), Ok(("rotated".to_string(), 20)));
    assert_eq!(search_request("x", 0), Ok(("x".to_string(), 1)));
    assert_eq!(search_request("x", 1000), Ok(("x".to_string(), 100)));
    assert_eq!(search_request(" \t", 10), Err(AppError::Invalid("query is empty".into())));
}
