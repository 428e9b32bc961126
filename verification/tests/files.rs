use solidate::files::{doc_for_file, file_for_doc, import_order, paired_docs};
use solidate::path::DocPath;
use solidate::sync::Variant;

#[test]
fn mapping_round_trips() {
    let (p, v) = doc_for_file("design/auth.ai.md").unwrap();
    assert_eq!((p.as_str(), v), ("design/auth", Variant::Ai));
    assert_eq!(doc_for_file("readme.md").unwrap().1, Variant::Human);
    assert!(doc_for_file("image.png").is_none());
    assert!(doc_for_file("bad name.md").is_none());
    assert_eq!(file_for_doc("/out", &p, v), "/out/design/auth.ai.md");
}

#[test]
fn backslashes_and_roots() {
    let (p, v) = doc_for_file("design\\auth.md").unwrap();
    assert_eq!((p.as_str(), v), ("design/auth", Variant::Human));
    assert_eq!(file_for_doc("/out/", &p, v), "/out/design/auth.md");
    assert_eq!(file_for_doc("", &p, Variant::Ai), "design/auth.ai.md");
    assert!(doc_for_file(".md").is_none());
}

fn doc(path: &str, v: Variant) -> (DocPath, Variant) {
    (DocPath::parse(path).unwrap(), v)
}

#[test]
fn imports_human_variants_first_then_by_path() {
    let files = vec![
        doc("z", Variant::Ai),
        doc("b/x", Variant::Human),
        doc("a", Variant::Ai),
        doc("B", Variant::Human),
        doc("a", Variant::Human),
        doc("a-b", Variant::Human),
    ];
    let order = import_order(&files);
    assert_eq!(order, [3, 4, 5, 1, 2, 0]);
    let mut sorted: Vec<usize> = (0..files.len()).collect();
    sorted.sort_by(|&i, &j| (files[i].1, &files[i].0).cmp(&(files[j].1, &files[j].0)));
    assert_eq!(order, sorted);
    assert!(import_order(&[]).is_empty());
}

#[test]
fn equal_files_keep_their_order() {
    let files = vec![doc("a", Variant::Ai), doc("a", Variant::Human), doc("a", Variant::Ai)];
    assert_eq!(import_order(&files), [1, 0, 2]);
}

#[test]
fn pairs_documents_with_both_variants() {
    let files = vec![
        doc("a", Variant::Human),
        doc("b", Variant::Human),
        doc("a", Variant::Ai),
        doc("c", Variant::Ai),
        doc("b", Variant::Ai),
    ];
    let paired: Vec<_> = paired_docs(&files).iter().map(|p| p.as_str().to_string()).collect();
    assert_eq!(paired, ["a", "b"]);
    assert!(paired_docs(&[doc("x", Variant::Ai)]).is_empty());
}
