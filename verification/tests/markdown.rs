
type Digest = solidate::hash::Hash;
use solidate::markdown::{analyze, analyze_nodes, has_explicit_anchor, MdNode, NodeKind, heading_outline, normalize, semantic_hash, slugify, PREAMBLE_ANCHOR};
use solidate::path::DocPath;

const DOC: &str = "Intro text.\n\n# Auth {#auth}\n\nOverview.\n\n## Tokens\n\nSee [sessions](sessions#ttl) and [[shared:rules/style#tone|style]].\n\n## Tokens\n\nDupe.\n\n{{include shared:rules#security}}\n\n```md\n# not a heading\n```\n";

#[test]
fn splits_sections_with_stable_anchors() {
    let a = analyze(DOC, Some(&DocPath::parse("design/auth").unwrap()));
    let anchors: Vec<_> = a.sections.iter().map(|s| s.anchor.as_str()).collect();
    assert_eq!(anchors, ["_preamble", "auth", "tokens", "tokens-1"]);
    assert_eq!(a.title.as_deref(), Some("Auth"));
    assert_eq!(a.sections[1].title, "Auth");
    assert_eq!(a.sections[2].parent.as_deref(), Some("auth"));
    assert!(a.sections[3].body.contains("# not a heading"));
    assert_eq!(a.sections.iter().map(|s| s.body.as_str()).collect::<String>(), DOC);
}

#[test]
fn extracts_links_and_includes() {
    let a = analyze(DOC, Some(&DocPath::parse("design/auth").unwrap()));
    let links: Vec<_> = a.links.iter().map(|l| l.to_string()).collect();
    assert_eq!(links, ["design/sessions#ttl", "shared:rules/style#tone"]);
    assert_eq!(a.includes.len(), 1);
    assert_eq!(a.includes[0].to_string(), "shared:rules#security");
}

#[test]
fn semantic_hash_ignores_formatting_but_content_hash_does_not() {
    let a = "# Title\n\nSome *text* here\n* one\n* two\n";
    let b = "Title\n=====\n\nSome _text_ here\n\n- one\n- two\n";
    assert_eq!(semantic_hash(a), semantic_hash(b));
    assert_ne!(Digest::of_str(a), Digest::of_str(b));
    assert_ne!(semantic_hash(a), semantic_hash("# Title\n\nOther text\n"));
}

#[test]
fn section_tree_includes_subsections() {
    let a = analyze(DOC, None);
    let tree = a.section_tree_source("auth").unwrap();
    assert!(tree.starts_with("# Auth") && tree.contains("Dupe."));
    assert_eq!(a.section_tree_source("tokens").unwrap(), a.section("tokens").unwrap().body);
}

#[test]
fn slugify_rules() {
    assert_eq!(slugify("  Hello, World! -- v2 "), "hello-world-v2");
    assert_eq!(slugify("snake_case"), "snake_case");
    assert_eq!(slugify("!!!"), "");
}

#[test]
fn slugify_keeps_only_ascii_letters_digits_and_underscores() {
    assert_eq!(slugify("Ärger Über Straße"), "rger-ber-strae");
    assert_eq!(slugify("Café au lait"), "caf-au-lait");
    assert_eq!(slugify("-a-"), "a");
    assert_eq!(slugify("日本 語"), "");
    let s = slugify("  Hello, World! -- v2 ");
    assert_eq!(slugify(&s), s);
}

#[test]
fn anchors_for_empty_duplicate_and_reserved_headings() {
    let a = analyze("# !!!\n\n# !!!\n\n# Section\n\n# _preamble {#_preamble}\n", None);
    let anchors: Vec<_> = a.sections.iter().map(|s| s.anchor.as_str()).collect();
    assert_eq!(anchors, ["section", "section-1", "section-2", "_preamble-1"]);
    assert!(a.sections.iter().all(|s| s.anchor != PREAMBLE_ANCHOR));
}

#[test]
fn blank_preamble_is_dropped_and_levels_nest() {
    let a = analyze("\n\n# A\n\n### C\n\n## B\n\n# D\n", None);
    let got: Vec<_> = a
        .sections
        .iter()
        .map(|s| (s.anchor.as_str(), s.level, s.parent.as_deref(), s.ordinal))
        .collect();
    assert_eq!(
        got,
        [
            ("a", 1, None, 0),
            ("c", 3, Some("a"), 1),
            ("b", 2, Some("a"), 2),
            ("d", 1, None, 3)
        ]
    );
    assert_eq!(a.section_tree_source("a").unwrap(), "# A\n\n### C\n\n## B\n\n");
    assert!(a.section("missing").is_none());
    assert_eq!(a.section_tree_source("missing"), None);
}

#[test]
fn title_falls_back_to_first_heading() {
    assert_eq!(analyze("## Sub\n\n### Deeper\n", None).title.as_deref(), Some("Sub"));
    assert_eq!(analyze("## Sub\n\n# Main\n", None).title.as_deref(), Some("Main"));
    assert_eq!(analyze("no headings\n", None).title, None);
}

#[test]
fn links_are_deduplicated_and_external_ones_skipped() {
    let a = analyze("[a](x) [b](x) [c](https://e.x) [[x]]\n", None);
    let links: Vec<_> = a.links.iter().map(|l| l.to_string()).collect();
    assert_eq!(links, ["x"]);
}

#[test]
fn hashes_of_analysis() {
    let md = "# T\n\nbody\n";
    let a = analyze(md, None);
    assert_eq!(a.content_hash, Digest::of_str(md));
    assert_eq!(a.semantic_hash, semantic_hash(md));
    assert_eq!(a.semantic_hash, Digest::of_str(&normalize(md)));
    assert_eq!(a.sections[0].hash, semantic_hash(&a.sections[0].body));
}

#[test]
fn outline_lists_every_heading() {
    let o = heading_outline("# Hello {#hi}\n\n## Sub\n\n> # Quoted\n");
    let got: Vec<_> = o.iter().map(|e| (e.level, e.title.as_str(), e.anchor.as_str())).collect();
    assert_eq!(got, [(1, "Hello", "hi"), (2, "Sub", "sub"), (1, "Quoted", "quoted")]);
}

#[test]
fn explicit_anchor_suffixes_are_recognised() {
    assert!(has_explicit_anchor("Auth {#auth}"));
    assert!(has_explicit_anchor("Tone {#tone-1_a}  "));
    assert!(!has_explicit_anchor("Auth"));
    assert!(!has_explicit_anchor("Bad {#a b}"));
    assert!(!has_explicit_anchor("Empty {#}"));
}

fn node(kind: NodeKind, text: &str, top_level: bool, line: usize) -> MdNode {
    MdNode { kind, text: text.to_string(), top_level, first_line: line, last_line: line }
}

#[test]
fn analyzes_the_nodes_it_is_given() {
    let md = "# Intro\n\nSee [a](other).\n\n{{include notes}}\n";
    let nodes = vec![
        node(NodeKind::Heading(1), "Intro", true, 1),
        node(NodeKind::Other, "Intro", false, 1),
        node(NodeKind::Paragraph, "See a.", true, 3),
        node(NodeKind::Other, "See ", false, 3),
        node(NodeKind::Link("other".to_string()), "a", false, 3),
        node(NodeKind::Other, "a", false, 3),
        node(NodeKind::Other, ".", false, 3),
        node(NodeKind::Paragraph, "{{include notes}}", true, 5),
        node(NodeKind::Other, "{{include notes}}", false, 5),
    ];
    let base = DocPath::parse("design/auth").unwrap();
    let a = analyze_nodes(md, &nodes, Some(&base));
    assert_eq!(a, analyze(md, Some(&base)));
    assert_eq!(a.title.as_deref(), Some("Intro"));
    let anchors: Vec<_> = a.sections.iter().map(|s| s.anchor.as_str()).collect();
    assert_eq!(anchors, ["intro"]);
    let links: Vec<_> = a.links.iter().map(|l| l.to_string()).collect();
    assert_eq!(links, ["design/other"]);
    assert_eq!(a.includes.len(), 1);
    assert_eq!(a.includes[0].to_string(), "notes");
    let no_heading = analyze_nodes(md, &nodes[2..], Some(&base));
    assert_eq!(no_heading.title, None);
    assert_eq!(no_heading.sections.len(), 1);
    assert_eq!(no_heading.sections[0].anchor, PREAMBLE_ANCHOR);
}
