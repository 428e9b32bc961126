use solidate::links::{parse_include, parse_markdown_link, parse_wiki_target, LinkTarget};
use solidate::path::{DocPath, Slug};

fn t(project: Option<&str>, path: Option<&str>, anchor: Option<&str>) -> LinkTarget {
    LinkTarget {
        project: project.map(|p| Slug::parse(p).unwrap()),
        path: path.map(|p| DocPath::parse(p).unwrap()),
        anchor: anchor.map(str::to_owned),
    }
}

#[test]
fn wiki_targets() {
    assert_eq!(parse_wiki_target("design/auth"), Some(t(None, Some("design/auth"), None)));
    assert_eq!(
        parse_wiki_target("shared:rules/style#tone"),
        Some(t(Some("shared"), Some("rules/style"), Some("tone")))
    );
    assert_eq!(parse_wiki_target("#local"), Some(t(None, None, Some("local"))));
    assert_eq!(parse_wiki_target("Bad Slug:x"), None);
    assert_eq!(parse_wiki_target("shared:"), None);
}

#[test]
fn markdown_links() {
    let base = DocPath::parse("design/auth").unwrap();
    assert_eq!(parse_markdown_link("https://x.dev/a", Some(&base)), None);
    assert_eq!(parse_markdown_link("mailto:a@b", Some(&base)), None);
    assert_eq!(
        parse_markdown_link("sessions.md#ttl", Some(&base)),
        Some(t(None, Some("design/sessions"), Some("ttl")))
    );
    assert_eq!(parse_markdown_link("/readme", Some(&base)), Some(t(None, Some("readme"), None)));
    assert_eq!(parse_markdown_link("#top", Some(&base)), Some(t(None, None, Some("top"))));
}

#[test]
fn includes() {
    assert_eq!(
        parse_include("  {{include shared:rules#x}} "),
        Some(t(Some("shared"), Some("rules"), Some("x")))
    );
    assert_eq!(
        parse_include("{{include shared:rules\\#x}}").unwrap().anchor.as_deref(),
        Some("x")
    );
    assert_eq!(parse_include("{{included x}}"), None);
    assert_eq!(parse_include("{{include #only-anchor}}"), None);
    assert_eq!(parse_include("text {{include x}}"), None);
}

#[test]
fn targets_print_and_compare() {
    let full = t(Some("shared"), Some("rules/style"), Some("tone"));
    assert_eq!(full.to_string(), "shared:rules/style#tone");
    assert_eq!(t(None, None, Some("x")).to_string(), "#x");
    assert!(full.same(&full.duplicate()));
    assert!(!full.same(&t(Some("shared"), Some("rules/style"), None)));
    assert_eq!(parse_markdown_link("//cdn.x/a", None), None);
    assert_eq!(parse_markdown_link("a?x=1#b", None), Some(t(None, Some("a"), None)));
    assert_eq!(parse_markdown_link("a#b?x=1", None), Some(t(None, Some("a"), Some("b"))));
    assert_eq!(parse_markdown_link("", None), None);
}

#[test]
fn wiki_targets_print_and_parse_back() {
    for raw in ["design/auth", " shared:rules/style#tone ", "#local", "a/b#x#z", "b:a#x:y"] {
        let t = parse_wiki_target(raw).unwrap();
        assert!(t.path.is_some() || t.anchor.is_some());
        assert!(t.project.is_none() || t.path.is_some());
        assert_eq!(parse_wiki_target(&t.to_string()), Some(t.duplicate()), "{raw}");
    }
    assert_eq!(parse_wiki_target("a#x:y"), None);
}
