

type Digest = solidate::hash::Hash;

use solidate::path::Slug;
use solidate::links::LinkTarget;
use solidate::path::DocPath;
use solidate::transclude::{expand_includes, expand_listed_includes, SourceMap, DEFAULT_MAX_DEPTH};

fn slug(s: &str) -> Slug {
    Slug::parse(s).unwrap()
}

fn resolver(docs: &[(&str, &str)]) -> SourceMap {
    SourceMap::new(docs.iter().map(|(k, v)| (k.to_string(), v.to_string())).collect())
}

#[test]
fn expands_whole_docs_sections_and_nested() {
    let mut r = resolver(&[
        (
            "shared:rules",
            "# Rules\n\n## Tone {#tone}\n\nBe kind.\n\n### Detail\n\nReally.\n\n## Other\n\nNope.\n",
        ),
        ("app:a", "A says hi.\n\n{{include b}}\n"),
        ("app:b", "B here.\n"),
    ]);
    let md = "Top\n\n{{include shared:rules#tone}}\n\n{{include a}}\n\nEnd\n";
    let e = expand_includes(md, &slug("app"), &mut r, DEFAULT_MAX_DEPTH);
    assert!(e.text.contains("Be kind.") && e.text.contains("Really."));
    assert!(!e.text.contains("Nope."));
    assert!(e.text.contains("A says hi.") && e.text.contains("B here."));
    assert!(e.text.starts_with("Top\n") && e.text.ends_with("End\n"));
    let keys: Vec<_> = e.dependencies.iter().map(|d| d.target.to_string()).collect();
    assert_eq!(keys, ["shared:rules#tone", "app:a", "app:b"]);
}

#[test]
fn detects_cycles_and_missing() {
    let mut r = resolver(&[("app:a", "{{include b}}\n"), ("app:b", "{{include a}}\n")]);
    let e = expand_includes("{{include a}}\n\n{{include nope}}\n", &slug("app"), &mut r, DEFAULT_MAX_DEPTH);
    assert!(e.text.contains("Include cycle"), "{}", e.text);
    assert!(e.text.contains("Missing include:** `app:nope`"));
}

#[test]
fn resolved_hash_tracks_dependencies() {
    let md = "{{include shared:x}}\n";
    let h = |content: &str| {
        let docs = [("shared:x", content)];
        let mut r = resolver(&docs);
        expand_includes(md, &slug("app"), &mut r, 4).resolved_hash(Digest::of_str(md))
    };
    assert_ne!(h("one"), h("two"));
    assert_eq!(h("one"), h("one"));
}

#[test]
fn text_without_includes_is_unchanged() {
    let mut r = resolver(&[]);
    let md = "# T\n\ntext {{include x}} inline\n";
    let e = expand_includes(md, &slug("app"), &mut r, DEFAULT_MAX_DEPTH);
    assert_eq!(e.text, md);
    assert!(e.dependencies.is_empty());
    assert_eq!(e.resolved_hash(Digest::of_str(md)), Digest::of_str(md));
}

#[test]
fn depth_limit_and_notices() {
    let mut r = resolver(&[("app:a", "A\n")]);
    let e = expand_includes("{{include a}}\n", &slug("app"), &mut r, 0);
    assert_eq!(e.text, "> **Include depth exceeded:** `app:a`\n");
    assert_eq!(e.dependencies.len(), 1);
    assert_eq!(e.dependencies[0].hash, None);
    let e = expand_includes("{{include a}}\n", &slug("app"), &mut r, 1);
    assert_eq!(e.text, "A\n");
    assert_eq!(e.dependencies[0].hash, Some(Digest::of_str("A\n")));
}

#[test]
fn missing_section_and_unterminated_piece() {
    let mut r = resolver(&[("app:a", "# A\n\nno newline at end")]);
    let e = expand_includes("x\n\n{{include a#nope}}\n\n{{include a}}\n\ny\n", &slug("app"), &mut r, 2);
    assert!(e.text.starts_with("x\n\n> **Missing include:** `app:a#nope`\n"), "{}", e.text);
    assert!(e.text.ends_with("no newline at end\n\ny\n"), "{}", e.text);
    assert_eq!(e.dependencies.len(), 2);
}

#[test]
fn nothing_is_looked_up_at_the_depth_limit() {
    let mut r = resolver(&[("app:a", "A\n")]);
    let e = expand_includes("{{include a}}\n", &slug("app"), &mut r, 0);
    assert_eq!(e.text, "> **Include depth exceeded:** `app:a`\n");
    assert_eq!(r.looked_up().len(), 0);
    let e = expand_includes("{{include a}}\n", &slug("app"), &mut r, 1);
    assert_eq!(e.text, "A\n");
    assert_eq!(r.looked_up().len(), 1);
    assert_eq!(r.looked_up()[0].to_string(), "app:a");
}

#[test]
fn cycles_are_not_looked_up_again() {
    let mut r = resolver(&[("app:a", "A\n\n{{include b}}\n"), ("app:b", "B\n\n{{include a}}\n")]);
    let e = expand_includes("{{include a}}\n", &slug("app"), &mut r, DEFAULT_MAX_DEPTH);
    assert!(e.text.contains("Include cycle"), "{}", e.text);
    let asked: Vec<String> = r.looked_up().iter().map(|t| t.to_string()).collect();
    assert_eq!(asked, ["app:a", "app:b"]);
}

fn local(path: &str) -> LinkTarget {
    LinkTarget { project: None, path: Some(DocPath::parse(path).unwrap()), anchor: None }
}

#[test]
fn expands_the_includes_it_is_given() {
    let docs = [("app:a", "A says hi.\n"), ("app:b", "B here.\n")];
    let md = "Top\n\n{{include a}}\n\nEnd\n";
    let listed = expand_listed_includes(md, &[(local("a"), (3, 3))], &slug("app"), &mut resolver(&docs), 4);
    let parsed = expand_includes(md, &slug("app"), &mut resolver(&docs), 4);
    assert_eq!(listed, parsed);
    assert_eq!(listed.text, "Top\n\nA says hi.\n\nEnd\n");

    let mut r = resolver(&docs);
    let none = expand_listed_includes(md, &[], &slug("app"), &mut r, 4);
    assert_eq!(none.text, md);
    assert!(none.dependencies.is_empty());
    assert!(r.looked_up().is_empty());

    let mut r = resolver(&docs);
    let e = expand_listed_includes("Top\n\nEnd\n", &[(local("b"), (1, 1))], &slug("app"), &mut r, 4);
    assert_eq!(e.text, "B here.\n\nEnd\n");
    assert_eq!(r.looked_up().len(), 1);
    assert_eq!(r.looked_up()[0].to_string(), "app:b");
}
