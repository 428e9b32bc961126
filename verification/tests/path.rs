use solidate::path::{DocPath, PathError, Slug};

#[test]
fn doc_path_normalizes() {
    assert_eq!(DocPath::parse("/design/auth.md").unwrap().as_str(), "design/auth");
    assert_eq!(DocPath::parse("readme").unwrap().dir(), "");
    let p = DocPath::parse("a/b/c").unwrap();
    assert_eq!((p.dir(), p.name()), ("a/b", "c"));
}

#[test]
fn doc_path_rejects_bad_input() {
    assert_eq!(DocPath::parse(""), Err(PathError::Empty));
    assert!(DocPath::parse("a//b").is_err());
    assert!(DocPath::parse("a/../b").is_err());
    assert!(DocPath::parse("a b").is_err());
}

#[test]
fn join_resolves_relative_and_rooted() {
    let p = DocPath::parse("design/auth").unwrap();
    assert_eq!(p.join("sessions").unwrap().as_str(), "design/sessions");
    assert_eq!(p.join("../ops/deploy.md").unwrap().as_str(), "ops/deploy");
    assert_eq!(p.join("/readme").unwrap().as_str(), "readme");
    assert!(p.join("../../x").is_err());
}

#[test]
fn slug_rules() {
    assert!(Slug::parse("acme-2").is_ok());
    for bad in ["", "Acme", "2acme", "a_b", &"a".repeat(64)] {
        assert!(Slug::parse(bad).is_err(), "{bad:?}");
    }
}

#[test]
fn path_errors_carry_their_messages() {
    assert_eq!(DocPath::parse("").unwrap_err().to_string(), "path is empty");
    assert_eq!(
        DocPath::parse("a b").unwrap_err().to_string(),
        "path segment \"a b\" is not allowed"
    );
    assert_eq!(
        DocPath::parse(&"a".repeat(600)).unwrap_err().to_string(),
        "path is longer than 512 characters"
    );
    assert_eq!(
        Slug::parse("Acme").unwrap_err().to_string(),
        "invalid slug \"Acme\": use 1-63 lowercase letters, digits or '-', starting with a letter"
    );
}

#[test]
fn segments_and_trailing_slashes() {
    let p = DocPath::parse("//a/b.c/d.md//").unwrap();
    assert_eq!(p.as_str(), "a/b.c/d");
    assert_eq!(p.segments(), vec!["a".to_owned(), "b.c".to_owned(), "d".to_owned()]);
    assert_eq!(p.duplicate(), p);
    assert!(DocPath::parse("a/./b").is_err());
    assert!(DocPath::parse("/").is_err());
}

#[test]
fn joins_stay_inside_the_project_and_rooted_targets_ignore_the_base() {
    let p = DocPath::parse("design/auth").unwrap();
    assert_eq!(p.join("../../x"), Err(PathError::BadSegment("..".to_string())));
    assert_eq!(p.join("./../.."), Err(PathError::BadSegment("..".to_string())));
    assert_eq!(p.join("../../x \n"), Err(PathError::BadSegment("..".to_string())));
    assert_eq!(p.join("..//../.. "), Err(PathError::BadSegment("..".to_string())));
    for base in ["design/auth", "readme", "a/b/c"] {
        let b = DocPath::parse(base).unwrap();
        assert_eq!(b.join("/ops/deploy").unwrap().as_str(), "ops/deploy");
    }
    for path in ["design/auth", "readme", "a/b/c"] {
        let q = DocPath::parse(path).unwrap();
        let rebuilt = if q.dir().is_empty() { q.name().to_string() } else { format!("{}/{}", q.dir(), q.name()) };
        assert_eq!(rebuilt, q.as_str());
    }
}
