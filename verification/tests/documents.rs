use solidate::documents::{effective_paths, include_key, include_requests, override_expect, project_index, search_title, write_decision, Expect, TreeEntry};
use solidate::error::{tool_failure, AppError};

type Digest = solidate::hash::Hash;

#[test]
fn writes_check_the_head_and_skip_unchanged_content() {
    let (a, b) = (Digest::of_str("a"), Digest::of_str("b"));
    assert_eq!(write_decision(Expect::Any, None, a), Ok(true));
    assert_eq!(write_decision(Expect::Any, Some(a), a), Ok(false));
    assert_eq!(write_decision(Expect::Any, Some(a), b), Ok(true));
    assert_eq!(write_decision(Expect::Absent, None, a), Ok(true));
    assert_eq!(
        write_decision(Expect::Absent, Some(b), a),
        Err(AppError::PreconditionFailed { current: Some(b) })
    );
    assert_eq!(write_decision(Expect::Head(a), Some(a), b), Ok(true));
    assert_eq!(write_decision(Expect::Head(a), Some(a), a), Ok(false));
    assert_eq!(
        write_decision(Expect::Head(a), Some(b), a),
        Err(AppError::PreconditionFailed { current: Some(b) })
    );
    assert_eq!(write_decision(Expect::Head(a), None, a), Err(AppError::PreconditionFailed { current: None }));
}

#[test]
fn an_override_accepts_the_inherited_head() {
    let (a, b) = (Digest::of_str("a"), Digest::of_str("b"));
    assert_eq!(override_expect(Expect::Any, None), Ok(Expect::Absent));
    assert_eq!(override_expect(Expect::Absent, Some(a)), Ok(Expect::Absent));
    assert_eq!(override_expect(Expect::Head(a), Some(a)), Ok(Expect::Absent));
    assert_eq!(
        override_expect(Expect::Head(a), Some(b)),
        Err(AppError::PreconditionFailed { current: None })
    );
    assert_eq!(override_expect(Expect::Head(a), None), Err(AppError::PreconditionFailed { current: None }));
}

#[test]
fn search_title_reads_path_separators_as_spaces() {
    assert_eq!(search_title(Some("Auth"), "design/auth-flow_v2"), "Auth design auth flow v2");
    assert_eq!(search_title(None, "readme"), " readme");
}

#[test]
fn nearest_project_wins_and_paths_come_sorted() {
    let child = vec!["rules/style".to_string(), "guide".to_string()];
    let parent = vec!["rules/style".to_string(), "about".to_string()];
    let root = vec!["zeta".to_string(), "guide".to_string(), "about".to_string()];
    let picked = effective_paths(&[child, parent, root]);
    assert_eq!(picked, vec![(1, 1), (0, 1), (0, 0), (2, 0)]);
    assert_eq!(effective_paths(&[]), vec![]);
}

#[test]
fn tool_failures_hide_internals_and_name_the_current_hash() {
    let h = Digest::of_str("x");
    assert_eq!(
        tool_failure(&AppError::PreconditionFailed { current: Some(h) }),
        format!("precondition failed: the document changed; current content_hash is {}. Re-read and retry.", h.to_hex())
    );
    assert_eq!(
        tool_failure(&AppError::PreconditionFailed { current: None }),
        "precondition failed: the document variant already exists or was removed; re-read and retry."
    );
    assert_eq!(tool_failure(&AppError::Internal("db down".into())), "internal error");
    assert_eq!(tool_failure(&AppError::NotFound), "not found");
    assert_eq!(tool_failure(&AppError::Invalid("bad".into())), "invalid: bad");
}

fn entry(path: &str, title: Option<&str>, owner: &str, inherited: bool, human: bool, ai: bool) -> TreeEntry {
    TreeEntry {
        path: path.to_string(),
        title: title.map(str::to_string),
        owner: owner.to_string(),
        inherited,
        sync_enabled: true,
        human: if human { Some(Digest::of_str("h")) } else { None },
        ai: if ai { Some(Digest::of_str("a")) } else { None },
        updated_at: 0,
    }
}

#[test]
fn project_index_lists_titles_variants_and_owners() {
    let entries = [
        entry("design/auth", Some("Auth"), "app", false, true, true),
        entry("notes", None, "app", false, false, true),
        entry("rules/style", Some("Style"), "shared", true, true, false),
    ];
    assert_eq!(
        project_index("App", &entries),
        "# App\n\n- Auth: `design/auth` (human, ai)\n- notes: `notes` (ai)\n- Style: `rules/style` (human; inherited from shared)\n"
    );
    assert_eq!(project_index("Empty", &[]), "# Empty\n\n");
}

#[test]
fn include_requests_qualify_targets_and_skip_known_ones() {
    let text = "# Guide\n\n{{include rules#tone}}\n\n{{include shared:rules/style}}\n\n{{include #local}}\n";
    let got = include_requests("app", text, &["shared:rules/style".to_string()]);
    assert_eq!(got.iter().map(include_key).collect::<Vec<_>>(), vec!["app:rules".to_string()]);
    let all = include_requests("app", text, &[]);
    assert_eq!(
        all.iter().map(include_key).collect::<Vec<_>>(),
        vec!["app:rules".to_string(), "shared:rules/style".to_string()]
    );
    let unqualified = include_requests("Not A Slug", text, &[]);
    assert_eq!(unqualified.iter().map(include_key).collect::<Vec<_>>(), vec!["shared:rules/style".to_string()]);
}
