//! Arguments of the front ends' operations, and how their text is read.

use vstd::prelude::*;

use crate::auth::{scope_text, ParseEnumError, Scope};
use crate::documents::Expect;
use crate::error::AppError;
use crate::path::{parse_path as path_of, path_error_text, DocPath, PathFault};
use crate::sync::Variant;
use crate::text::{chars_of, debug_quoted, quoted, string_of, trim, trim_pat};

verus! {

/// A project.
pub struct ProjectArg {
    /// Project slug.
    pub project: String,
}

/// A full-text search.
pub struct SearchArgs {
    /// Full-text query (web search syntax: quotes, OR, -exclude).
    pub query: String,
    /// Limit to one project.
    pub project: Option<String>,
    /// Maximum results (default 20, max 100).
    pub limit: Option<i64>,
}

/// A document read.
pub struct ReadDocArgs {
    pub project: String,
    /// Document path, e.g. `design/auth`.
    pub path: String,
    /// `human` (default) or `ai`.
    pub variant: Option<String>,
    /// Return only the section with this anchor.
    pub section: Option<String>,
    /// Expand `{{include}}` directives.
    pub expand: bool,
}

/// A document write.
pub struct WriteDocArgs {
    pub project: String,
    pub path: String,
    /// `human` (default) or `ai`.
    pub variant: Option<String>,
    /// Full Markdown content of the variant.
    pub content: String,
    /// `content_hash` of the variant as last read. Omit only when creating the variant.
    pub base_hash: Option<String>,
    /// Change note.
    pub message: Option<String>,
    /// Section anchors this write propagates; they are marked in sync afterwards.
    pub resolves: Vec<String>,
}

/// A document.
pub struct DocArgs {
    pub project: String,
    pub path: String,
}

/// One section of a document.
pub struct SyncItemArgs {
    pub project: String,
    pub path: String,
    /// Section anchor.
    pub anchor: String,
}

/// Sections to mark in sync.
pub struct ResolveArgs {
    pub project: String,
    pub path: String,
    /// Anchors to mark in sync without editing.
    pub anchors: Vec<String>,
    /// Instead of `anchors`: every pending section present in both variants.
    pub paired: bool,
}

/// A variant's history.
pub struct HistoryArgs {
    pub project: String,
    pub path: String,
    /// `human` (default) or `ai`.
    pub variant: Option<String>,
    /// Maximum revisions (default 20).
    pub limit: Option<i64>,
}

/// Parses a document path argument; a refused path is an `Invalid` error with the
/// path error's message.
pub fn parse_path(path: &str) -> (r: Result<DocPath, AppError>)
    ensures
        match r {
            Ok(p) => path_of(path@) == Ok::<Seq<char>, PathFault>(p@),
            Err(e) => match path_of(path@) {
                Err(f) => e is Invalid && e->Invalid_0@ == path_error_text(f),
                Ok(_) => false,
            },
        },
{
    match DocPath::parse(path) {
        Ok(p) => Ok(p),
        Err(e) => Err(AppError::Invalid(e.to_string())),
    }
}

/// Reads a variant argument: absent or `human` is the human variant, `ai` the AI one.
pub open spec fn variant_arg(v: Option<Seq<char>>) -> Result<Variant, Seq<char>> {
    match v {
        None => Ok(Variant::Human),
        Some(s) => if s == "human"@ {
            Ok(Variant::Human)
        } else if s == "ai"@ {
            Ok(Variant::Ai)
        } else {
            Err("unknown variant "@ + debug_quoted(s) + "; expected human or ai"@)
        },
    }
}

pub fn parse_variant(v: Option<&str>) -> (r: Result<Variant, AppError>)
    ensures
        match (r, variant_arg(match v {
            Some(s) => Some(s@),
            None => None,
        })) {
            (Ok(a), Ok(b)) => a == b,
            (Err(e), Err(m)) => e is Invalid && e->Invalid_0@ == m,
            _ => false,
        },
{
    match v {
        None => Ok(Variant::Human),
        Some(s) => {
            if crate::auth::str_eq(s, "human") {
                Ok(Variant::Human)
            } else if crate::auth::str_eq(s, "ai") {
                Ok(Variant::Ai)
            } else {
                let mut m = String::from_str("unknown variant ");
                m.append(quoted(s).as_str());
                m.append("; expected human or ai");
                Err(AppError::Invalid(m))
            }
        },
    }
}

/// Reads the `base_hash` of a write: a hash expects that head, and none expects the
/// variant to be absent.
pub fn parse_expect(base_hash: Option<&str>) -> (r: Result<Expect, AppError>)
    ensures
        match base_hash {
            None => r == Ok::<Expect, AppError>(Expect::Absent),
            Some(h) => match r {
                Ok(Expect::Head(x)) => crate::hash::parse_hex(h@) == Some(x@),
                Ok(_) => false,
                Err(e) => crate::hash::parse_hex(h@) is None && e is Invalid && e->Invalid_0@
                    == "base_hash must be a 64-character hex hash"@,
            },
        },
{
    match base_hash {
        None => Ok(Expect::Absent),
        Some(h) => match crate::hash::Hash::parse(h) {
            Ok(x) => Ok(Expect::Head(x)),
            Err(_) => Err(AppError::Invalid(String::from_str("base_hash must be a 64-character hex hash"))),
        },
    }
}

/// A change note: trimmed, and none when empty.
pub fn change_note(message: Option<&str>) -> (r: Option<String>)
    ensures
        crate::links::opt_view_string(r) == match message {
            Some(m) => if trim(m@, None).len() > 0 {
                Some(trim(m@, None))
            } else {
                None
            },
            None => None,
        },
{
    match message {
        Some(m) => {
            let t = trim_pat(&chars_of(m), None);
            if t.len() > 0 {
                Some(string_of(&t))
            } else {
                None
            }
        },
        None => None,
    }
}

/// Parses a token scope argument; a refused name gives the parse error's message.
pub fn parse_scope(s: &str) -> (r: Result<Scope, String>)
    ensures
        match r {
            Ok(scope) => scope_text(scope) == s@,
            Err(m) => (forall|x: Scope| scope_text(x) != s@) && m@ == "unknown scope "@ + debug_quoted(s@),
        },
{
    match Scope::parse(s) {
        Ok(scope) => Ok(scope),
        Err(e) => {
            let m = e.to_string();
            proof {
                reveal_strlit("unknown ");
                reveal_strlit("scope");
                reveal_strlit(" ");
                reveal_strlit("unknown scope ");
                assert("unknown "@ + "scope"@ + " "@ =~= "unknown scope "@);
            }
            Err(m)
        },
    }
}

/// A search request as the store runs it: the query trimmed, refused when empty,
/// and the result limit clamped to 1..=100.
pub fn search_request(query: &str, limit: i64) -> (r: Result<(String, i64), AppError>)
    ensures
        match r {
            Ok((q, n)) => {
                &&& trim(query@, None).len() > 0
                &&& q@ == trim(query@, None)
                &&& n == if limit < 1 {
                    1
                } else if limit > 100 {
                    100
                } else {
                    limit
                }
            },
            Err(e) => trim(query@, None).len() == 0 && e is Invalid && e->Invalid_0@ == "query is empty"@,
        },
{
    let q = trim_pat(&chars_of(query), None);
    if q.len() == 0 {
        return Err(crate::error::invalid("query is empty"));
    }
    let n = if limit < 1 {
        1
    } else if limit > 100 {
        100
    } else {
        limit
    };
    Ok((string_of(&q), n))
}

} // verus!
