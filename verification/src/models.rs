//! Stored rows that the service logic reads, and search snippet rendering.

use vstd::prelude::*;

use crate::auth::Role;
use crate::ids::{DocumentId, UserId};
use crate::sync::Variant;

verus! {

/// A section of a stored revision.
#[derive(Debug, Clone, PartialEq, Eq)]
pub struct SectionRow {
    pub ordinal: i32,
    pub anchor: String,
    pub title: String,
    pub level: i16,
    pub parent_anchor: Option<String>,
    pub hash: crate::hash::Hash,
}

/// A document that links to another.
#[derive(Debug, Clone, PartialEq, Eq)]
pub struct Backlink {
    pub document_id: DocumentId,
    pub project_slug: String,
    pub path: String,
    pub variant: Variant,
    pub target_anchor: Option<String>,
}

/// A tenant member.
#[derive(Debug, Clone, PartialEq, Eq)]
pub struct Member {
    pub user_id: UserId,
    pub email: String,
    pub name: String,
    pub role: Role,
}

/// Match delimiters in search snippets (Unicode private-use characters).
pub const SNIPPET_START: char = '\u{E000}';

pub const SNIPPET_END: char = '\u{E001}';

/// The HTML for one snippet character: match delimiters become `<mark>` tags and
/// HTML's special characters are escaped.
pub open spec fn snippet_char_html(c: char) -> Seq<char> {
    if c == SNIPPET_START {
        "<mark>"@
    } else if c == SNIPPET_END {
        "</mark>"@
    } else if c == '&' {
        "&amp;"@
    } else if c == '<' {
        "&lt;"@
    } else if c == '>' {
        "&gt;"@
    } else if c == '"' {
        "&quot;"@
    } else if c == '\'' {
        "&#39;"@
    } else {
        seq![c]
    }
}

/// What [`snippet_html`] returns.
pub open spec fn snippet_html_of(s: Seq<char>) -> Seq<char>
    decreases s.len(),
{
    if s.len() == 0 {
        seq![]
    } else {
        snippet_html_of(s.drop_last()) + snippet_char_html(s.last())
    }
}

/// A search snippet HTML-escaped, with matches wrapped in `<mark>`.
pub fn snippet_html(snippet: &str) -> (r: String)
    ensures
        r@ == snippet_html_of(snippet@),
{
    let chars = crate::text::chars_of(snippet);
    let mut out = String::new();
    let mut i: usize = 0;
    while i < chars.len()
        invariant
            0 <= i <= chars@.len(),
            chars@ == snippet@,
            out@ == snippet_html_of(chars@.take(i as int)),
        decreases chars@.len() - i,
    {
        let c = chars[i];
        let ghost before = out@;
        if c == SNIPPET_START {
            out.append("<mark>");
        } else if c == SNIPPET_END {
            out.append("</mark>");
        } else if c == '&' {
            out.append("&amp;");
        } else if c == '<' {
            out.append("&lt;");
        } else if c == '>' {
            out.append("&gt;");
        } else if c == '"' {
            out.append("&quot;");
        } else if c == '\'' {
            out.append("&#39;");
        } else {
            let one = [c];
            out.append(crate::text::string_of(&one).as_str());
            assert(one@ =~= seq![c]);
        }
        assert(chars@.take(i + 1).drop_last() =~= chars@.take(i as int));
        assert(out@ == before + snippet_char_html(c));
        i += 1;
    }
    assert(chars@.take(i as int) =~= chars@);
    out
}

} // verus!
