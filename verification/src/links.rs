//! Link and include targets.
//!
//! Solidate recognizes three reference forms:
//!
//! - Markdown links, `[text](auth#tokens)`. The target resolves relative to the
//!   current document, or from the project root when it starts with `/`. A URL with
//!   a scheme (`https:`, `mailto:`) is external and isn't tracked.
//! - Wiki links, `[[design/auth#tokens]]` or `[[shared:rules/style]]`. These are always
//!   project-rooted and may name another project with a `project:` prefix.
//! - Includes, `{{include shared:rules/style#tone}}`, written alone on a line. They
//!   use the same target syntax as wiki links.

use vstd::prelude::*;

use crate::auth::str_eq;
use crate::path::{join_path, md_suffix, parse_path, valid_path, valid_slug, DocPath, PathFault, Slug};
use crate::text::{
    chars_of, copy_range, find, find_from, has_prefix, has_suffix, is_ascii_alnum, is_ascii_alpha,
    is_whitespace, is_ws, lemma_find, lemma_find_unique, starts_with, ends_with, string_of, trim, trim_end, trim_pat,
};

verus! {

/// Where a link points. When `path` is `None`, it points within the current document.
#[derive(Debug, Clone, PartialEq, Eq, Hash)]
pub struct LinkTarget {
    pub project: Option<Slug>,
    pub path: Option<DocPath>,
    pub anchor: Option<String>,
}

/// The mathematical content of a [`LinkTarget`].
pub struct LinkView {
    pub project: Option<Seq<char>>,
    pub path: Option<Seq<char>>,
    pub anchor: Option<Seq<char>>,
}

pub open spec fn opt_view_slug(o: Option<Slug>) -> Option<Seq<char>> {
    match o {
        Some(s) => Some(s@),
        None => None,
    }
}

pub open spec fn opt_view_path(o: Option<DocPath>) -> Option<Seq<char>> {
    match o {
        Some(p) => Some(p@),
        None => None,
    }
}

pub open spec fn opt_view_string(o: Option<String>) -> Option<Seq<char>> {
    match o {
        Some(s) => Some(s@),
        None => None,
    }
}

impl View for LinkTarget {
    type V = LinkView;

    open spec fn view(&self) -> LinkView {
        LinkView {
            project: opt_view_slug(self.project),
            path: opt_view_path(self.path),
            anchor: opt_view_string(self.anchor),
        }
    }
}

pub open spec fn opt_view_target(o: Option<LinkTarget>) -> Option<LinkView> {
    match o {
        Some(t) => Some(t@),
        None => None,
    }
}

/// The text form of a target: `[project:]path[#anchor]`.
pub open spec fn target_text(t: LinkView) -> Seq<char> {
    let p = match t.project {
        Some(s) => s + seq![':'],
        None => seq![],
    };
    let d = match t.path {
        Some(s) => s,
        None => seq![],
    };
    let a = match t.anchor {
        Some(s) => seq!['#'] + s,
        None => seq![],
    };
    p + d + a
}

impl LinkTarget {
    /// A copy of this target.
    pub fn duplicate(&self) -> (t: LinkTarget)
        ensures
            t@ == self@,
    {
        LinkTarget {
            project: match &self.project {
                Some(p) => Some(p.duplicate()),
                None => None,
            },
            path: match &self.path {
                Some(p) => Some(p.duplicate()),
                None => None,
            },
            anchor: match &self.anchor {
                Some(a) => Some(String::from_str(a.as_str())),
                None => None,
            },
        }
    }

    /// Whether both targets name the same project, path and anchor.
    pub fn same(&self, other: &LinkTarget) -> (b: bool)
        ensures
            b == (self@ == other@),
    {
        let p = match (&self.project, &other.project) {
            (Some(a), Some(b)) => str_eq(a.as_str(), b.as_str()),
            (None, None) => true,
            _ => false,
        };
        let d = match (&self.path, &other.path) {
            (Some(a), Some(b)) => str_eq(a.as_str(), b.as_str()),
            (None, None) => true,
            _ => false,
        };
        let a = match (&self.anchor, &other.anchor) {
            (Some(a), Some(b)) => str_eq(a.as_str(), b.as_str()),
            (None, None) => true,
            _ => false,
        };
        p && d && a
    }

    /// The text form, `[project:]path[#anchor]`.
    pub fn to_string(&self) -> (s: String)
        ensures
            s@ == target_text(self@),
    {
        let mut out = String::new();
        if let Some(p) = &self.project {
            out.append(p.as_str());
            out.append(":");
        }
        if let Some(p) = &self.path {
            out.append(p.as_str());
        }
        if let Some(a) = &self.anchor {
            out.append("#");
            out.append(a.as_str());
        }
        proof {
            reveal_strlit(":");
            reveal_strlit("#");
        }
        assert(out@ =~= target_text(self@));
        out
    }
}

/// `str::split_once(c)`: the text before and after the first `c`.
pub open spec fn split_once(s: Seq<char>, c: char) -> Option<(Seq<char>, Seq<char>)> {
    let i = find(s, c);
    if i < 0 {
        None
    } else {
        Some((s.take(i), s.skip(i + 1)))
    }
}

/// Splits `[path][#anchor]`. An empty anchor counts as none.
pub open spec fn split_anchor(s: Seq<char>) -> (Seq<char>, Option<Seq<char>>) {
    match split_once(s, '#') {
        Some((p, a)) => if a.len() > 0 {
            (p, Some(a))
        } else {
            (p, None)
        },
        None => (s, None),
    }
}

pub(crate) fn split_once_chars(v: &[char], c: char) -> (r: Option<(Vec<char>, Vec<char>)>)
    ensures
        match r {
            Some((a, b)) => split_once(v@, c) == Some((a@, b@)),
            None => split_once(v@, c) is None,
        },
{
    assert(v@.skip(0) =~= v@);
    match find_from(v, c, 0) {
        Some(k) => {
            let a = copy_range(v, 0, k);
            let n = v.len();
            let b = copy_range(v, k + 1, n);
            assert(a@ =~= v@.take(k as int));
            assert(b@ =~= v@.skip(k + 1));
            Some((a, b))
        },
        None => None,
    }
}

fn split_anchor_chars(v: &[char]) -> (r: (Vec<char>, Option<Vec<char>>))
    ensures
        split_anchor(v@) == (r.0@, match r.1 {
            Some(a) => Some(a@),
            None => None::<Seq<char>>,
        }),
{
    match split_once_chars(v, '#') {
        Some((p, a)) => {
            if a.len() > 0 {
                (p, Some(a))
            } else {
                (p, None)
            }
        },
        None => (copy_range(v, 0, v.len()), None),
    }
}

/// What [`parse_wiki_target`] makes of `raw`.
pub open spec fn wiki_target(raw: Seq<char>) -> Option<LinkView> {
    let t = trim(raw, None);
    let (project, rest, ok) = match split_once(t, ':') {
        Some((p, r)) => (Some(p), r, valid_slug(p)),
        None => (None::<Seq<char>>, t, true),
    };
    let (path, anchor) = split_anchor(rest);
    if !ok {
        None
    } else if path.len() > 0 && parse_path(path) is Err {
        None
    } else {
        let path_v = if path.len() == 0 {
            None
        } else {
            Some(parse_path(path)->Ok_0)
        };
        if path_v is None && (project is Some || anchor is None) {
            None
        } else {
            Some(LinkView { project, path: path_v, anchor })
        }
    }
}

proof fn lemma_trim_end_last(s: Seq<char>)
    ensures
        trim_end(s, None).len() > 0 ==> !is_ws(trim_end(s, None).last()),
    decreases s.len(),
{
    if s.len() > 0 && is_ws(s.last()) {
        lemma_trim_end_last(s.drop_last());
    }
}

/// A path that parses is a valid path.
proof fn lemma_parsed_valid(raw: Seq<char>)
    requires
        parse_path(raw) is Ok,
    ensures
        valid_path(parse_path(raw)->Ok_0),
{
}

/// What a parsed wiki target is, and that it prints back to itself: it names a
/// path or an anchor; a project only with a path; an anchor is never empty; and,
/// unless its path ends in `.md` (parsing drops that suffix), its text parses back
/// to the same target.
pub proof fn lemma_wiki_target_round_trip(raw: Seq<char>)
    requires
        wiki_target(raw) is Some,
    ensures
        ({
            let t = wiki_target(raw)->Some_0;
            &&& (t.path is Some || t.anchor is Some)
            &&& (t.project is Some ==> t.path is Some)
            &&& (t.anchor matches Some(a) ==> a.len() > 0)
            &&& ((t.path matches Some(p) ==> !ends_with(p, md_suffix())) ==> wiki_target(target_text(t)) == Some(t))
        }),
{
    let tt = trim(raw, None);
    let t = wiki_target(raw)->Some_0;
    lemma_find(tt, ':');
    let sp = split_once(tt, ':');
    let rest = match sp {
        Some((p, r)) => r,
        None => tt,
    };
    let k = find(tt, ':');
    assert(rest == tt.skip(k + 1) || (k == -1 && rest == tt));
    lemma_find(rest, '#');
    let j = find(rest, '#');
    let path = if j < 0 {
        rest
    } else {
        rest.take(j)
    };
    if (t.path matches Some(p) ==> !ends_with(p, md_suffix())) {
        let pj = match t.project {
            Some(s) => s + seq![':'],
            None => seq![],
        };
        let d = match t.path {
            Some(s) => s,
            None => seq![],
        };
        let an = match t.anchor {
            Some(a) => seq!['#'] + a,
            None => seq![],
        };
        let x = target_text(t);
        assert(x == pj + d + an);
        // The path's characters.
        if t.path is Some {
            lemma_parsed_valid(path);
            crate::path::lemma_valid_segments(d);
            crate::path::lemma_path_reparses(d);
        }
        assert forall|i: int| 0 <= i < d.len() implies d[i] != ':' && d[i] != '#' && !is_ws(#[trigger] d[i]) by {
            assert(d[i] == '/' || crate::path::is_segment_char(d[i]));
        }
        // The anchor is the end of the trimmed text.
        if t.anchor is Some {
            let a = t.anchor->Some_0;
            assert(j >= 0);
            assert(a == rest.skip(j + 1));
            lemma_trim_end_last(crate::text::trim_start(raw, None));
            assert(a.last() == tt.last());
            if t.project is None {
                assert(k == -1);
                assert forall|i: int| 0 <= i < a.len() implies #[trigger] a[i] != ':' by {
                    assert(a[i] == tt[j + 1 + i]);
                }
            }
        }
        // Whitespace never stands at either end.
        assert(x.len() > 0);
        if t.project is Some {
            assert(x[0] == t.project->Some_0[0]);
        } else if t.path is Some {
            assert(x[0] == d[0]);
        } else {
            assert(x[0] == '#');
        }
        if t.anchor is Some {
            assert(x.last() == t.anchor->Some_0.last());
        } else {
            assert(x.last() == d.last());
        }
        crate::path::lemma_trim_edges(x, None);
        // The project, if any, ends at the first `:`.
        let rest2 = d + an;
        match t.project {
            Some(s) => {
                assert forall|i: int| 0 <= i < s.len() implies #[trigger] x[i] != ':' by {
                    assert(x[i] == s[i]);
                    assert(crate::path::is_slug_char(s[i]));
                }
                assert(x[s.len() as int] == ':');
                lemma_find_unique(x, ':', s.len() as int);
                assert(x.take(s.len() as int) =~= s);
                assert(x.skip(s.len() as int + 1) =~= rest2);
            },
            None => {
                assert forall|i: int| 0 <= i < x.len() implies #[trigger] x[i] != ':' by {
                    assert(x == d + an);
                    if i < d.len() {
                        assert(x[i] == d[i]);
                    } else if i > d.len() {
                        assert(x[i] == t.anchor->Some_0[i - d.len() - 1]);
                    }
                }
                lemma_find_unique(x, ':', -1);
                assert(x =~= rest2);
            },
        }
        // The anchor, if any, starts after the first `#`.
        match t.anchor {
            Some(a) => {
                assert(rest2[d.len() as int] == '#');
                assert forall|i: int| 0 <= i < d.len() implies #[trigger] rest2[i] != '#' by {
                    assert(rest2[i] == d[i]);
                }
                lemma_find_unique(rest2, '#', d.len() as int);
                assert(rest2.take(d.len() as int) =~= d);
                assert(rest2.skip(d.len() as int + 1) =~= a);
            },
            None => {
                assert forall|i: int| 0 <= i < rest2.len() implies #[trigger] rest2[i] != '#' by {
                    assert(rest2[i] == d[i]);
                }
                lemma_find_unique(rest2, '#', -1);
                assert(rest2 =~= d);
            },
        }
    }
}

/// Parses a wiki-link or include target: `[project:]path[#anchor]`.
pub fn parse_wiki_target(raw: &str) -> (r: Option<LinkTarget>)
    ensures
        opt_view_target(r) == wiki_target(raw@),
{
    let v = chars_of(raw);
    parse_wiki_chars(&v)
}

fn parse_wiki_chars(raw: &[char]) -> (r: Option<LinkTarget>)
    ensures
        opt_view_target(r) == wiki_target(raw@),
{
    let tv = trim_pat(raw, None);
    let t = tv.as_slice();
    let (project, rest) = match split_once_chars(t, ':') {
        Some((p, r)) => {
            match Slug::parse(&string_of(&p)) {
                Ok(s) => (Some(s), r),
                Err(_) => return None,
            }
        },
        None => (None, copy_range(t, 0, t.len())),
    };
    let (path, anchor) = split_anchor_chars(&rest);
    proof {
        let tt = trim(raw@, None);
        assert(tt == t@);
        match split_once(tt, ':') {
            Some((p, r)) => {
                assert(valid_slug(p));
                assert(r == rest@);
            },
            None => {
                assert(rest@ == tt);
            },
        }
        assert(split_anchor(rest@).0 == path@);
    }
    let path = if path.len() == 0 {
        None
    } else {
        match DocPath::parse(&string_of(&path)) {
            Ok(p) => Some(p),
            Err(_) => return None,
        }
    };
    if path.is_none() && project.is_some() {
        return None;
    }
    if path.is_none() && anchor.is_none() {
        return None;
    }
    let anchor = match anchor {
        Some(a) => Some(string_of(&a)),
        None => None,
    };
    Some(LinkTarget { project, path, anchor })
}

} // verus!

verus! {

pub open spec fn is_scheme_char(c: char) -> bool {
    is_ascii_alnum(c) || c == '+' || c == '-' || c == '.'
}

/// Whether `url` starts with a URI scheme such as `https:` or `mailto:`.
pub open spec fn has_url_scheme(url: Seq<char>) -> bool {
    match split_once(url, ':') {
        Some((scheme, _)) => {
            &&& scheme.len() > 0
            &&& is_ascii_alpha(scheme[0])
            &&& forall|i: int| 0 <= i < scheme.len() ==> is_scheme_char(#[trigger] scheme[i])
        },
        None => false,
    }
}

#[verifier::loop_isolation(false)]
fn has_scheme(url: &[char]) -> (b: bool)
    ensures
        b == has_url_scheme(url@),
{
    match split_once_chars(url, ':') {
        None => false,
        Some((scheme, _)) => {
            let n = scheme.len();
            if n == 0 {
                return false;
            }
            let c0 = scheme[0];
            if !(('a' <= c0 && c0 <= 'z') || ('A' <= c0 && c0 <= 'Z')) {
                return false;
            }
            let mut i: usize = 0;
            while i < n
                invariant
                    0 <= i <= n,
                    n == scheme@.len(),
                    forall|k: int| 0 <= k < i ==> is_scheme_char(#[trigger] scheme@[k]),
                decreases n - i,
            {
                let c = scheme[i];
                if !(crate::text::ascii_alnum(c) || c == '+' || c == '-' || c == '.') {
                    assert(!is_scheme_char(scheme@[i as int]));
                    return false;
                }
                i += 1;
            }
            true
        },
    }
}

/// The part of `u` before the first `?`.
pub open spec fn before_query(u: Seq<char>) -> Seq<char> {
    let i = find(u, '?');
    if i < 0 {
        u
    } else {
        u.take(i)
    }
}

/// What [`parse_markdown_link`] makes of `url` in the document `base`.
pub open spec fn markdown_link(url: Seq<char>, base: Option<Seq<char>>) -> Option<LinkView> {
    let u = trim(url, None);
    if u.len() == 0 || starts_with(u, seq!['/', '/']) || has_url_scheme(u) {
        None
    } else {
        let (path, anchor) = split_anchor(before_query(u));
        let resolved = match base {
            Some(b) => join_path(b, path),
            None => parse_path(path),
        };
        if path.len() > 0 && resolved is Err {
            None
        } else {
            let path_v = if path.len() == 0 {
                None
            } else {
                Some(resolved->Ok_0)
            };
            if path_v is None && anchor is None {
                None
            } else {
                Some(LinkView { project: None, path: path_v, anchor })
            }
        }
    }
}

/// A URL with a scheme (`https:`, `mailto:`) is external and is not tracked.
pub proof fn lemma_external_links_untracked(url: Seq<char>, base: Option<Seq<char>>)
    requires
        has_url_scheme(trim(url, None)),
    ensures
        markdown_link(url, base) is None,
{
}

/// Parses a Markdown link URL. Returns `None` for external or unparseable URLs.
/// `base` is the linking document, used to resolve relative paths.
pub fn parse_markdown_link(url: &str, base: Option<&DocPath>) -> (r: Option<LinkTarget>)
    ensures
        opt_view_target(r) == markdown_link(url@, match base {
            Some(b) => Some(b@),
            None => None,
        }),
{
    let u = trim_pat(&chars_of(url), None);
    let slashes = ['/', '/'];
    assert(slashes@ =~= seq!['/', '/']);
    if u.len() == 0 || has_prefix(&u, &slashes) || has_scheme(&u) {
        return None;
    }
    let uq = match find_from(&u, '?', 0) {
        Some(k) => copy_range(&u, 0, k),
        None => copy_range(&u, 0, u.len()),
    };
    proof {
        assert(u@.skip(0) =~= u@);
        assert(uq@ == before_query(u@));
    }
    let (path, anchor) = split_anchor_chars(&uq);
    let path = if path.len() == 0 {
        None
    } else {
        let ps = string_of(&path);
        let r = match base {
            Some(b) => b.join(ps.as_str()),
            None => DocPath::parse(ps.as_str()),
        };
        match r {
            Ok(p) => Some(p),
            Err(_) => return None,
        }
    };
    if path.is_none() && anchor.is_none() {
        return None;
    }
    let anchor = match anchor {
        Some(a) => Some(string_of(&a)),
        None => None,
    };
    Some(LinkTarget { project: None, path, anchor })
}

/// `str::replace("\\#", "#")`: every escaped `#` unescaped.
pub open spec fn unescape_hash(s: Seq<char>) -> Seq<char>
    decreases s.len(),
{
    if s.len() == 0 {
        seq![]
    } else if s.len() >= 2 && s[0] == '\\' && s[1] == '#' {
        seq!['#'] + unescape_hash(s.skip(2))
    } else {
        seq![s[0]] + unescape_hash(s.drop_first())
    }
}

fn unescape_hash_chars(v: &[char]) -> (r: Vec<char>)
    ensures
        r@ == unescape_hash(v@),
{
    let mut out: Vec<char> = Vec::new();
    let mut i: usize = 0;
    let n = v.len();
    assert(v@.skip(0) =~= v@);
    while i < n
        invariant
            0 <= i <= n,
            n == v@.len(),
            out@ + unescape_hash(v@.skip(i as int)) == unescape_hash(v@),
        decreases n - i,
    {
        let ghost rest = v@.skip(i as int);
        let ghost prev = out@;
        if i + 1 < n && v[i] == '\\' && v[i + 1] == '#' {
            out.push('#');
            assert(rest.skip(2) =~= v@.skip(i + 2));
            assert(out@ + unescape_hash(v@.skip(i + 2)) =~= prev + unescape_hash(rest));
            i += 2;
        } else {
            out.push(v[i]);
            assert(rest.drop_first() =~= v@.skip(i + 1));
            assert(out@ + unescape_hash(v@.skip(i + 1)) =~= prev + unescape_hash(rest));
            i += 1;
        }
    }
    assert(v@.skip(i as int) =~= Seq::<char>::empty());
    assert(out@ + unescape_hash(v@.skip(i as int)) =~= out@);
    out
}

pub open spec fn open_braces() -> Seq<char> {
    seq!['{', '{']
}

pub open spec fn close_braces() -> Seq<char> {
    seq!['}', '}']
}

pub open spec fn include_word() -> Seq<char> {
    seq!['i', 'n', 'c', 'l', 'u', 'd', 'e']
}

/// What [`parse_include`] makes of `line`.
pub open spec fn include_target(line: Seq<char>) -> Option<LinkView> {
    let t = trim(line, None);
    if !starts_with(t, open_braces()) || !ends_with(t.skip(2), close_braces()) {
        None
    } else {
        let s = t.skip(2);
        let inner = trim(s.take(s.len() - 2), None);
        if !starts_with(inner, include_word()) {
            None
        } else {
            let target = inner.skip(7);
            if target.len() == 0 || !is_ws(target[0]) {
                None
            } else {
                match wiki_target(unescape_hash(target)) {
                    Some(lv) => if lv.path is Some {
                        Some(lv)
                    } else {
                        None
                    },
                    None => None,
                }
            }
        }
    }
}

/// Parses a `{{include target}}` directive. Returns `None` if `line` isn't one.
pub fn parse_include(line: &str) -> (r: Option<LinkTarget>)
    ensures
        opt_view_target(r) == include_target(line@),
{
    let t = trim_pat(&chars_of(line), None);
    let ob = ['{', '{'];
    let cb = ['}', '}'];
    assert(ob@ =~= open_braces());
    assert(cb@ =~= close_braces());
    if !has_prefix(&t, &ob) {
        return None;
    }
    let s = copy_range(&t, 2, t.len());
    assert(s@ =~= t@.skip(2));
    if !has_suffix(&s, &cb) {
        return None;
    }
    let inner = trim_pat(&copy_range(&s, 0, s.len() - 2), None);
    let word = ['i', 'n', 'c', 'l', 'u', 'd', 'e'];
    assert(word@ =~= include_word());
    if !has_prefix(&inner, &word) {
        return None;
    }
    let target = copy_range(&inner, 7, inner.len());
    assert(target@ =~= inner@.skip(7));
    if target.len() == 0 || !is_whitespace(target[0]) {
        return None;
    }
    let un = unescape_hash_chars(&target);
    match parse_wiki_chars(&un) {
        Some(lt) => {
            if lt.path.is_some() {
                Some(lt)
            } else {
                None
            }
        },
        None => None,
    }
}

} // verus!
