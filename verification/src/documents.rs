//! Document writes and project trees.

use vstd::prelude::*;

use crate::ctx::Author;
use crate::error::AppError;
use crate::hash::{merkle_root, Merkle};
use crate::ids::DocumentId;
use crate::links::{LinkTarget, LinkView};
use crate::markdown::{analysis_of, analyze, link_views, Analysis};
use crate::path::{valid_slug, DocPath, Slug};
use crate::sync::{variant_text, Variant};
use crate::text::{
    chars_of, decimal, decimal_string, lemma_seq_lt_irreflexive, lemma_sorted_insert, seq_lt, sorted_slot, string_of,
    strictly_sorted, utf8_len, views,
};
use vstd::utf8::encode_utf8;

verus! {

/// Precondition on the current head, for optimistic concurrency (`If-Match`).
#[derive(Debug, Clone, Copy, PartialEq, Eq)]
pub enum Expect {
    Any,
    /// The variant must not have a head yet.
    Absent,
    /// The head's content hash must equal this.
    Head(crate::hash::Hash),
}

/// A revision to store.
pub struct NewRevision<'a> {
    pub document: DocumentId,
    pub variant: Variant,
    pub content: &'a str,
    /// Result of [`crate::markdown::analyze`] on `content`.
    pub analysis: &'a Analysis,
    pub author: Author,
    pub message: Option<&'a str>,
    pub expect: Expect,
}

/// A request to write one variant of a document.
pub struct PutDoc<'a> {
    pub project: &'a str,
    pub path: &'a DocPath,
    pub variant: Variant,
    pub content: &'a str,
    pub expect: Expect,
    pub message: Option<&'a str>,
    /// Anchors to mark in sync after the write (see [`crate::status`]).
    pub resolves: &'a [String],
}

/// The message for a document over `max` bytes.
pub open spec fn too_large_text(max: usize) -> Seq<char> {
    "document exceeds "@ + decimal(max as nat) + " bytes"@
}

/// Refuses content longer than `max` UTF-8 bytes.
pub fn check_doc_size(max: usize, content: &str) -> (r: Result<(), AppError>)
    ensures
        r is Ok <==> encode_utf8(content@).len() <= max,
        r is Err ==> (r->Err_0 is Invalid && r->Err_0->Invalid_0@ == too_large_text(max)),
{
    if utf8_len(&crate::text::chars_of(content)) > max as u128 {
        let mut msg = String::from_str("document exceeds ");
        msg.append(decimal_string(max as u64).as_str());
        msg.append(" bytes");
        return Err(AppError::Invalid(msg));
    }
    Ok(())
}

/// The key under which an include's source is fetched: `project:path`, each part
/// empty when absent.
pub open spec fn include_key_text(t: LinkView) -> Seq<char> {
    (match t.project {
        Some(p) => p,
        None => seq![],
    }) + seq![':'] + (match t.path {
        Some(p) => p,
        None => seq![],
    })
}

pub fn include_key(t: &LinkTarget) -> (k: String)
    ensures
        k@ == include_key_text(t@),
{
    let mut k = match &t.project {
        Some(p) => String::from_str(p.as_str()),
        None => String::new(),
    };
    k.append(":");
    match &t.path {
        Some(p) => k.append(p.as_str()),
        None => {},
    }
    proof {
        reveal_strlit(":");
    }
    assert(k@ =~= include_key_text(t@));
    k
}

/// The Merkle key of one variant of a document in a project tree: `path@variant`.
pub open spec fn tree_key(path: Seq<char>, v: Variant) -> Seq<char> {
    path + seq!['@'] + variant_text(v)
}

/// The Merkle entries of a project tree: every written variant of every document,
/// human before AI, in entry order.
pub open spec fn tree_entries(entries: Seq<(Seq<char>, Option<crate::hash::Hash>, Option<crate::hash::Hash>)>) -> Map<
    Seq<char>,
    crate::hash::Hash,
>
    decreases entries.len(),
{
    if entries.len() == 0 {
        Map::empty()
    } else {
        let (path, human, ai) = entries.last();
        let m = tree_entries(entries.drop_last());
        let m = match human {
            Some(h) => m.insert(tree_key(path, Variant::Human), h),
            None => m,
        };
        match ai {
            Some(h) => m.insert(tree_key(path, Variant::Ai), h),
            None => m,
        }
    }
}

pub open spec fn tree_views(v: Seq<(&str, Option<crate::hash::Hash>, Option<crate::hash::Hash>)>) -> Seq<
    (Seq<char>, Option<crate::hash::Hash>, Option<crate::hash::Hash>),
> {
    Seq::new(v.len(), |i: int| (v[i].0@, v[i].1, v[i].2))
}

fn tree_key_string(path: &str, v: Variant) -> (k: String)
    ensures
        k@ == tree_key(path@, v),
{
    let mut k = String::from_str(path);
    k.append("@");
    k.append(v.as_str());
    proof {
        reveal_strlit("@");
    }
    assert(k@ =~= tree_key(path@, v));
    k
}

/// Merkle root over `path@variant → content hash` of every document of a tree,
/// given as `(path, human head hash, AI head hash)`.
pub fn tree_root(entries: &[(&str, Option<crate::hash::Hash>, Option<crate::hash::Hash>)]) -> (h: crate::hash::Hash)
    ensures
        h@ == merkle_root(tree_entries(tree_views(entries@))),
{
    let ghost tv = tree_views(entries@);
    let mut m = Merkle::new();
    let mut i: usize = 0;
    assert(tv.take(0) =~= Seq::<(Seq<char>, Option<crate::hash::Hash>, Option<crate::hash::Hash>)>::empty());
    while i < entries.len()
        invariant
            0 <= i <= entries@.len(),
            tv == tree_views(entries@),
            m@ == tree_entries(tv.take(i as int)),
        decreases entries@.len() - i,
    {
        let (path, human, ai) = entries[i];
        assert(tv.take(i + 1).drop_last() =~= tv.take(i as int));
        assert(tv.take(i + 1).last() == (path@, human, ai));
        match human {
            Some(h) => m.insert(tree_key_string(path, Variant::Human), h),
            None => {},
        }
        match ai {
            Some(h) => m.insert(tree_key_string(path, Variant::Ai), h),
            None => {},
        }
        i += 1;
    }
    assert(tv.take(i as int) =~= tv);
    m.finish()
}


/// Whether `expect` holds of a head whose content hash is `current` (`None`: no
/// head yet).
pub open spec fn expect_holds(expect: Expect, current: Option<crate::hash::Hash>) -> bool {
    match expect {
        Expect::Any => true,
        Expect::Absent => current is None,
        Expect::Head(h) => current == Some(h),
    }
}

/// Decides a revision write against the current head's content hash: refused with
/// that hash when `expect` fails; `Ok(false)` when the content equals the head's, so
/// nothing is written; otherwise `Ok(true)`, a new revision that becomes the head.
pub fn write_decision(expect: Expect, current: Option<crate::hash::Hash>, content_hash: crate::hash::Hash) -> (r: Result<
    bool,
    AppError,
>)
    ensures
        match r {
            Ok(create) => expect_holds(expect, current) && create == (current != Some(content_hash)),
            Err(e) => !expect_holds(expect, current) && e == AppError::PreconditionFailed { current },
        },
{
    let ok = match expect {
        Expect::Any => true,
        Expect::Absent => current.is_none(),
        Expect::Head(h) => match current {
            Some(c) => c == h,
            None => false,
        },
    };
    if !ok {
        return Err(AppError::PreconditionFailed { current });
    }
    match current {
        Some(c) => Ok(!(c == content_hash)),
        None => Ok(true),
    }
}

/// The precondition of a write to a path the project does not own yet, which
/// creates the document there (an override, when the path is inherited). An
/// `Expect::Head` must match the content hash of the inherited head (`None` when
/// nothing is inherited); the write itself then expects no head.
pub fn override_expect(expect: Expect, inherited: Option<crate::hash::Hash>) -> (r: Result<Expect, AppError>)
    ensures
        match r {
            Ok(e) => e == Expect::Absent && (expect matches Expect::Head(h) ==> inherited == Some(h)),
            Err(e) => expect matches Expect::Head(h) && inherited != Some(h) && e == AppError::PreconditionFailed {
                current: None,
            },
        },
{
    if let Expect::Head(h) = expect {
        let same = match inherited {
            Some(i) => i == h,
            None => false,
        };
        if !same {
            return Err(AppError::PreconditionFailed { current: None });
        }
    }
    Ok(Expect::Absent)
}

/// `c`, or a space where `c` separates words of a path (`/`, `-`, `_`).
pub open spec fn path_word_char(c: char) -> char {
    if c == '/' || c == '-' || c == '_' {
        ' '
    } else {
        c
    }
}

/// The text a head is found by: the document title (empty without one), a space,
/// and the path with `/`, `-` and `_` read as spaces.
pub open spec fn search_title_of(title: Option<Seq<char>>, path: Seq<char>) -> Seq<char> {
    let t = match title {
        Some(t) => t,
        None => Seq::empty(),
    };
    t + seq![' '] + path.map_values(|c: char| path_word_char(c))
}

/// The text a head is found by; see [`search_title_of`].
pub fn search_title(title: Option<&str>, path: &str) -> (r: String)
    ensures
        r@ == search_title_of(
            match title {
                Some(t) => Some(t@),
                None => None,
            },
            path@,
        ),
{
    let mut out: Vec<char> = match title {
        Some(t) => chars_of(t),
        None => Vec::new(),
    };
    out.push(' ');
    let ghost head = out@;
    let p = chars_of(path);
    let mut i: usize = 0;
    while i < p.len()
        invariant
            0 <= i <= p@.len(),
            p@ == path@,
            out@ == head + p@.take(i as int).map_values(|c: char| path_word_char(c)),
        decreases p@.len() - i,
    {
        let c = p[i];
        let w = if c == '/' || c == '-' || c == '_' {
            ' '
        } else {
            c
        };
        out.push(w);
        proof {
            assert(p@.take(i + 1).map_values(|c: char| path_word_char(c)) =~= p@.take(i as int).map_values(
                |c: char| path_word_char(c),
            ).push(w));
        }
        i += 1;
    }
    proof {
        assert(p@.take(i as int) =~= p@);
    }
    string_of(&out)
}


/// The paths each project of a chain defines, child first, as character sequences.
pub open spec fn chain_view(chain: Seq<Vec<String>>) -> Seq<Seq<Seq<char>>> {
    Seq::new(chain.len(), |l: int| Seq::new(chain[l]@.len(), |i: int| chain[l]@[i]@))
}

/// Whether project `l` of the chain defines `p` as its `i`-th path.
pub open spec fn defines(c: Seq<Seq<Seq<char>>>, l: int, i: int, p: Seq<char>) -> bool {
    0 <= l < c.len() && 0 <= i < c[l].len() && c[l][i] == p
}

/// Whether position `(l1, i1)` comes before `(l2, i2)` along the chain.
pub open spec fn comes_before(l1: int, i1: int, l2: int, i2: int) -> bool {
    l1 < l2 || (l1 == l2 && i1 < i2)
}

/// The path at each picked position.
pub open spec fn picked_paths(c: Seq<Seq<Seq<char>>>, r: Seq<(usize, usize)>) -> Seq<Seq<char>> {
    Seq::new(r.len(), |k: int| c[r[k].0 as int][r[k].1 as int])
}

/// The effective documents along a project chain, child first: every path some
/// project defines, once, from the nearest project that defines it (the first
/// position along the chain), in path order. Each item is `(level, index)`: the
/// `index`-th path of project `level`.
pub fn effective_paths(chain: &[Vec<String>]) -> (r: Vec<(usize, usize)>)
    ensures
        forall|k: int|
            0 <= k < r@.len() ==> (#[trigger] r@[k]).0 < chain@.len() && r@[k].1 < chain@[r@[k].0 as int]@.len(),
        strictly_sorted(picked_paths(chain_view(chain@), r@)),
        forall|k: int, l: int, i: int|
            0 <= k < r@.len() && #[trigger] defines(chain_view(chain@), l, i, picked_paths(chain_view(chain@), r@)[k])
                ==> !comes_before(l, i, r@[k].0 as int, r@[k].1 as int),
        forall|l: int, i: int|
            0 <= l < chain@.len() && 0 <= i < chain@[l]@.len() ==> picked_paths(chain_view(chain@), r@).contains(
                #[trigger] chain_view(chain@)[l][i],
            ),
{
    let ghost c = chain_view(chain@);
    let mut keys: Vec<Vec<char>> = Vec::new();
    let mut out: Vec<(usize, usize)> = Vec::new();
    let mut l: usize = 0;
    while l < chain.len()
        invariant
            c == chain_view(chain@),
            0 <= l <= chain@.len(),
            keys@.len() == out@.len(),
            strictly_sorted(views(keys@)),
            views(keys@) == picked_paths(c, out@),
            forall|k: int|
                0 <= k < out@.len() ==> (#[trigger] out@[k]).0 < l && out@[k].1 < chain@[out@[k].0 as int]@.len(),
            forall|k: int, l2: int, i2: int|
                0 <= k < out@.len() && #[trigger] defines(c, l2, i2, views(keys@)[k]) ==> !comes_before(
                    l2,
                    i2,
                    out@[k].0 as int,
                    out@[k].1 as int,
                ),
            forall|l2: int, i2: int|
                0 <= l2 < l && 0 <= i2 < c[l2].len() ==> views(keys@).contains(#[trigger] c[l2][i2]),
        decreases chain@.len() - l,
    {
        let docs = &chain[l];
        let mut i: usize = 0;
        while i < docs.len()
            invariant
                c == chain_view(chain@),
                0 <= l < chain@.len(),
                *docs == chain@[l as int],
                0 <= i <= docs@.len(),
                keys@.len() == out@.len(),
                strictly_sorted(views(keys@)),
                views(keys@) == picked_paths(c, out@),
                forall|k: int|
                    0 <= k < out@.len() ==> comes_before(
                        (#[trigger] out@[k]).0 as int,
                        out@[k].1 as int,
                        l as int,
                        i as int,
                    ) && out@[k].0 < chain@.len() && out@[k].1 < chain@[out@[k].0 as int]@.len(),
                forall|k: int, l2: int, i2: int|
                    0 <= k < out@.len() && #[trigger] defines(c, l2, i2, views(keys@)[k]) ==> !comes_before(
                        l2,
                        i2,
                        out@[k].0 as int,
                        out@[k].1 as int,
                    ),
                forall|l2: int, i2: int|
                    0 <= l2 < c.len() && 0 <= i2 < c[l2].len() && comes_before(l2, i2, l as int, i as int)
                        ==> views(keys@).contains(#[trigger] c[l2][i2]),
            decreases docs@.len() - i,
        {
            let x = chars_of(docs[i].as_str());
            let (pos, found) = sorted_slot(&keys, &x);
            let ghost old_keys = views(keys@);
            let ghost old_out = out@;
            proof {
                assert(c[l as int][i as int] == x@);
            }
            if !found {
                proof {
                    if old_keys.contains(x@) {
                        let k = choose|k: int| 0 <= k < old_keys.len() && old_keys[k] == x@;
                        if k < pos {
                            lemma_seq_lt_irreflexive(x@);
                        } else if k > pos {
                            assert(seq_lt(old_keys[pos as int], old_keys[k]));
                        }
                    }
                    lemma_sorted_insert(old_keys, pos as int, x@);
                }
                let ghost xv = x@;
                keys.insert(pos, x);
                out.insert(pos, (l, i));
                proof {
                    let nk = views(keys@);
                    assert(nk =~= old_keys.insert(pos as int, xv));
                    assert(picked_paths(c, out@) =~= picked_paths(c, old_out).insert(pos as int, xv));
                    assert forall|k: int, l2: int, i2: int|
                        0 <= k < out@.len() && #[trigger] defines(c, l2, i2, nk[k]) implies !comes_before(
                            l2,
                            i2,
                            out@[k].0 as int,
                            out@[k].1 as int,
                        ) by {
                        if k < pos {
                            assert(nk[k] == old_keys[k] && out@[k] == old_out[k]);
                        } else if k > pos {
                            assert(nk[k] == old_keys[k - 1] && out@[k] == old_out[k - 1]);
                        } else {
                            if comes_before(l2, i2, l as int, i as int) {
                                assert(old_keys.contains(c[l2][i2]));
                            }
                        }
                    }
                    assert forall|k: int| 0 <= k < out@.len() implies comes_before(
                        (#[trigger] out@[k]).0 as int,
                        out@[k].1 as int,
                        l as int,
                        i + 1,
                    ) && out@[k].0 < chain@.len() && out@[k].1 < chain@[out@[k].0 as int]@.len() by {
                        if k < pos {
                            assert(out@[k] == old_out[k]);
                        } else if k > pos {
                            assert(out@[k] == old_out[k - 1]);
                        }
                    }
                    assert forall|l2: int, i2: int|
                        0 <= l2 < c.len() && 0 <= i2 < c[l2].len() && comes_before(l2, i2, l as int, i + 1)
                            implies nk.contains(#[trigger] c[l2][i2]) by {
                        if comes_before(l2, i2, l as int, i as int) {
                            assert(old_keys.contains(c[l2][i2]));
                        }
                    }
                }
            } else {
                proof {
                    assert(old_keys[pos as int] == x@);
                    assert forall|l2: int, i2: int|
                        0 <= l2 < c.len() && 0 <= i2 < c[l2].len() && comes_before(l2, i2, l as int, i + 1)
                            implies old_keys.contains(#[trigger] c[l2][i2]) by {
                        if !comes_before(l2, i2, l as int, i as int) {
                            assert(c[l2][i2] == old_keys[pos as int]);
                        }
                    }
                }
            }
            i += 1;
        }
        proof {
            assert(c[l as int].len() == docs@.len());
        }
        l += 1;
    }
    out
}


/// A document as a project's tree lists it.
#[derive(Debug, Clone, PartialEq, Eq)]
pub struct TreeEntry {
    pub path: String,
    pub title: Option<String>,
    /// Slug of the project that owns the document.
    pub owner: String,
    pub inherited: bool,
    pub sync_enabled: bool,
    pub human: Option<crate::hash::Hash>,
    pub ai: Option<crate::hash::Hash>,
    /// When the document last changed, in nanoseconds since the Unix epoch.
    pub updated_at: i128,
}

/// Which variants a document has, as the index names them.
pub open spec fn variants_label(human: bool, ai: bool) -> Seq<char> {
    if human && ai {
        "human, ai"@
    } else if ai {
        "ai"@
    } else {
        "human"@
    }
}

/// One line of a project index: the title (the path without one), the path, the
/// variants present, and the owner of an inherited document.
pub open spec fn index_line(e: TreeEntry) -> Seq<char> {
    let shown = match e.title {
        Some(t) => t@,
        None => e.path@,
    };
    let inherited = if e.inherited {
        "; inherited from "@ + e.owner@
    } else {
        Seq::empty()
    };
    "- "@ + shown + ": `"@ + e.path@ + "` ("@ + variants_label(e.human is Some, e.ai is Some) + inherited
        + ")\n"@
}

pub open spec fn index_lines(entries: Seq<TreeEntry>) -> Seq<char>
    decreases entries.len(),
{
    if entries.len() == 0 {
        Seq::empty()
    } else {
        index_lines(entries.drop_last()) + index_line(entries.last())
    }
}

/// The `llms.txt` index of a project: its name as a heading, then one line per
/// document.
pub open spec fn index_text(name: Seq<char>, entries: Seq<TreeEntry>) -> Seq<char> {
    "# "@ + name + "\n\n"@ + index_lines(entries)
}

fn index_entry_line(e: &TreeEntry) -> (s: String)
    ensures
        s@ == index_line(*e),
{
    let mut s = String::from_str("- ");
    match &e.title {
        Some(t) => s.append(t.as_str()),
        None => s.append(e.path.as_str()),
    }
    s.append(": `");
    s.append(e.path.as_str());
    s.append("` (");
    if e.human.is_some() && e.ai.is_some() {
        s.append("human, ai");
    } else if e.ai.is_some() {
        s.append("ai");
    } else {
        s.append("human");
    }
    if e.inherited {
        s.append("; inherited from ");
        s.append(e.owner.as_str());
    }
    s.append(")\n");
    s
}

/// The `llms.txt` index of a project; see [`index_text`].
pub fn project_index(name: &str, entries: &[TreeEntry]) -> (s: String)
    ensures
        s@ == index_text(name@, entries@),
{
    let mut s = String::from_str("# ");
    s.append(name);
    s.append("\n\n");
    let ghost head = s@;
    let mut i: usize = 0;
    while i < entries.len()
        invariant
            0 <= i <= entries@.len(),
            s@ == head + index_lines(entries@.take(i as int)),
            head == "# "@ + name@ + "\n\n"@,
        decreases entries@.len() - i,
    {
        let line = index_entry_line(&entries[i]);
        s.append(line.as_str());
        proof {
            assert(entries@.take(i + 1).drop_last() =~= entries@.take(i as int));
        }
        i += 1;
    }
    proof {
        assert(entries@.take(i as int) =~= entries@);
    }
    s
}


/// An include target with its project filled in from `context`, the slug of the
/// project whose text holds it, when the target names none (and `context` is a
/// valid slug).
pub open spec fn qualified_in(t: LinkView, context: Seq<char>) -> LinkView {
    if t.project is None {
        LinkView {
            project: if valid_slug(context) {
                Some(context)
            } else {
                None
            },
            path: t.path,
            anchor: t.anchor,
        }
    } else {
        t
    }
}

/// The qualified includes still to fetch, in order: those that name a project and a
/// path and whose key is not among `known`.
pub open spec fn include_requests_of(includes: Seq<LinkView>, context: Seq<char>, known: Seq<Seq<char>>) -> Seq<
    LinkView,
>
    decreases includes.len(),
{
    if includes.len() == 0 {
        seq![]
    } else {
        let r = include_requests_of(includes.drop_last(), context, known);
        let q = qualified_in(includes.last(), context);
        if !known.contains(include_key_text(q)) && q.project is Some && q.path is Some {
            r.push(q)
        } else {
            r
        }
    }
}

pub open spec fn string_views(v: Seq<String>) -> Seq<Seq<char>> {
    Seq::new(v.len(), |i: int| v[i]@)
}

fn string_in(v: &[String], s: &str) -> (b: bool)
    ensures
        b == string_views(v@).contains(s@),
{
    let mut i: usize = 0;
    while i < v.len()
        invariant
            0 <= i <= v@.len(),
            forall|k: int| 0 <= k < i ==> string_views(v@)[k] != s@,
        decreases v@.len() - i,
    {
        if crate::auth::str_eq(v[i].as_str(), s) {
            assert(string_views(v@)[i as int] == s@);
            return true;
        }
        i += 1;
    }
    false
}

/// The includes of `text` still to fetch: each target of a top-level
/// `{{include}}` directive, with the `context` project filled in when it names
/// none, that names a project and a path and whose [`include_key`] is not in
/// `known`; in document order.
pub fn include_requests(context: &str, text: &str, known: &[String]) -> (r: Vec<LinkTarget>)
    ensures
        link_views(r@) == include_requests_of(
            analysis_of(text@, None).includes,
            context@,
            string_views(known@),
        ),
{
    let a = analyze(text, None);
    let ghost incs = a@.includes;
    let ctx = Slug::parse(context);
    let mut out: Vec<LinkTarget> = Vec::new();
    let mut i: usize = 0;
    while i < a.includes.len()
        invariant
            0 <= i <= a.includes@.len(),
            incs == link_views(a.includes@),
            incs == analysis_of(text@, None).includes,
            match ctx {
                Ok(s) => valid_slug(context@) && s@ == context@,
                Err(_) => !valid_slug(context@),
            },
            link_views(out@) == include_requests_of(incs.take(i as int), context@, string_views(known@)),
        decreases a.includes@.len() - i,
    {
        let t = &a.includes[i];
        let q = LinkTarget {
            project: match &t.project {
                Some(p) => Some(p.duplicate()),
                None => match &ctx {
                    Ok(s) => Some(s.duplicate()),
                    Err(_) => None,
                },
            },
            path: match &t.path {
                Some(p) => Some(p.duplicate()),
                None => None,
            },
            anchor: t.anchor.clone(),
        };
        proof {
            assert(incs.take(i + 1).drop_last() =~= incs.take(i as int));
            assert(incs.take(i + 1).last() == t@);
            assert(q@ == qualified_in(t@, context@));
        }
        let key = include_key(&q);
        if !string_in(known, key.as_str()) && q.project.is_some() && q.path.is_some() {
            out.push(q);
            proof {
                assert(link_views(out@) =~= link_views(out@.drop_last()).push(out@.last()@));
            }
        }
        i += 1;
    }
    proof {
        assert(incs.take(i as int) =~= incs);
    }
    out
}

} // verus!
