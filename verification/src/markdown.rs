//! Markdown analysis on top of Comrak.
//!
//! Stored content is never rewritten. Normalization is used only for semantic hashes
//! (see [`crate::hash`]).
//!
//! A document splits into **sections** at every top-level heading, plus a preamble for
//! any text before the first heading. Each section has a stable **anchor**. It comes
//! from an explicit `{#id}` suffix on the heading when one is present, otherwise from
//! a slug of the heading text, de-duplicated within the document. Anchors pair a
//! document's human and AI sections for sync, and they're the `id`s in rendered HTML.
//!
//! Comrak parses; this module reads the parse as a flat list of [`MdNode`]s (every
//! node below the document root, in document order) and computes everything else.

use comrak::nodes::NodeValue;
use vstd::prelude::*;
use vstd::utf8::encode_utf8;

use crate::links::{
    include_target, markdown_link, opt_view_string, parse_include, parse_markdown_link, parse_wiki_target, wiki_target,
    LinkTarget, LinkView,
};
use crate::path::DocPath;
use crate::text::{
    decimal, lemma_decimal_injective, lemma_decimal_len, push_decimal, chars_of, contains_chars, copy_range, is_ascii_alnum, is_ascii_digit, is_ascii_lower, is_ascii_upper, is_whitespace, is_ws, lemma_push_to_set, lemma_views_push, string_of, trim,
    trim_end, trim_end_pat, trim_pat, views,
};

verus! {

/// The Comrak switches Solidate parses and renders with.
#[derive(Debug, Clone, Copy, PartialEq, Eq, Structural)]
pub struct MarkdownOptions {
    pub strikethrough: bool,
    pub table: bool,
    pub autolink: bool,
    pub tasklist: bool,
    pub footnotes: bool,
    pub alerts: bool,
    pub wikilinks_title_after_pipe: bool,
}

/// GFM plus wiki links, footnotes and alerts. Comrak's default, which never renders
/// raw HTML, is left in place.
pub open spec fn solidate_options() -> MarkdownOptions {
    MarkdownOptions {
        strikethrough: true,
        table: true,
        autolink: true,
        tasklist: true,
        footnotes: true,
        alerts: true,
        wikilinks_title_after_pipe: true,
    }
}

/// The options Solidate uses for parsing and rendering: GFM plus wiki links,
/// footnotes and alerts. Raw HTML is never rendered.
pub fn options() -> (o: MarkdownOptions)
    ensures
        o == solidate_options(),
{
    MarkdownOptions {
        strikethrough: true,
        table: true,
        autolink: true,
        tasklist: true,
        footnotes: true,
        alerts: true,
        wikilinks_title_after_pipe: true,
    }
}

/// Comrak's `Options`, carried through as an opaque value: nothing is claimed of it.
#[verifier::external_type_specification]
#[verifier::external_body]
pub struct ExComrakOptions<'c>(comrak::Options<'c>);

/// Comrak's own `Options` with the switches of `o` set and everything else at
/// Comrak's defaults (among them: raw HTML is not rendered). Nothing is stated of the value, which Verus cannot see into.
#[verifier::external_body]
fn comrak_options(o: &MarkdownOptions) -> comrak::Options<'static> {
    let mut c = comrak::Options::default();
    c.extension.strikethrough = o.strikethrough;
    c.extension.table = o.table;
    c.extension.autolink = o.autolink;
    c.extension.tasklist = o.tasklist;
    c.extension.footnotes = o.footnotes;
    c.extension.alerts = o.alerts;
    c.extension.wikilinks_title_after_pipe = o.wikilinks_title_after_pipe;
    c
}

/// What the analysis reads of a node's kind.
#[derive(Debug, Clone)]
pub enum NodeKind {
    /// A heading, with its level from 1 to 6.
    Heading(u8),
    Paragraph,
    /// A Markdown link, with its URL.
    Link(String),
    /// A wiki link, with its target as written.
    WikiLink(String),
    Other,
}

pub enum NodeKindView {
    Heading(u8),
    Paragraph,
    Link(Seq<char>),
    WikiLink(Seq<char>),
    Other,
}

impl View for NodeKind {
    type V = NodeKindView;

    open spec fn view(&self) -> NodeKindView {
        match self {
            NodeKind::Heading(l) => NodeKindView::Heading(*l),
            NodeKind::Paragraph => NodeKindView::Paragraph,
            NodeKind::Link(u) => NodeKindView::Link(u@),
            NodeKind::WikiLink(u) => NodeKindView::WikiLink(u@),
            NodeKind::Other => NodeKindView::Other,
        }
    }
}

/// One node of a parsed document, as plain values.
#[derive(Debug, Clone)]
pub struct MdNode {
    pub kind: NodeKind,
    /// The node's text: the literal text, code and math below it, with a space for
    /// each line break.
    pub text: String,
    /// Whether the node is a direct child of the document root.
    pub top_level: bool,
    /// The 1-based source lines the node starts and ends on.
    pub first_line: usize,
    pub last_line: usize,
}

pub struct MdNodeView {
    pub kind: NodeKindView,
    pub text: Seq<char>,
    pub top_level: bool,
    pub first_line: usize,
    pub last_line: usize,
}

impl View for MdNode {
    type V = MdNodeView;

    open spec fn view(&self) -> MdNodeView {
        MdNodeView {
            kind: self.kind@,
            text: self.text@,
            top_level: self.top_level,
            first_line: self.first_line,
            last_line: self.last_line,
        }
    }
}

pub open spec fn node_views(v: Seq<MdNode>) -> Seq<MdNodeView> {
    Seq::new(v.len(), |i: int| v[i]@)
}

/// The nodes Comrak parses from `md` under `options`: every node below the
/// document root, in document order.
pub uninterp spec fn comrak_nodes(md: Seq<char>, options: MarkdownOptions) -> Seq<MdNodeView>;

/// Calls `comrak::parse_document` and walks the tree with `descendants`, skipping the
/// root. The contract names the result; nothing more is claimed of Comrak's parse.
#[verifier::external_body]
fn parse_nodes(md: &str, o: &MarkdownOptions) -> (r: Vec<MdNode>)
    ensures
        node_views(r@) == comrak_nodes(md@, *o),
{
    let arena = comrak::Arena::new();
    let root = comrak::parse_document(&arena, md, &comrak_options(o));
    root.descendants().skip(1).map(|n| MdNode {
        kind: match &n.data().value {
            NodeValue::Heading(h) => NodeKind::Heading(h.level), NodeValue::Paragraph => NodeKind::Paragraph,
            NodeValue::Link(l) => NodeKind::Link(l.url.clone()), NodeValue::WikiLink(w) => NodeKind::WikiLink(w.url.clone()),
            _ => NodeKind::Other,
        },
        text: n.collect_text(), top_level: n.ancestors().count() == 2,
        first_line: n.data().sourcepos.start.line, last_line: n.data().sourcepos.end.line,
    }).collect()
}

/// Comrak's CommonMark rendering of `md` under `options`.
pub uninterp spec fn comrak_commonmark(md: Seq<char>, options: MarkdownOptions) -> Seq<char>;

/// Calls `comrak::markdown_to_commonmark`; the contract names the result.
#[verifier::external_body]
fn commonmark(md: &str, o: &MarkdownOptions) -> (r: String)
    ensures
        r@ == comrak_commonmark(md@, *o),
{
    comrak::markdown_to_commonmark(md, &comrak_options(o))
}

/// Canonical CommonMark for `md`: what [`normalize`] returns.
pub open spec fn normalized(md: Seq<char>) -> Seq<char> {
    comrak_commonmark(md, solidate_options())
}

/// Canonical CommonMark for `md`. Formatting-only edits normalize to the same output.
pub fn normalize(md: &str) -> (r: String)
    ensures
        r@ == normalized(md@),
{
    commonmark(md, &options())
}

/// The semantic hash of `md`: the hash of its normalized UTF-8 bytes.
pub open spec fn semantic_hash_of(md: Seq<char>) -> Seq<u8> {
    crate::hash::hash_of(encode_utf8(normalized(md)))
}

pub fn semantic_hash(md: &str) -> (h: crate::hash::Hash)
    ensures
        h@ == semantic_hash_of(md@),
{
    let n = normalize(md);
    crate::hash::Hash::of_str(n.as_str())
}

/// The lowercase mapping of `c`, as `char::to_lowercase` yields it.
pub uninterp spec fn lowercase_of(c: char) -> Seq<char>;

/// The ASCII lowercase of `c`: an ASCII capital becomes its small letter, any
/// other character stays. For an ASCII character this is the whole of its Unicode
/// lowercase mapping.
pub open spec fn ascii_lowercase(c: char) -> char {
    if is_ascii_upper(c) {
        (((c as u32) + 32) as u8) as char
    } else {
        c
    }
}

/// Calls `char::to_lowercase`; the contract names the result.
#[verifier::external_body]
fn to_lowercase(c: char) -> (r: Vec<char>)
    ensures
        r@ == lowercase_of(c),
{
    c.to_lowercase().collect()
}

/// The lowercase mapping of `c`: the ASCII one for an ASCII character, Unicode's
/// otherwise.
pub open spec fn lower_char(c: char) -> Seq<char> {
    if (c as u32) < 128 {
        seq![ascii_lowercase(c)]
    } else {
        lowercase_of(c)
    }
}

/// `text` with every character replaced by its lowercase mapping.
pub open spec fn lowered(text: Seq<char>) -> Seq<char>
    decreases text.len(),
{
    if text.len() == 0 {
        seq![]
    } else {
        lowered(text.drop_last()) + lower_char(text.last())
    }
}

/// The lowercase mapping of `c`, as [`lower_char`].
fn lower(c: char) -> (r: Vec<char>)
    ensures
        r@ == lower_char(c),
{
    if (c as u32) < 128 {
        let l = if 'A' <= c && c <= 'Z' {
            (((c as u32) + 32) as u8) as char
        } else {
            c
        };
        vec![l]
    } else {
        to_lowercase(c)
    }
}

/// A character a slug keeps: a small ASCII letter, an ASCII digit or `_`.
pub open spec fn slug_keeps(c: char) -> bool {
    is_ascii_lower(c) || is_ascii_digit(c) || c == '_'
}

/// One step of building a slug: small ASCII letters, ASCII digits and `_` are
/// kept; whitespace and `-` become one `-`, never at the start and never twice in
/// a row; anything else is dropped.
pub open spec fn slug_step(out: Seq<char>, c: char) -> Seq<char> {
    if slug_keeps(c) {
        out.push(c)
    } else if (is_ws(c) || c == '-') && out.len() > 0 && out.last() != '-' {
        out.push('-')
    } else {
        out
    }
}

pub open spec fn slug_steps(s: Seq<char>) -> Seq<char>
    decreases s.len(),
{
    if s.len() == 0 {
        seq![]
    } else {
        slug_step(slug_steps(s.drop_last()), s.last())
    }
}

pub open spec fn drop_trailing_dashes(s: Seq<char>) -> Seq<char>
    decreases s.len(),
{
    if s.len() > 0 && s.last() == '-' {
        drop_trailing_dashes(s.drop_last())
    } else {
        s
    }
}

/// No `-` at the start and never two in a row.
pub open spec fn dashes_separate(s: Seq<char>) -> bool {
    &&& (s.len() > 0 ==> s[0] != '-')
    &&& forall|i: int| 0 <= i < s.len() - 1 ==> !(#[trigger] s[i] == '-' && s[i + 1] == '-')
}

proof fn lemma_slug_steps_shape(s: Seq<char>)
    ensures
        dashes_separate(slug_steps(s)),
    decreases s.len(),
{
    if s.len() > 0 {
        lemma_slug_steps_shape(s.drop_last());
        let out = slug_steps(s.drop_last());
        let next = slug_steps(s);
        assert forall|i: int| 0 <= i < next.len() - 1 implies !(#[trigger] next[i] == '-' && next[i + 1] == '-') by {
            if i < out.len() - 1 {
                assert(next[i] == out[i] && next[i + 1] == out[i + 1]);
            } else if next.len() > out.len() {
                assert(next[i] == out[i]);
            }
        }
        if out.len() > 0 {
            assert(next[0] == out[0]);
        }
    }
}

proof fn lemma_drop_trailing_dashes(s: Seq<char>)
    requires
        dashes_separate(s),
    ensures
        dashes_separate(drop_trailing_dashes(s)),
        drop_trailing_dashes(s).len() > 0 ==> drop_trailing_dashes(s).last() != '-',
    decreases s.len(),
{
    if s.len() > 0 && s.last() == '-' {
        let t = s.drop_last();
        assert forall|i: int| 0 <= i < t.len() - 1 implies !(#[trigger] t[i] == '-' && t[i + 1] == '-') by {
            assert(t[i] == s[i] && t[i + 1] == s[i + 1]);
        }
        if t.len() > 0 {
            assert(t[0] == s[0]);
        }
        lemma_drop_trailing_dashes(t);
    }
}

/// A slug never starts or ends with `-` and never has two in a row: separators are
/// single.
pub proof fn lemma_slug_separators(text: Seq<char>)
    ensures
        dashes_separate(slug_of(text)),
        slug_of(text).len() > 0 ==> slug_of(text).last() != '-',
{
    lemma_slug_steps_shape(lowered(text));
    lemma_drop_trailing_dashes(slug_steps(lowered(text)));
}

/// What a slug may hold: small ASCII letters, ASCII digits, `_` and `-`.
pub open spec fn slug_chars_only(s: Seq<char>) -> bool {
    forall|i: int| 0 <= i < s.len() ==> slug_keeps(#[trigger] s[i]) || s[i] == '-'
}

proof fn lemma_slug_steps_chars(s: Seq<char>)
    ensures
        slug_chars_only(slug_steps(s)),
    decreases s.len(),
{
    if s.len() > 0 {
        lemma_slug_steps_chars(s.drop_last());
        let out = slug_steps(s.drop_last());
        let next = slug_steps(s);
        assert forall|i: int| 0 <= i < next.len() implies slug_keeps(#[trigger] next[i]) || next[i] == '-' by {
            if i < out.len() {
                assert(next[i] == out[i]);
            }
        }
    }
}

proof fn lemma_drop_trailing_chars(s: Seq<char>)
    requires
        slug_chars_only(s),
    ensures
        slug_chars_only(drop_trailing_dashes(s)),
        drop_trailing_dashes(s).len() <= s.len(),
        forall|i: int| 0 <= i < drop_trailing_dashes(s).len() ==> #[trigger] drop_trailing_dashes(s)[i] == s[i],
    decreases s.len(),
{
    if s.len() > 0 && s.last() == '-' {
        let t = s.drop_last();
        assert forall|i: int| 0 <= i < t.len() implies slug_keeps(#[trigger] t[i]) || t[i] == '-' by {
            assert(t[i] == s[i]);
        }
        lemma_drop_trailing_chars(t);
    }
}

/// Text of slug characters maps to itself when lowercased.
proof fn lemma_lowered_slug(s: Seq<char>)
    requires
        slug_chars_only(s),
    ensures
        lowered(s) == s,
    decreases s.len(),
{
    if s.len() > 0 {
        let t = s.drop_last();
        assert forall|i: int| 0 <= i < t.len() implies slug_keeps(#[trigger] t[i]) || t[i] == '-' by {
            assert(t[i] == s[i]);
        }
        lemma_lowered_slug(t);
        let c = s.last();
        assert(slug_keeps(s[s.len() - 1]) || s[s.len() - 1] == '-');
        assert((c as u32) < 128);
        assert(lower_char(c) == seq![c]);
        assert(s =~= t + seq![c]);
    }
}

/// Building a slug from a slug gives the slug back.
proof fn lemma_slug_steps_slug(s: Seq<char>)
    requires
        slug_chars_only(s),
        dashes_separate(s),
    ensures
        slug_steps(s) == s,
    decreases s.len(),
{
    if s.len() > 0 {
        let t = s.drop_last();
        assert forall|i: int| 0 <= i < t.len() implies slug_keeps(#[trigger] t[i]) || t[i] == '-' by {
            assert(t[i] == s[i]);
        }
        assert forall|i: int| 0 <= i < t.len() - 1 implies !(#[trigger] t[i] == '-' && t[i + 1] == '-') by {
            assert(t[i] == s[i] && t[i + 1] == s[i + 1]);
        }
        if t.len() > 0 {
            assert(t[0] == s[0]);
        }
        lemma_slug_steps_slug(t);
        assert(slug_keeps(s[s.len() - 1]) || s[s.len() - 1] == '-');
        if s.last() == '-' {
            assert(s.len() > 1);
            assert(!(s[s.len() - 2] == '-' && s[s.len() - 1] == '-'));
            assert(t.last() == s[s.len() - 2]);
        }
        assert(s =~= t.push(s.last()));
    }
}

/// A slug holds only small ASCII letters, ASCII digits, `_` and single inner `-`
/// separators, and slugifying a slug gives it back.
pub proof fn lemma_slug_shape(text: Seq<char>)
    ensures
        slug_chars_only(slug_of(text)),
        dashes_separate(slug_of(text)),
        slug_of(text).len() > 0 ==> slug_of(text).last() != '-',
        slug_of(slug_of(text)) == slug_of(text),
{
    let s = slug_of(text);
    lemma_slug_separators(text);
    lemma_slug_steps_chars(lowered(text));
    lemma_drop_trailing_chars(slug_steps(lowered(text)));
    lemma_lowered_slug(s);
    lemma_slug_steps_slug(s);
}

/// What [`slugify`] returns.
pub open spec fn slug_of(text: Seq<char>) -> Seq<char> {
    drop_trailing_dashes(slug_steps(lowered(text)))
}

/// Lowercases `text` and keeps ASCII letters, digits, `_` and single `-` separators.
pub fn slugify(text: &str) -> (r: String)
    ensures
        r@ == slug_of(text@),
{
    string_of(&slug_chars(&chars_of(text)))
}

fn slug_chars(chars: &[char]) -> (r: Vec<char>)
    ensures
        r@ == slug_of(chars@),
{
    let mut out: Vec<char> = Vec::new();
    let ghost mut done: Seq<char> = seq![];
    let mut i: usize = 0;
    while i < chars.len()
        invariant
            0 <= i <= chars@.len(),
            done == lowered(chars@.take(i as int)),
            out@ == slug_steps(done),
        decreases chars@.len() - i,
    {
        let low = lower(chars[i]);
        let mut j: usize = 0;
        while j < low.len()
            invariant
                0 <= j <= low@.len(),
                out@ == slug_steps(done + low@.take(j as int)),
            decreases low@.len() - j,
        {
            let c = low[j];
            let ghost before = done + low@.take(j as int);
            assert((done + low@.take(j + 1)).drop_last() =~= before);
            assert((done + low@.take(j + 1)).last() == c);
            if ('a' <= c && c <= 'z') || ('0' <= c && c <= '9') || c == '_' {
                out.push(c);
            } else if (is_whitespace(c) || c == '-') && out.len() > 0 && out[out.len() - 1] != '-' {
                out.push('-');
            }
            j += 1;
        }
        proof {
            assert(low@.take(j as int) =~= low@);
            assert(chars@.take(i + 1).drop_last() =~= chars@.take(i as int));
            done = done + low@;
        }
        i += 1;
    }
    assert(chars@.take(i as int) =~= chars@);
    while out.len() > 0 && out[out.len() - 1] == '-'
        invariant
            drop_trailing_dashes(out@) == slug_of(chars@),
        decreases out@.len(),
    {
        let ghost before = out@;
        out.pop();
        assert(out@ =~= before.drop_last());
    }
    out
}

/// The index of the last `{#` in `s`, or -1.
pub open spec fn last_open_id(s: Seq<char>) -> int
    decreases s.len(),
{
    if s.len() < 2 {
        -1
    } else if s[s.len() - 2] == '{' && s.last() == '#' {
        s.len() - 2
    } else {
        last_open_id(s.drop_last())
    }
}

proof fn lemma_last_open_id(s: Seq<char>)
    ensures
        last_open_id(s) == -1 || (0 <= last_open_id(s) && last_open_id(s) + 2 <= s.len()),
    decreases s.len(),
{
    if s.len() >= 2 {
        lemma_last_open_id(s.drop_last());
    }
}

fn find_last_open_id(v: &[char]) -> (r: Option<usize>)
    ensures
        match r {
            Some(i) => i == last_open_id(v@) && i + 2 <= v@.len(),
            None => last_open_id(v@) == -1,
        },
{
    let mut n: usize = v.len();
    assert(v@.take(n as int) =~= v@);
    while n >= 2
        invariant
            n <= v@.len(),
            last_open_id(v@) == last_open_id(v@.take(n as int)),
        decreases n,
    {
        let ghost t = v@.take(n as int);
        if v[n - 2] == '{' && v[n - 1] == '#' {
            assert(t[t.len() - 2] == '{' && t.last() == '#');
            return Some(n - 2);
        }
        assert(t.drop_last() =~= v@.take(n - 1));
        n -= 1;
    }
    None
}

/// A character allowed in an explicit `{#id}`.
pub open spec fn is_id_char(c: char) -> bool {
    is_ascii_alnum(c) || c == '-' || c == '_'
}

fn all_id_chars(v: &[char]) -> (b: bool)
    ensures
        b == forall|k: int| 0 <= k < v@.len() ==> is_id_char(#[trigger] v@[k]),
{
    let mut i: usize = 0;
    while i < v.len()
        invariant
            0 <= i <= v@.len(),
            forall|k: int| 0 <= k < i ==> is_id_char(#[trigger] v@[k]),
        decreases v@.len() - i,
    {
        if !(crate::text::ascii_alnum(v[i]) || v[i] == '-' || v[i] == '_') {
            return false;
        }
        i += 1;
    }
    true
}

/// `Title {#id}` as `("Title", Some("id"))`; any other text trimmed, with `None`.
pub open spec fn explicit_anchor(text: Seq<char>) -> (Seq<char>, Option<Seq<char>>) {
    let t = trim_end(text, None);
    let plain = (trim(text, None), None::<Seq<char>>);
    if t.len() > 0 && t.last() == '}' {
        let inner = t.drop_last();
        let i = last_open_id(inner);
        if i >= 0 {
            let id = inner.skip(i + 2);
            if id.len() > 0 && forall|k: int| 0 <= k < id.len() ==> is_id_char(#[trigger] id[k]) {
                (trim(t.take(i), None), Some(id))
            } else {
                plain
            }
        } else {
            plain
        }
    } else {
        plain
    }
}

pub open spec fn opt_chars(o: Option<Vec<char>>) -> Option<Seq<char>> {
    match o {
        Some(v) => Some(v@),
        None => None,
    }
}

/// Splits `Title {#id}` into `("Title", Some("id"))`.
fn split_explicit_anchor(text: &[char]) -> (r: (Vec<char>, Option<Vec<char>>))
    ensures
        r.0@ == explicit_anchor(text@).0,
        opt_chars(r.1) == explicit_anchor(text@).1,
{
    let t = trim_end_pat(text, None);
    if t.len() > 0 && t[t.len() - 1] == '}' {
        let inner = copy_range(&t, 0, t.len() - 1);
        assert(inner@ =~= t@.drop_last());
        if let Some(i) = find_last_open_id(&inner) {
            let id = copy_range(&inner, i + 2, inner.len());
            assert(id@ =~= inner@.skip(i + 2));
            if id.len() > 0 && all_id_chars(&id) {
                let head = copy_range(&t, 0, i);
                assert(head@ =~= t@.take(i as int));
                return (trim_pat(&head, None), Some(id));
            }
        }
    }
    (trim_pat(text, None), None)
}

/// `base-n`, the `n`-th alternative to a taken anchor.
pub open spec fn numbered(base: Seq<char>, n: nat) -> Seq<char> {
    base + seq!['-'] + decimal(n)
}

proof fn lemma_numbered(base: Seq<char>, n: nat, m: nat)
    ensures
        numbered(base, n) != base,
        numbered(base, n) == numbered(base, m) ==> n == m,
{
    lemma_decimal_len(n);
    if numbered(base, n) == numbered(base, m) {
        assert(numbered(base, n).skip(base.len() + 1int) =~= decimal(n));
        assert(numbered(base, m).skip(base.len() + 1int) =~= decimal(m));
        lemma_decimal_injective(n, m);
    }
}

/// The anchor used for a heading with nothing to slug.
pub open spec fn default_anchor() -> Seq<char> {
    seq!['s', 'e', 'c', 't', 'i', 'o', 'n']
}

pub open spec fn anchor_base(base: Seq<char>) -> Seq<char> {
    if base.len() == 0 {
        default_anchor()
    } else {
        base
    }
}

/// `n` is the first number for which `base-n` is free.
pub open spec fn first_free_at(used: Set<Seq<char>>, base: Seq<char>, n: nat) -> bool {
    &&& n >= 1
    &&& !used.contains(numbered(base, n))
    &&& forall|m: nat| 1 <= m < n ==> used.contains(#[trigger] numbered(base, m))
}

pub open spec fn first_free(used: Set<Seq<char>>, base: Seq<char>) -> nat {
    choose|n: nat| first_free_at(used, base, n)
}

/// The anchor a heading with slug `base` gets when `used` are taken: `base` itself,
/// else the first free `base-1`, `base-2`, ...; an empty base counts as `section`.
pub open spec fn unique_anchor(used: Set<Seq<char>>, base: Seq<char>) -> Seq<char> {
    let b = anchor_base(base);
    if !used.contains(b) {
        b
    } else {
        numbered(b, first_free(used, b))
    }
}

/// Whether heading text ends in an explicit `{#id}` anchor, which rendering strips
/// from the heading.
pub fn has_explicit_anchor(text: &str) -> (b: bool)
    ensures
        b == explicit_anchor(text@).1 is Some,
{
    let chars = chars_of(text);
    let (_, id) = split_explicit_anchor(&chars);
    id.is_some()
}

/// Picks the anchor for `base` and records it in `used`.
fn unique(used: &mut Vec<Vec<char>>, base: &[char]) -> (a: Vec<char>)
    ensures
        a@ == unique_anchor(views(old(used)@).to_set(), base@),
        views(final(used)@) == views(old(used)@).push(a@),
{
    let ghost s = views(used@).to_set();
    let ghost u0 = used@;
    let b: Vec<char> = if base.len() == 0 {
        vec!['s', 'e', 'c', 't', 'i', 'o', 'n']
    } else {
        copy_range(base, 0, base.len())
    };
    assert(b@ =~= anchor_base(base@));
    if !contains_chars(used, &b) {
        let r = copy_range(&b, 0, b.len());
        assert(r@ =~= b@);
        used.push(b);
        proof {
            lemma_views_push(u0, b);
        }
        return r;
    }
    proof {
        vstd::seq_lib::seq_to_set_is_finite(views(u0));
        views(u0).lemma_cardinality_of_set();
        assert(s.contains(b@));
    }
    let count = used.len();
    let mut n: usize = 1;
    let ghost mut tried: Set<Seq<char>> = set![b@];
    loop
        invariant
            1 <= n,
            used@ == u0,
            u0 == old(used)@,
            s == views(used@).to_set(),
            s.finite(),
            s.len() <= used@.len(),
            count == used@.len(),
            s.contains(b@),
            b@ == anchor_base(base@),
            tried.finite(),
            tried.len() == n,
            tried.subset_of(s),
            forall|x: Seq<char>| #[trigger] tried.contains(x) ==> (x == b@ || exists|m: nat| 1 <= m < n && x == numbered(b@, m)),
            forall|m: nat| 1 <= m < n ==> s.contains(#[trigger] numbered(b@, m)),
        decreases s.len() - tried.len(),
    {
        let mut cand = copy_range(&b, 0, b.len());
        cand.push('-');
        push_decimal(&mut cand, n as u64);
        assert(cand@ =~= numbered(b@, n as nat));
        if !contains_chars(used, &cand) {
            let r = copy_range(&cand, 0, cand.len());
            assert(r@ =~= cand@);
            proof {
                assert(first_free_at(s, b@, n as nat));
                let f = first_free(s, b@);
                assert(first_free_at(s, b@, f));
                if f < n {
                    assert(s.contains(numbered(b@, f)));
                } else if f > n {
                    assert(s.contains(numbered(b@, n as nat)));
                }
                assert(f == n);
                assert(r@ == unique_anchor(s, base@));
            }
            used.push(cand);
            proof {
                lemma_views_push(u0, cand);
                assert(views(used@) == views(u0).push(r@));
            }
            return r;
        }
        proof {
            lemma_numbered(b@, n as nat, 0);
            if tried.contains(cand@) {
                let m = choose|m: nat| 1 <= m < n && cand@ == numbered(b@, m);
                lemma_numbered(b@, n as nat, m);
            }
            tried = tried.insert(cand@);
            vstd::set_lib::lemma_len_subset(tried, s);
        }
        n += 1;
    }
}

/// The anchor of the text before a document's first heading.
pub const PREAMBLE_ANCHOR: &'static str = "_preamble";

pub open spec fn preamble_anchor() -> Seq<char> {
    seq!['_', 'p', 'r', 'e', 'a', 'm', 'b', 'l', 'e']
}

/// A heading with the anchor it was given.
pub struct HeadingView {
    pub level: u8,
    pub title: Seq<char>,
    pub anchor: Seq<char>,
    pub top_level: bool,
    pub first_line: usize,
}

/// The anchors taken, and the headings met with their anchors, after walking
/// `nodes` in document order.
pub open spec fn anchor_walk(nodes: Seq<MdNodeView>) -> (Set<Seq<char>>, Seq<HeadingView>)
    decreases nodes.len(),
{
    if nodes.len() == 0 {
        (set![preamble_anchor()], seq![])
    } else {
        let (used, heads) = anchor_walk(nodes.drop_last());
        let n = nodes.last();
        match n.kind {
            NodeKindView::Heading(level) => {
                let (title, explicit) = explicit_anchor(n.text);
                let base = match explicit {
                    Some(id) => id,
                    None => slug_of(title),
                };
                let a = unique_anchor(used, base);
                (
                    used.insert(a),
                    heads.push(
                        HeadingView { level, title, anchor: a, top_level: n.top_level, first_line: n.first_line },
                    ),
                )
            },
            _ => (used, heads),
        }
    }
}

/// `base-1` through `base-m`.
pub open spec fn numbered_upto(base: Seq<char>, m: nat) -> Set<Seq<char>>
    decreases m,
{
    if m == 0 {
        Set::empty()
    } else {
        numbered_upto(base, (m - 1) as nat).insert(numbered(base, m))
    }
}

proof fn lemma_numbered_upto(base: Seq<char>, m: nat)
    ensures
        numbered_upto(base, m).finite(),
        numbered_upto(base, m).len() == m,
        forall|x: Seq<char>| #[trigger] numbered_upto(base, m).contains(x) ==> exists|n: nat| 1 <= n <= m && x == numbered(base, n),
    decreases m,
{
    if m > 0 {
        let prev = numbered_upto(base, (m - 1) as nat);
        lemma_numbered_upto(base, (m - 1) as nat);
        if prev.contains(numbered(base, m)) {
            let n = choose|n: nat| 1 <= n <= m - 1 && numbered(base, m) == numbered(base, n);
            lemma_numbered(base, m, n);
        }
        assert forall|x: Seq<char>| #[trigger] numbered_upto(base, m).contains(x) implies exists|n: nat| 1 <= n <= m && x == numbered(base, n) by {
            if x != numbered(base, m) {
                assert(prev.contains(x));
            }
        }
    }
}

/// A finite set of taken anchors leaves some `base-n` free, with `n` at most one more
/// than the number taken.
proof fn lemma_some_numbered_free(used: Set<Seq<char>>, base: Seq<char>)
    requires
        used.finite(),
    ensures
        exists|n: nat| 1 <= n <= used.len() + 1 && !used.contains(#[trigger] numbered(base, n)),
{
    let m = used.len() + 1;
    if forall|n: nat| 1 <= n <= m ==> used.contains(#[trigger] numbered(base, n)) {
        lemma_numbered_upto(base, m);
        assert(numbered_upto(base, m).subset_of(used)) by {
            assert forall|x: Seq<char>| numbered_upto(base, m).contains(x) implies used.contains(x) by {
                let n = choose|n: nat| 1 <= n <= m && x == numbered(base, n);
            }
        }
        vstd::set_lib::lemma_len_subset(numbered_upto(base, m), used);
    }
}

/// If `base-n` is free, some first free number exists.
proof fn lemma_first_free_exists(used: Set<Seq<char>>, base: Seq<char>, n: nat)
    requires
        n >= 1,
        !used.contains(numbered(base, n)),
    ensures
        exists|f: nat| first_free_at(used, base, f),
    decreases n,
{
    if forall|m: nat| 1 <= m < n ==> used.contains(#[trigger] numbered(base, m)) {
        assert(first_free_at(used, base, n));
    } else {
        let m = choose|m: nat| 1 <= m < n && !used.contains(#[trigger] numbered(base, m));
        lemma_first_free_exists(used, base, m);
    }
}

/// The anchor picked for a heading is never one already taken.
pub proof fn lemma_unique_anchor_fresh(used: Set<Seq<char>>, base: Seq<char>)
    requires
        used.finite(),
    ensures
        !used.contains(unique_anchor(used, base)),
{
    let b = anchor_base(base);
    if used.contains(b) {
        lemma_some_numbered_free(used, b);
        let n = choose|n: nat| 1 <= n <= used.len() + 1 && !used.contains(#[trigger] numbered(b, n));
        lemma_first_free_exists(used, b, n);
        let f = first_free(used, b);
        assert(first_free_at(used, b, f));
    }
}

proof fn lemma_anchor_walk(nodes: Seq<MdNodeView>)
    ensures
        anchor_walk(nodes).0.finite(),
        anchor_walk(nodes).0.contains(preamble_anchor()),
        forall|i: int|
            0 <= i < anchor_walk(nodes).1.len() ==> anchor_walk(nodes).0.contains(#[trigger] anchor_walk(nodes).1[i].anchor),
        forall|i: int, j: int|
            0 <= i < j < anchor_walk(nodes).1.len() ==> #[trigger] anchor_walk(nodes).1[i].anchor
                != #[trigger] anchor_walk(nodes).1[j].anchor,
    decreases nodes.len(),
{
    if nodes.len() > 0 {
        lemma_anchor_walk(nodes.drop_last());
        let (used, heads) = anchor_walk(nodes.drop_last());
        let n = nodes.last();
        match n.kind {
            NodeKindView::Heading(level) => {
                let (title, explicit) = explicit_anchor(n.text);
                let base = match explicit {
                    Some(id) => id,
                    None => slug_of(title),
                };
                lemma_unique_anchor_fresh(used, base);
                let a = unique_anchor(used, base);
                let heads2 = anchor_walk(nodes).1;
                assert forall|i: int, j: int| 0 <= i < j < heads2.len() implies #[trigger] heads2[i].anchor
                    != #[trigger] heads2[j].anchor by {
                    if j == heads2.len() - 1 {
                        assert(heads2[i] == heads[i]);
                        assert(used.contains(heads[i].anchor));
                    } else {
                        assert(heads2[i] == heads[i]);
                        assert(heads2[j] == heads[j]);
                    }
                }
                assert forall|i: int| 0 <= i < heads2.len() implies anchor_walk(nodes).0.contains(
                    #[trigger] heads2[i].anchor,
                ) by {
                    if i < heads.len() {
                        assert(heads2[i] == heads[i]);
                    }
                }
            },
            _ => {},
        }
    }
}

/// Anchors are unique within a document: no two headings share one, and none takes
/// the preamble's.
pub proof fn lemma_anchors_distinct(nodes: Seq<MdNodeView>)
    ensures
        forall|i: int, j: int|
            0 <= i < j < headings(nodes).len() ==> #[trigger] headings(nodes)[i].anchor != #[trigger] headings(
                nodes,
            )[j].anchor,
        forall|i: int| 0 <= i < headings(nodes).len() ==> #[trigger] headings(nodes)[i].anchor != preamble_anchor(),
    decreases nodes.len(),
{
    lemma_anchor_walk(nodes);
    if nodes.len() > 0 {
        lemma_anchors_distinct(nodes.drop_last());
        let (used, heads) = anchor_walk(nodes.drop_last());
        lemma_anchor_walk(nodes.drop_last());
        let n = nodes.last();
        match n.kind {
            NodeKindView::Heading(level) => {
                let (title, explicit) = explicit_anchor(n.text);
                let base = match explicit {
                    Some(id) => id,
                    None => slug_of(title),
                };
                lemma_unique_anchor_fresh(used, base);
                assert forall|i: int| 0 <= i < headings(nodes).len() implies #[trigger] headings(nodes)[i].anchor
                    != preamble_anchor() by {
                    if i < heads.len() {
                        assert(headings(nodes)[i] == heads[i]);
                        assert(headings(nodes.drop_last())[i] == heads[i]);
                    } else {
                        assert(headings(nodes)[i].anchor == unique_anchor(used, base));
                        assert(used.contains(preamble_anchor()));
                    }
                }
            },
            _ => {
                assert forall|i: int| 0 <= i < headings(nodes).len() implies #[trigger] headings(nodes)[i].anchor
                    != preamble_anchor() by {
                    assert(headings(nodes)[i] == headings(nodes.drop_last())[i]);
                }
            },
        }
    }
}

/// Every heading of a document, in document order, with its anchor.
pub open spec fn headings(nodes: Seq<MdNodeView>) -> Seq<HeadingView> {
    anchor_walk(nodes).1
}

struct Anchored {
    level: u8,
    title: Vec<char>,
    anchor: Vec<char>,
    top_level: bool,
    first_line: usize,
}

impl View for Anchored {
    type V = HeadingView;

    closed spec fn view(&self) -> HeadingView {
        HeadingView {
            level: self.level,
            title: self.title@,
            anchor: self.anchor@,
            top_level: self.top_level,
            first_line: self.first_line,
        }
    }
}

spec fn heading_views(v: Seq<Anchored>) -> Seq<HeadingView> {
    Seq::new(v.len(), |i: int| v[i]@)
}

/// Gives every heading an anchor, in document order.
fn assign_anchors(nodes: &[MdNode]) -> (r: Vec<Anchored>)
    ensures
        heading_views(r@) == headings(node_views(nodes@)),
{
    let ghost nv = node_views(nodes@);
    let mut used: Vec<Vec<char>> = Vec::new();
    let pre = chars_of(PREAMBLE_ANCHOR);
    proof {
        reveal_strlit("_preamble");
    }
    assert(pre@ =~= preamble_anchor());
    let ghost u_empty = used@;
    used.push(pre);
    proof {
        lemma_views_push(u_empty, pre);
        lemma_push_to_set(views(u_empty), pre@);
        assert(views(u_empty).to_set() =~= Set::<Seq<char>>::empty());
        assert(set![preamble_anchor()] =~= Set::<Seq<char>>::empty().insert(preamble_anchor()));
    }
    let mut out: Vec<Anchored> = Vec::new();
    let mut i: usize = 0;
    assert(nv.take(0) =~= Seq::<MdNodeView>::empty());
    while i < nodes.len()
        invariant
            0 <= i <= nodes@.len(),
            nv == node_views(nodes@),
            views(used@).to_set() == anchor_walk(nv.take(i as int)).0,
            heading_views(out@) == anchor_walk(nv.take(i as int)).1,
        decreases nodes@.len() - i,
    {
        assert(nv.take(i + 1).drop_last() =~= nv.take(i as int));
        assert(nv.take(i + 1).last() == nodes@[i as int]@);
        let n = &nodes[i];
        match &n.kind {
            NodeKind::Heading(level) => {
                let text = chars_of(n.text.as_str());
                let (title, explicit) = split_explicit_anchor(&text);
                let base = match explicit {
                    Some(id) => id,
                    None => slug_chars(&title),
                };
                let ghost u0 = used@;
                let anchor = unique(&mut used, &base);
                proof {
                    lemma_push_to_set(views(u0), anchor@);
                }
                let ghost prev = heading_views(out@);
                out.push(Anchored { level: *level, title, anchor, top_level: n.top_level, first_line: n.first_line });
                assert(heading_views(out@) =~= prev.push(out@.last()@));
            },
            _ => {},
        }
        i += 1;
    }
    assert(nv.take(i as int) =~= nv);
    out
}

/// `str::split_inclusive('\n')`: the lines of `s`, each with its line break.
pub open spec fn lines_of(s: Seq<char>) -> Seq<Seq<char>>
    decreases s.len(),
{
    if s.len() == 0 {
        seq![]
    } else {
        let i = crate::text::find(s, '\n');
        proof {
            crate::text::lemma_find(s, '\n');
        }
        if i < 0 {
            seq![s]
        } else {
            seq![s.take(i + 1)] + lines_of(s.skip(i + 1))
        }
    }
}

pub fn split_lines(v: &[char]) -> (r: Vec<Vec<char>>)
    ensures
        views(r@) == lines_of(v@),
{
    let mut out: Vec<Vec<char>> = Vec::new();
    let mut start: usize = 0;
    assert(v@.skip(0) =~= v@);
    while start < v.len()
        invariant
            start <= v@.len(),
            views(out@) + lines_of(v@.skip(start as int)) == lines_of(v@),
        decreases v@.len() - start,
    {
        let ghost rest = v@.skip(start as int);
        let ghost prev = out@;
        proof {
            crate::text::lemma_find(rest, '\n');
        }
        match crate::text::find_from(v, '\n', start) {
            Some(k) => {
                let piece = copy_range(v, start, k + 1);
                assert(piece@ =~= rest.take(k - start + 1));
                assert(v@.skip(k + 1) =~= rest.skip(k - start + 1));
                out.push(piece);
                proof {
                    lemma_views_push(prev, piece);
                }
                assert(views(out@) + lines_of(v@.skip(k + 1)) =~= views(prev) + lines_of(rest));
                start = k + 1;
            },
            None => {
                let piece = copy_range(v, start, v.len());
                assert(piece@ =~= rest);
                out.push(piece);
                proof {
                    lemma_views_push(prev, piece);
                }
                assert(v@.skip(v@.len() as int) =~= Seq::<char>::empty());
                assert(views(out@) + lines_of(v@.skip(v@.len() as int)) =~= views(prev) + lines_of(rest));
                start = v.len();
            },
        }
    }
    assert(v@.skip(start as int) =~= Seq::<char>::empty());
    assert(views(out@) + lines_of(v@.skip(start as int)) =~= views(out@));
    out
}

/// The lines joined back together.
pub open spec fn concat(ls: Seq<Seq<char>>) -> Seq<char>
    decreases ls.len(),
{
    if ls.len() == 0 {
        seq![]
    } else {
        concat(ls.drop_last()) + ls.last()
    }
}

/// Lines `from` to `to`, 1-based and inclusive, clamped to the document.
pub open spec fn line_slice(lines: Seq<Seq<char>>, from: int, to: int) -> Seq<char> {
    let to = if to < lines.len() {
        to
    } else {
        lines.len() as int
    };
    if from <= 0 || from > to {
        seq![]
    } else {
        concat(lines.subrange(from - 1, to))
    }
}

fn slice_lines(lines: &Vec<Vec<char>>, from: usize, to: usize) -> (r: Vec<char>)
    ensures
        r@ == line_slice(views(lines@), from as int, to as int),
{
    let to = if to < lines.len() {
        to
    } else {
        lines.len()
    };
    let mut out: Vec<char> = Vec::new();
    if from == 0 || from > to {
        return out;
    }
    let ghost ls = views(lines@);
    let mut k: usize = from - 1;
    assert(ls.subrange(from - 1, k as int) =~= Seq::<Seq<char>>::empty());
    while k < to
        invariant
            1 <= from,
            from - 1 <= k <= to <= lines@.len(),
            ls == views(lines@),
            out@ == concat(ls.subrange(from - 1, k as int)),
        decreases to - k,
    {
        let ghost prev = out@;
        let line = &lines[k];
        let mut j: usize = 0;
        while j < line.len()
            invariant
                0 <= j <= line@.len(),
                out@ == prev + line@.take(j as int),
            decreases line@.len() - j,
        {
            out.push(line[j]);
            j += 1;
            assert(out@ =~= prev + line@.take(j as int));
        }
        assert(line@.take(j as int) =~= line@);
        assert(ls.subrange(from - 1, k + 1).drop_last() =~= ls.subrange(from - 1, k as int));
        assert(ls[k as int] == line@);
        k += 1;
    }
    out
}

/// A section of a document.
#[derive(Debug, Clone, PartialEq, Eq)]
pub struct Section {
    pub anchor: String,
    /// Heading text without any `{#id}` suffix. Empty for the preamble.
    pub title: String,
    /// Heading level from 1 to 6, or 0 for the preamble.
    pub level: u8,
    /// Anchor of the closest enclosing heading with a lower level.
    pub parent: Option<String>,
    pub ordinal: u32,
    /// The section's raw source, including its heading line.
    pub body: String,
    /// Semantic hash of `body`.
    pub hash: crate::hash::Hash,
}

pub struct SectionView {
    pub anchor: Seq<char>,
    pub title: Seq<char>,
    pub level: u8,
    pub parent: Option<Seq<char>>,
    pub ordinal: u32,
    pub body: Seq<char>,
    pub hash: Seq<u8>,
}

impl View for Section {
    type V = SectionView;

    open spec fn view(&self) -> SectionView {
        SectionView {
            anchor: self.anchor@,
            title: self.title@,
            level: self.level,
            parent: opt_view_string(self.parent),
            ordinal: self.ordinal,
            body: self.body@,
            hash: self.hash@,
        }
    }
}

pub open spec fn section_views(v: Seq<Section>) -> Seq<SectionView> {
    Seq::new(v.len(), |i: int| v[i]@)
}

/// A section with the given fields, hashed by its body's semantic hash.
pub open spec fn section_of(
    anchor: Seq<char>,
    title: Seq<char>,
    level: u8,
    parent: Option<Seq<char>>,
    ordinal: u32,
    body: Seq<char>,
) -> SectionView {
    SectionView { anchor, title, level, parent, ordinal, body, hash: semantic_hash_of(body) }
}

fn section(anchor: &[char], title: &[char], level: u8, parent: Option<String>, ordinal: u32, body: Vec<char>) -> (s: Section)
    ensures
        s@ == section_of(anchor@, title@, level, opt_view_string(parent), ordinal, body@),
{
    let body = string_of(&body);
    let hash = semantic_hash(body.as_str());
    Section { anchor: string_of(anchor), title: string_of(title), level, parent, ordinal, body, hash }
}

/// The headings that are direct children of the document root.
pub open spec fn top_headings(heads: Seq<HeadingView>) -> Seq<HeadingView>
    decreases heads.len(),
{
    if heads.len() == 0 {
        seq![]
    } else {
        let t = top_headings(heads.drop_last());
        if heads.last().top_level {
            t.push(heads.last())
        } else {
            t
        }
    }
}

/// `stack` without its entries at `level` or deeper on top.
pub open spec fn pop_deeper(stack: Seq<(u8, Seq<char>)>, level: u8) -> Seq<(u8, Seq<char>)>
    decreases stack.len(),
{
    if stack.len() > 0 && stack.last().0 >= level {
        pop_deeper(stack.drop_last(), level)
    } else {
        stack
    }
}

/// The last line of the `k`-th top-level section: the line before the next top-level
/// heading, or the document's last line.
pub open spec fn section_end(lines: Seq<Seq<char>>, tops: Seq<HeadingView>, k: int) -> int {
    if k + 1 < tops.len() {
        tops[k + 1].first_line - 1
    } else {
        lines.len() as int
    }
}

/// The sections of the first `n` top-level headings, numbered from `offset`, and the
/// stack of open headings after them.
pub open spec fn section_walk(lines: Seq<Seq<char>>, tops: Seq<HeadingView>, offset: nat, n: nat) -> (
    Seq<SectionView>,
    Seq<(u8, Seq<char>)>,
)
    decreases n,
{
    if n == 0 {
        (seq![], seq![])
    } else {
        let (secs, stack) = section_walk(lines, tops, offset, (n - 1) as nat);
        let h = tops[n - 1];
        let st = pop_deeper(stack, h.level);
        let parent = if st.len() > 0 {
            Some(st.last().1)
        } else {
            None
        };
        let body = line_slice(lines, h.first_line as int, section_end(lines, tops, n - 1));
        (
            secs.push(section_of(h.anchor, h.title, h.level, parent, (offset + secs.len()) as u32, body)),
            st.push((h.level, h.anchor)),
        )
    }
}

/// The preamble section, if the text before the first top-level heading is not blank.
pub open spec fn preamble_of(lines: Seq<Seq<char>>, tops: Seq<HeadingView>) -> Seq<SectionView> {
    let first = if tops.len() > 0 {
        tops[0].first_line as int
    } else {
        lines.len() + 1int
    };
    let pre = line_slice(lines, 1, first - 1);
    if trim(pre, None).len() == 0 {
        seq![]
    } else {
        seq![section_of(preamble_anchor(), seq![], 0, None, 0, pre)]
    }
}

/// The sections of a document with these lines and headings.
pub open spec fn sections_of(lines: Seq<Seq<char>>, heads: Seq<HeadingView>) -> Seq<SectionView> {
    let tops = top_headings(heads);
    let pre = preamble_of(lines, tops);
    pre + section_walk(lines, tops, pre.len(), tops.len()).0
}

proof fn lemma_top_headings(heads: Seq<HeadingView>)
    ensures
        top_headings(heads).len() <= heads.len(),
        forall|k: int|
            0 <= k < top_headings(heads).len() ==> exists|p: int|
                0 <= p < heads.len() && #[trigger] top_headings(heads)[k] == heads[p],
        (forall|i: int, j: int| 0 <= i < j < heads.len() ==> #[trigger] heads[i].anchor != #[trigger] heads[j].anchor)
            ==> forall|i: int, j: int|
            0 <= i < j < top_headings(heads).len() ==> #[trigger] top_headings(heads)[i].anchor
                != #[trigger] top_headings(heads)[j].anchor,
    decreases heads.len(),
{
    if heads.len() > 0 {
        let init = heads.drop_last();
        lemma_top_headings(init);
        let t0 = top_headings(init);
        let t = top_headings(heads);
        assert forall|k: int| 0 <= k < t.len() implies exists|p: int| 0 <= p < heads.len() && #[trigger] t[k] == heads[p] by {
            if k < t0.len() {
                assert(t[k] == t0[k]);
                let p = choose|p: int| 0 <= p < init.len() && t0[k] == init[p];
                assert(init[p] == heads[p]);
            } else {
                assert(t[k] == heads[heads.len() - 1]);
            }
        }
        if forall|i: int, j: int| 0 <= i < j < heads.len() ==> #[trigger] heads[i].anchor != #[trigger] heads[j].anchor {
            assert forall|i: int, j: int| 0 <= i < j < init.len() implies #[trigger] init[i].anchor != #[trigger] init[j].anchor by {
                assert(init[i] == heads[i] && init[j] == heads[j]);
            }
            assert forall|i: int, j: int| 0 <= i < j < t.len() implies #[trigger] t[i].anchor != #[trigger] t[j].anchor by {
                if j < t0.len() {
                    assert(t[i] == t0[i] && t[j] == t0[j]);
                } else {
                    assert(t[i] == t0[i]);
                    let p = choose|p: int| 0 <= p < init.len() && t0[i] == init[p];
                    assert(init[p] == heads[p]);
                    assert(t[j] == heads[heads.len() - 1]);
                }
            }
        }
    }
}

proof fn lemma_section_walk_anchors(lines: Seq<Seq<char>>, tops: Seq<HeadingView>, offset: nat, n: nat)
    requires
        n <= tops.len(),
    ensures
        section_walk(lines, tops, offset, n).0.len() == n,
        forall|k: int| 0 <= k < n ==> (#[trigger] section_walk(lines, tops, offset, n).0[k]).anchor == tops[k].anchor,
    decreases n,
{
    if n > 0 {
        lemma_section_walk_anchors(lines, tops, offset, (n - 1) as nat);
        let prev = section_walk(lines, tops, offset, (n - 1) as nat).0;
        let cur = section_walk(lines, tops, offset, n).0;
        assert forall|k: int| 0 <= k < n implies (#[trigger] cur[k]).anchor == tops[k].anchor by {
            if k < n - 1 {
                assert(cur[k] == prev[k]);
            }
        }
    }
}

/// Section anchors are unique within a document: the preamble's and those of the
/// top-level headings never repeat.
pub proof fn lemma_section_anchors_distinct(md: Seq<char>, base: Option<Seq<char>>)
    ensures
        forall|i: int, j: int|
            0 <= i < j < analysis_of(md, base).sections.len() ==> #[trigger] analysis_of(md, base).sections[i].anchor
                != #[trigger] analysis_of(md, base).sections[j].anchor,
{
    let nodes = comrak_nodes(md, solidate_options());
    let heads = headings(nodes);
    let lines = lines_of(md);
    let tops = top_headings(heads);
    let pre = preamble_of(lines, tops);
    let walk = section_walk(lines, tops, pre.len(), tops.len()).0;
    let secs = pre + walk;
    lemma_anchors_distinct(nodes);
    lemma_top_headings(heads);
    lemma_section_walk_anchors(lines, tops, pre.len(), tops.len());
    assert(secs == analysis_of(md, base).sections);
    assert forall|i: int, j: int| 0 <= i < j < secs.len() implies #[trigger] secs[i].anchor != #[trigger] secs[j].anchor by {
        if i < pre.len() {
            assert(secs[i].anchor == preamble_anchor());
            let k = j - pre.len();
            assert(secs[j] == walk[k]);
            assert(walk[k].anchor == tops[k].anchor);
            let p = choose|p: int| 0 <= p < heads.len() && tops[k] == heads[p];
            assert(heads[p].anchor != preamble_anchor());
        } else {
            assert(secs[i] == walk[i - pre.len()]);
            assert(secs[j] == walk[j - pre.len()]);
            assert(tops[i - pre.len()].anchor != tops[j - pre.len()].anchor);
        }
    }
}

/// Whether every heading after the `j`-th and before the `n`-th is deeper than it:
/// the `j`-th is still open when the `n`-th is reached.
pub open spec fn open_at(tops: Seq<HeadingView>, j: int, n: int) -> bool {
    forall|k: int| j < k < n ==> #[trigger] tops[k].level > tops[j].level
}

/// How many entries at the bottom of `stack` stay when [`pop_deeper`] pops to `level`.
spec fn kept_below(stack: Seq<(u8, Seq<char>)>, level: u8) -> nat
    decreases stack.len(),
{
    if stack.len() > 0 && stack.last().0 >= level {
        kept_below(stack.drop_last(), level)
    } else {
        stack.len()
    }
}

proof fn lemma_pop_deeper(stack: Seq<(u8, Seq<char>)>, level: u8)
    requires
        forall|a: int, b: int| 0 <= a < b < stack.len() ==> #[trigger] stack[a].0 < #[trigger] stack[b].0,
    ensures
        kept_below(stack, level) <= stack.len(),
        pop_deeper(stack, level) == stack.take(kept_below(stack, level) as int),
        forall|a: int| 0 <= a < kept_below(stack, level) ==> #[trigger] stack[a].0 < level,
        forall|a: int| kept_below(stack, level) <= a < stack.len() ==> #[trigger] stack[a].0 >= level,
    decreases stack.len(),
{
    if stack.len() > 0 && stack.last().0 >= level {
        let d = stack.drop_last();
        assert forall|a: int, b: int| 0 <= a < b < d.len() implies #[trigger] d[a].0 < #[trigger] d[b].0 by {
            assert(d[a] == stack[a] && d[b] == stack[b]);
        }
        lemma_pop_deeper(d, level);
        let m = kept_below(d, level);
        assert(d.take(m as int) =~= stack.take(m as int));
        assert forall|a: int| 0 <= a < m implies #[trigger] stack[a].0 < level by {
            assert(d[a] == stack[a]);
        }
        assert forall|a: int| m <= a < stack.len() implies #[trigger] stack[a].0 >= level by {
            if a < d.len() {
                assert(d[a] == stack[a]);
            }
        }
    } else {
        assert(stack.take(stack.len() as int) =~= stack);
        assert forall|a: int| 0 <= a < stack.len() implies #[trigger] stack[a].0 < level by {
            if a < stack.len() - 1 {
                assert(stack[a].0 < stack[stack.len() - 1].0);
            }
        }
    }
}

/// Below any heading lower than `level` before the `n`-th lies an open one lower
/// than `level`, at or after it.
proof fn lemma_open_below(tops: Seq<HeadingView>, n: int, idx: Seq<int>, j: int, level: u8) -> (a: int)
    requires
        0 <= j < n <= tops.len(),
        tops[j].level < level,
        forall|x: int| 0 <= x < n && open_at(tops, x, n) ==> #[trigger] idx.contains(x),
    ensures
        0 <= a < idx.len(),
        idx[a] >= j,
        tops[idx[a]].level < level,
    decreases n - j,
{
    if open_at(tops, j, n) {
        assert(idx.contains(j));
        choose|a: int| 0 <= a < idx.len() && idx[a] == j
    } else {
        let k = choose|k: int| j < k < n && !(#[trigger] tops[k].level > tops[j].level);
        lemma_open_below(tops, n, idx, k, level)
    }
}

/// The sections [`section_walk`] builds for the first `n` top-level headings: one
/// per heading, with its level and anchor, and with as parent the nearest earlier
/// heading of lower level. Returns, for the stack of open headings, the index of
/// each entry, and for each section the index of its parent or -1.
#[verifier::spinoff_prover]
#[verifier::rlimit(40)]
proof fn lemma_walk_parents(lines: Seq<Seq<char>>, tops: Seq<HeadingView>, offset: nat, n: nat) -> (r: (
    Seq<int>,
    Seq<int>,
))
    requires
        n <= tops.len(),
    ensures
        ({
            let (secs, stack) = section_walk(lines, tops, offset, n);
            let (idx, par) = r;
            &&& secs.len() == n
            &&& forall|i: int| 0 <= i < n ==> (#[trigger] secs[i]).level == tops[i].level && secs[i].anchor == tops[i].anchor
            &&& idx.len() == stack.len()
            &&& forall|a: int|
                0 <= a < idx.len() ==> 0 <= #[trigger] idx[a] < n && stack[a] == (tops[idx[a]].level, tops[idx[a]].anchor)
            &&& forall|a: int, b: int| 0 <= a < b < idx.len() ==> #[trigger] idx[a] < #[trigger] idx[b]
            &&& forall|a: int, b: int| 0 <= a < b < stack.len() ==> #[trigger] stack[a].0 < #[trigger] stack[b].0
            &&& forall|x: int| 0 <= x < n && open_at(tops, x, n as int) ==> #[trigger] idx.contains(x)
            &&& par.len() == n
            &&& forall|i: int|
                0 <= i < n && #[trigger] par[i] < 0 ==> secs[i].parent is None && forall|j: int|
                    0 <= j < i ==> #[trigger] tops[j].level >= tops[i].level
            &&& forall|i: int|
                0 <= i < n && #[trigger] par[i] >= 0 ==> {
                    &&& par[i] < i
                    &&& tops[par[i]].level < tops[i].level
                    &&& forall|k: int| par[i] < k < i ==> #[trigger] tops[k].level >= tops[i].level
                    &&& secs[i].parent == Some(tops[par[i]].anchor)
                }
        }),
    decreases n,
{
    if n == 0 {
        (seq![], seq![])
    } else {
        let (idx0, par0) = lemma_walk_parents(lines, tops, offset, (n - 1) as nat);
        let (secs0, stack0) = section_walk(lines, tops, offset, (n - 1) as nat);
        let (secs, stack) = section_walk(lines, tops, offset, n);
        let i = n - 1;
        let lv = tops[i].level;
        lemma_pop_deeper(stack0, lv);
        let m = kept_below(stack0, lv) as int;
        let st = pop_deeper(stack0, lv);
        let idx = idx0.take(m).push(i as int);
        assert(stack == st.push((lv, tops[i].anchor)));
        assert(secs == secs0.push(secs[i as int]));
        let p: int = if m > 0 {
            idx0[m - 1]
        } else {
            -1
        };
        if m > 0 {
            assert(st.last() == stack0[m - 1]);
            assert forall|k: int| p < k < i implies #[trigger] tops[k].level >= lv by {
                if tops[k].level < lv {
                    let a = lemma_open_below(tops, i as int, idx0, k, lv);
                    assert(stack0[a].0 < lv);
                    if a > m - 1 {
                        assert(idx0[m - 1] < idx0[a]);
                    }
                }
            }
        } else {
            assert forall|j: int| 0 <= j < i implies #[trigger] tops[j].level >= lv by {
                if tops[j].level < lv {
                    let a = lemma_open_below(tops, i as int, idx0, j, lv);
                    assert(stack0[a].0 < lv);
                }
            }
        }
        let par = par0.push(p);
        assert forall|x: int| 0 <= x < n && open_at(tops, x, n as int) implies #[trigger] idx.contains(x) by {
            if x == i {
                assert(idx[m] == x);
            } else {
                assert(open_at(tops, x, i as int));
                assert(idx0.contains(x));
                let a = choose|a: int| 0 <= a < idx0.len() && idx0[a] == x;
                assert(tops[x].level < lv);
                assert(stack0[a].0 < lv);
                assert(a < m);
                assert(idx[a] == x);
            }
        }
        assert forall|q: int| 0 <= q < n && #[trigger] par[q] < 0 implies secs[q].parent is None && forall|j: int|
            0 <= j < q ==> #[trigger] tops[j].level >= tops[q].level by {
            if q < i {
                assert(par[q] == par0[q] && secs[q] == secs0[q]);
            }
        }
        assert forall|q: int| 0 <= q < n && #[trigger] par[q] >= 0 implies {
            &&& par[q] < q
            &&& tops[par[q]].level < tops[q].level
            &&& forall|k: int| par[q] < k < q ==> #[trigger] tops[k].level >= tops[q].level
            &&& secs[q].parent == Some(tops[par[q]].anchor)
        } by {
            if q < i {
                assert(par[q] == par0[q] && secs[q] == secs0[q]);
            } else {
                assert(par[q] == p);
                assert(m > 0);
                assert(p == idx0[m - 1]);
                assert(stack0[m - 1] == (tops[idx0[m - 1]].level, tops[idx0[m - 1]].anchor));
                assert(st.len() == m && st.last() == stack0[m - 1]);
                assert(secs[q].parent == Some(st.last().1));
                assert(q == i);
                assert(stack0[m - 1].0 < lv);
                assert(tops[p].level < tops[q].level);
                assert(forall|k: int| p < k < i ==> #[trigger] tops[k].level >= lv);
            }
        }
        assert forall|a: int| 0 <= a < idx.len() implies 0 <= #[trigger] idx[a] < n && stack[a] == (
            tops[idx[a]].level,
            tops[idx[a]].anchor,
        ) by {
            if a < m {
                assert(idx[a] == idx0[a] && stack[a] == stack0[a]);
            }
        }
        assert forall|a: int, b: int| 0 <= a < b < idx.len() implies #[trigger] idx[a] < #[trigger] idx[b] by {
            if b < m {
                assert(idx[a] == idx0[a] && idx[b] == idx0[b]);
            } else {
                assert(idx[a] == idx0[a]);
            }
        }
        assert forall|a: int, b: int| 0 <= a < b < stack.len() implies #[trigger] stack[a].0 < #[trigger] stack[b].0 by {
            if b < m {
                assert(stack[a] == stack0[a] && stack[b] == stack0[b]);
            } else {
                assert(stack[a] == stack0[a]);
            }
        }
        assert forall|q: int| 0 <= q < n implies (#[trigger] secs[q]).level == tops[q].level && secs[q].anchor == tops[q].anchor by {
            if q < i {
                assert(secs[q] == secs0[q]);
            }
        }
        (idx, par)
    }
}

/// A section's parent is its nearest enclosing heading: the closest earlier heading
/// section of lower level, with every heading section between them at least as
/// deep as the section itself. A section with no earlier heading section of lower
/// level has no parent, and neither has the preamble.
pub proof fn lemma_section_parent_is_nearest_enclosing(lines: Seq<Seq<char>>, heads: Seq<HeadingView>, i: int)
    requires
        preamble_of(lines, top_headings(heads)).len() <= i < sections_of(lines, heads).len(),
    ensures
        ({
            let secs = sections_of(lines, heads);
            let p = preamble_of(lines, top_headings(heads)).len() as int;
            &&& p > 0 ==> secs[0].parent is None
            &&& secs[i].parent is None <==> forall|j: int| p <= j < i ==> #[trigger] secs[j].level >= secs[i].level
            &&& secs[i].parent is Some ==> exists|j: int|
                p <= j < i && #[trigger] secs[j].level < secs[i].level && (forall|k: int|
                    j < k < i ==> #[trigger] secs[k].level >= secs[i].level) && secs[i].parent == Some(secs[j].anchor)
        }),
{
    let tops = top_headings(heads);
    let pre = preamble_of(lines, tops);
    let p = pre.len() as int;
    let secs = sections_of(lines, heads);
    let (idx, par) = lemma_walk_parents(lines, tops, pre.len(), tops.len());
    let walk = section_walk(lines, tops, pre.len(), tops.len()).0;
    assert(secs == pre + walk);
    assert forall|x: int| p <= x < secs.len() implies #[trigger] secs[x] == walk[x - p] && walk[x - p].level
        == tops[x - p].level by {}
    let w = i - p;
    if par[w] < 0 {
        assert forall|j: int| p <= j < i implies #[trigger] secs[j].level >= secs[i].level by {
            assert(tops[j - p].level >= tops[w].level);
        }
    } else {
        let j = par[w] + p;
        assert(secs[j].level < secs[i].level);
        assert forall|k: int| j < k < i implies #[trigger] secs[k].level >= secs[i].level by {
            assert(tops[k - p].level >= tops[w].level);
        }
        assert(secs[j].anchor == tops[par[w]].anchor);
        assert(secs[i].parent == Some(secs[j].anchor));
        assert(!(forall|j2: int| p <= j2 < i ==> #[trigger] secs[j2].level >= secs[i].level));
    }
}

fn copy_anchored(h: &Anchored) -> (r: Anchored)
    ensures
        r@ == h@,
{
    let title = copy_range(&h.title, 0, h.title.len());
    let anchor = copy_range(&h.anchor, 0, h.anchor.len());
    assert(title@ =~= h.title@);
    assert(anchor@ =~= h.anchor@);
    Anchored { level: h.level, title, anchor, top_level: h.top_level, first_line: h.first_line }
}

fn top_level_headings(heads: &Vec<Anchored>) -> (r: Vec<Anchored>)
    ensures
        heading_views(r@) == top_headings(heading_views(heads@)),
{
    let ghost hv = heading_views(heads@);
    let mut out: Vec<Anchored> = Vec::new();
    let mut i: usize = 0;
    while i < heads.len()
        invariant
            0 <= i <= heads@.len(),
            hv == heading_views(heads@),
            heading_views(out@) == top_headings(hv.take(i as int)),
        decreases heads@.len() - i,
    {
        assert(hv.take(i + 1).drop_last() =~= hv.take(i as int));
        assert(hv.take(i + 1).last() == heads@[i as int]@);
        if heads[i].top_level {
            let ghost prev = heading_views(out@);
            out.push(copy_anchored(&heads[i]));
            assert(heading_views(out@) =~= prev.push(heads@[i as int]@));
        }
        i += 1;
    }
    assert(hv.take(i as int) =~= hv);
    out
}

spec fn stack_views(v: Seq<(u8, Vec<char>)>) -> Seq<(u8, Seq<char>)> {
    Seq::new(v.len(), |i: int| (v[i].0, v[i].1@))
}

/// The last line before top-level heading `k + 1`, or the document's last line.
fn end_line(lines: &Vec<Vec<char>>, tops: &Vec<Anchored>, k: usize) -> (e: usize)
    requires
        k < tops@.len(),
    ensures
        line_slice(views(lines@), tops@[k as int].first_line as int, e as int) == line_slice(
            views(lines@),
            tops@[k as int].first_line as int,
            section_end(views(lines@), heading_views(tops@), k as int),
        ),
{
    let ghost tv = heading_views(tops@);
    assert(tv[k as int] == tops@[k as int]@);
    if tops.len() - k > 1 {
        assert(tv[k + 1] == tops@[k + 1]@);
        if tops[k + 1].first_line == 0 {
            0
        } else {
            tops[k + 1].first_line - 1
        }
    } else {
        lines.len()
    }
}

fn build_sections(lines: &Vec<Vec<char>>, heads: &Vec<Anchored>) -> (r: Vec<Section>)
    ensures
        section_views(r@) == sections_of(views(lines@), heading_views(heads@)),
{
    let ghost ls = views(lines@);
    let tops = top_level_headings(heads);
    let ghost tv = heading_views(tops@);
    let pre_to: usize = if tops.len() > 0 {
        assert(tv[0] == tops@[0]@);
        if tops[0].first_line == 0 {
            0
        } else {
            tops[0].first_line - 1
        }
    } else {
        lines.len()
    };
    let pre = slice_lines(lines, 1, pre_to);
    let mut sections: Vec<Section> = Vec::new();
    if trim_pat(&pre, None).len() != 0 {
        let empty: Vec<char> = Vec::new();
        let anchor = chars_of(PREAMBLE_ANCHOR);
        proof {
            reveal_strlit("_preamble");
        }
        assert(anchor@ =~= preamble_anchor());
        assert(empty@ =~= Seq::<char>::empty());
        sections.push(section(&anchor, &empty, 0, None, 0, pre));
    }
    let ghost pre_secs = preamble_of(ls, tv);
    assert(section_views(sections@) =~= pre_secs);
    let ghost offset = pre_secs.len();
    let mut stack: Vec<(u8, Vec<char>)> = Vec::new();
    let mut k: usize = 0;
    while k < tops.len()
        invariant
            0 <= k <= tops@.len(),
            ls == views(lines@),
            tv == heading_views(tops@),
            offset == pre_secs.len(),
            pre_secs == preamble_of(ls, tv),
            section_views(sections@) == pre_secs + section_walk(ls, tv, offset, k as nat).0,
            stack_views(stack@) == section_walk(ls, tv, offset, k as nat).1,
        decreases tops@.len() - k,
    {
        let h = &tops[k];
        assert(tv[k as int] == h@);
        let end = end_line(lines, &tops, k);
        while stack.len() > 0 && stack[stack.len() - 1].0 >= h.level
            invariant
                pop_deeper(stack_views(stack@), h.level) == pop_deeper(section_walk(ls, tv, offset, k as nat).1, h.level),
            decreases stack@.len(),
        {
            let ghost before = stack@;
            stack.pop();
            assert(stack_views(stack@) =~= stack_views(before).drop_last());
        }
        let ghost st = stack_views(stack@);
        assert(pop_deeper(st, h.level) == st);
        let parent = if stack.len() > 0 {
            let top = &stack[stack.len() - 1].1;
            assert(st.last().1 == top@);
            Some(string_of(top))
        } else {
            None
        };
        let body = slice_lines(lines, h.first_line, end);
        let ordinal = #[verifier::truncate] (sections.len() as u32);
        let ghost prev = section_views(sections@);
        sections.push(section(&h.anchor, &h.title, h.level, parent, ordinal, body));
        assert(section_views(sections@) =~= prev.push(sections@.last()@));
        let ghost sprev = stack@;
        let a = copy_range(&h.anchor, 0, h.anchor.len());
        assert(a@ =~= h.anchor@);
        stack.push((h.level, a));
        assert(stack_views(stack@) =~= stack_views(sprev).push((h.level, h@.anchor)));
        k += 1;
    }
    sections
}

/// The title of the first level-1 heading.
pub open spec fn first_level_one(heads: Seq<HeadingView>) -> Option<Seq<char>>
    decreases heads.len(),
{
    if heads.len() == 0 {
        None
    } else if heads[0].level == 1 {
        Some(heads[0].title)
    } else {
        first_level_one(heads.drop_first())
    }
}

/// A document's title: its first level-1 heading, falling back to its first heading.
pub open spec fn title_of(heads: Seq<HeadingView>) -> Option<Seq<char>> {
    match first_level_one(heads) {
        Some(t) => Some(t),
        None => if heads.len() > 0 {
            Some(heads[0].title)
        } else {
            None
        },
    }
}

fn document_title(heads: &Vec<Anchored>) -> (r: Option<String>)
    ensures
        opt_view_string(r) == title_of(heading_views(heads@)),
{
    let ghost hv = heading_views(heads@);
    let mut i: usize = 0;
    assert(hv.skip(0) =~= hv);
    while i < heads.len()
        invariant
            0 <= i <= heads@.len(),
            hv == heading_views(heads@),
            first_level_one(hv) == first_level_one(hv.skip(i as int)),
        decreases heads@.len() - i,
    {
        assert(hv.skip(i as int)[0] == heads@[i as int]@);
        if heads[i].level == 1 {
            return Some(string_of(&heads[i].title));
        }
        assert(hv.skip(i as int).drop_first() =~= hv.skip(i + 1));
        i += 1;
    }
    assert(hv.skip(i as int) =~= Seq::<HeadingView>::empty());
    if heads.len() > 0 {
        assert(hv[0] == heads@[0]@);
        Some(string_of(&heads[0].title))
    } else {
        None
    }
}

/// The target of a link node: a Markdown link resolved against `base`, or a wiki link.
pub open spec fn node_link(n: MdNodeView, base: Option<Seq<char>>) -> Option<LinkView> {
    match n.kind {
        NodeKindView::Link(url) => markdown_link(url, base),
        NodeKindView::WikiLink(url) => wiki_target(url),
        _ => None,
    }
}

/// The internal links of `nodes`, de-duplicated, in document order.
pub open spec fn links_of(nodes: Seq<MdNodeView>, base: Option<Seq<char>>) -> Seq<LinkView>
    decreases nodes.len(),
{
    if nodes.len() == 0 {
        seq![]
    } else {
        let out = links_of(nodes.drop_last(), base);
        match node_link(nodes.last(), base) {
            Some(t) => if out.contains(t) {
                out
            } else {
                out.push(t)
            },
            None => out,
        }
    }
}

pub open spec fn link_views(v: Seq<LinkTarget>) -> Seq<LinkView> {
    Seq::new(v.len(), |i: int| v[i]@)
}

fn contains_target(v: &Vec<LinkTarget>, t: &LinkTarget) -> (b: bool)
    ensures
        b == link_views(v@).contains(t@),
{
    let mut i: usize = 0;
    while i < v.len()
        invariant
            0 <= i <= v@.len(),
            forall|k: int| 0 <= k < i ==> v@[k]@ != t@,
        decreases v@.len() - i,
    {
        if v[i].same(t) {
            assert(link_views(v@)[i as int] == t@);
            return true;
        }
        i += 1;
    }
    assert forall|k: int| 0 <= k < link_views(v@).len() implies link_views(v@)[k] != t@ by {
        assert(link_views(v@)[k] == v@[k]@);
    }
    false
}

fn collect_links(nodes: &[MdNode], base: Option<&DocPath>) -> (r: Vec<LinkTarget>)
    ensures
        link_views(r@) == links_of(node_views(nodes@), match base {
            Some(b) => Some(b@),
            None => None,
        }),
{
    let ghost nv = node_views(nodes@);
    let ghost bv = match base {
        Some(b) => Some(b@),
        None => None,
    };
    let mut out: Vec<LinkTarget> = Vec::new();
    let mut i: usize = 0;
    while i < nodes.len()
        invariant
            0 <= i <= nodes@.len(),
            nv == node_views(nodes@),
            bv == match base {
                Some(b) => Some(b@),
                None => None::<Seq<char>>,
            },
            link_views(out@) == links_of(nv.take(i as int), bv),
        decreases nodes@.len() - i,
    {
        assert(nv.take(i + 1).drop_last() =~= nv.take(i as int));
        assert(nv.take(i + 1).last() == nodes@[i as int]@);
        let target = match &nodes[i].kind {
            NodeKind::Link(url) => parse_markdown_link(url.as_str(), base),
            NodeKind::WikiLink(url) => parse_wiki_target(url.as_str()),
            _ => None,
        };
        if let Some(t) = target {
            if !contains_target(&out, &t) {
                let ghost prev = link_views(out@);
                out.push(t);
                assert(link_views(out@) =~= prev.push(out@.last()@));
            }
        }
        i += 1;
    }
    assert(nv.take(i as int) =~= nv);
    out
}

/// Top-level paragraphs that consist solely of an include directive, with their
/// 1-based inclusive line ranges.
pub open spec fn includes_of(nodes: Seq<MdNodeView>) -> Seq<(LinkView, (usize, usize))>
    decreases nodes.len(),
{
    if nodes.len() == 0 {
        seq![]
    } else {
        let out = includes_of(nodes.drop_last());
        let n = nodes.last();
        if n.top_level && n.kind is Paragraph {
            match include_target(n.text) {
                Some(t) => out.push((t, (n.first_line, n.last_line))),
                None => out,
            }
        } else {
            out
        }
    }
}

pub open spec fn include_views(v: Seq<(LinkTarget, (usize, usize))>) -> Seq<(LinkView, (usize, usize))> {
    Seq::new(v.len(), |i: int| (v[i].0@, v[i].1))
}

fn collect_includes(nodes: &[MdNode]) -> (r: Vec<(LinkTarget, (usize, usize))>)
    ensures
        include_views(r@) == includes_of(node_views(nodes@)),
{
    let ghost nv = node_views(nodes@);
    let mut out: Vec<(LinkTarget, (usize, usize))> = Vec::new();
    let mut i: usize = 0;
    while i < nodes.len()
        invariant
            0 <= i <= nodes@.len(),
            nv == node_views(nodes@),
            include_views(out@) == includes_of(nv.take(i as int)),
        decreases nodes@.len() - i,
    {
        assert(nv.take(i + 1).drop_last() =~= nv.take(i as int));
        assert(nv.take(i + 1).last() == nodes@[i as int]@);
        let n = &nodes[i];
        let is_paragraph = match &n.kind {
            NodeKind::Paragraph => true,
            _ => false,
        };
        if n.top_level && is_paragraph {
            if let Some(t) = parse_include(n.text.as_str()) {
                let ghost prev = include_views(out@);
                out.push((t, (n.first_line, n.last_line)));
                assert(include_views(out@) =~= prev.push((out@.last().0@, (n.first_line, n.last_line))));
            }
        }
        i += 1;
    }
    assert(nv.take(i as int) =~= nv);
    out
}

/// Top-level paragraphs of `md` that consist solely of an include directive, with their
/// 1-based inclusive line ranges.
pub fn top_level_includes(md: &str) -> (r: Vec<(LinkTarget, (usize, usize))>)
    ensures
        include_views(r@) == includes_of(comrak_nodes(md@, solidate_options())),
{
    let nodes = parse_nodes(md, &options());
    collect_includes(&nodes)
}

/// Everything Solidate stores about a document.
#[derive(Debug, Clone, PartialEq, Eq)]
pub struct Analysis {
    pub content_hash: crate::hash::Hash,
    pub semantic_hash: crate::hash::Hash,
    /// The first level-1 heading, falling back to the first heading of any level.
    pub title: Option<String>,
    pub sections: Vec<Section>,
    /// Internal links, de-duplicated, in document order.
    pub links: Vec<LinkTarget>,
    /// Top-level `{{include ...}}` directives in document order.
    pub includes: Vec<LinkTarget>,
}

pub struct AnalysisView {
    pub content_hash: Seq<u8>,
    pub semantic_hash: Seq<u8>,
    pub title: Option<Seq<char>>,
    pub sections: Seq<SectionView>,
    pub links: Seq<LinkView>,
    pub includes: Seq<LinkView>,
}

impl View for Analysis {
    type V = AnalysisView;

    open spec fn view(&self) -> AnalysisView {
        AnalysisView {
            content_hash: self.content_hash@,
            semantic_hash: self.semantic_hash@,
            title: opt_view_string(self.title),
            sections: section_views(self.sections@),
            links: link_views(self.links@),
            includes: link_views(self.includes@),
        }
    }
}

/// The targets of the include directives.
pub open spec fn include_targets(incs: Seq<(LinkView, (usize, usize))>) -> Seq<LinkView> {
    Seq::new(incs.len(), |i: int| incs[i].0)
}

/// What [`analyze_nodes`] finds in `md`, a document at path `base` that parsed
/// into `nodes`.
pub open spec fn analysis_from(md: Seq<char>, nodes: Seq<MdNodeView>, base: Option<Seq<char>>) -> AnalysisView {
    let heads = headings(nodes);
    AnalysisView {
        content_hash: crate::hash::hash_of(encode_utf8(md)),
        semantic_hash: semantic_hash_of(md),
        title: title_of(heads),
        sections: sections_of(lines_of(md), heads),
        links: links_of(nodes, base),
        includes: include_targets(includes_of(nodes)),
    }
}

/// What [`analyze`] finds in `md`, a document at path `base`.
pub open spec fn analysis_of(md: Seq<char>, base: Option<Seq<char>>) -> AnalysisView {
    analysis_from(md, comrak_nodes(md, solidate_options()), base)
}

/// Parses `md` and extracts everything Solidate stores about it. `base` is the
/// document's own path, used to resolve relative links.
pub fn analyze(md: &str, base: Option<&DocPath>) -> (a: Analysis)
    ensures
        a@ == analysis_of(md@, match base {
            Some(b) => Some(b@),
            None => None,
        }),
{
    let opts = options();
    let nodes = parse_nodes(md, &opts);
    analyze_nodes(md, &nodes, base)
}

/// Extracts everything Solidate stores about `md` from `nodes`, the nodes it parsed
/// into (see [`analyze`]). `base` is the document's own path.
pub fn analyze_nodes(md: &str, nodes: &[MdNode], base: Option<&DocPath>) -> (a: Analysis)
    ensures
        a@ == analysis_from(md@, node_views(nodes@), match base {
            Some(b) => Some(b@),
            None => None,
        }),
{
    let heads = assign_anchors(nodes);
    let lines = split_lines(&chars_of(md));
    let sections = build_sections(&lines, &heads);
    let title = document_title(&heads);
    let links = collect_links(nodes, base);
    let incs = collect_includes(nodes);
    let mut includes: Vec<LinkTarget> = Vec::new();
    let mut i: usize = 0;
    while i < incs.len()
        invariant
            0 <= i <= incs@.len(),
            link_views(includes@) == include_targets(include_views(incs@)).take(i as int),
        decreases incs@.len() - i,
    {
        let ghost prev = link_views(includes@);
        let t = incs[i].0.duplicate();
        assert(include_views(incs@)[i as int].0 == t@);
        includes.push(t);
        assert(link_views(includes@) =~= prev.push(t@));
        assert(include_targets(include_views(incs@)).take(i + 1) =~= include_targets(include_views(incs@)).take(
            i as int,
        ).push(t@));
        i += 1;
    }
    assert(include_targets(include_views(incs@)).take(i as int) =~= include_targets(include_views(incs@)));
    Analysis {
        content_hash: crate::hash::Hash::of_str(md),
        semantic_hash: semantic_hash(md),
        title,
        sections,
        links,
        includes,
    }
}

/// The index of the first section anchored at `anchor`, or -1.
pub open spec fn section_index(secs: Seq<SectionView>, anchor: Seq<char>) -> int
    decreases secs.len(),
{
    if secs.len() == 0 {
        -1
    } else if secs[0].anchor == anchor {
        0
    } else {
        let i = section_index(secs.drop_first(), anchor);
        if i < 0 {
            -1
        } else {
            i + 1
        }
    }
}

proof fn lemma_section_index(secs: Seq<SectionView>, anchor: Seq<char>)
    ensures
        -1 <= section_index(secs, anchor) < secs.len(),
        section_index(secs, anchor) >= 0 ==> secs[section_index(secs, anchor)].anchor == anchor,
    decreases secs.len(),
{
    if secs.len() > 0 {
        lemma_section_index(secs.drop_first(), anchor);
    }
}

/// The bodies of the sections from `k` on that lie below a heading of `level`: those
/// up to the next one at `level` or above. A preamble (`level == 0`) has none.
pub open spec fn subsection_bodies(secs: Seq<SectionView>, level: u8, k: int) -> Seq<char>
    decreases secs.len() - k,
{
    if k < 0 || k >= secs.len() || level == 0 || secs[k].level <= level {
        seq![]
    } else {
        secs[k].body + subsection_bodies(secs, level, k + 1)
    }
}

/// The source of the section anchored at `anchor` plus all of its subsections.
pub open spec fn section_tree(secs: Seq<SectionView>, anchor: Seq<char>) -> Option<Seq<char>> {
    let i = section_index(secs, anchor);
    if i < 0 {
        None
    } else {
        Some(secs[i].body + subsection_bodies(secs, secs[i].level, i + 1))
    }
}

impl Analysis {
    fn position(&self, anchor: &str) -> (r: Option<usize>)
        ensures
            match r {
                Some(i) => i == section_index(self@.sections, anchor@) && i < self.sections@.len(),
                None => section_index(self@.sections, anchor@) == -1,
            },
    {
        let ghost sv = self@.sections;
        let mut i: usize = 0;
        assert(sv.skip(0) =~= sv);
        while i < self.sections.len()
            invariant
                0 <= i <= self.sections@.len(),
                sv == self@.sections,
                section_index(sv, anchor@) == if section_index(sv.skip(i as int), anchor@) < 0 {
                    -1
                } else {
                    section_index(sv.skip(i as int), anchor@) + i
                },
            decreases self.sections@.len() - i,
        {
            assert(sv.skip(i as int)[0] == self.sections@[i as int]@);
            if crate::auth::str_eq(self.sections[i].anchor.as_str(), anchor) {
                return Some(i);
            }
            assert(sv.skip(i as int).drop_first() =~= sv.skip(i + 1));
            i += 1;
        }
        assert(sv.skip(i as int) =~= Seq::<SectionView>::empty());
        None
    }

    /// The first section anchored at `anchor`.
    pub fn section(&self, anchor: &str) -> (r: Option<&Section>)
        ensures
            match r {
                Some(s) => section_index(self@.sections, anchor@) >= 0 && s@ == self@.sections[section_index(
                    self@.sections,
                    anchor@,
                )],
                None => section_index(self@.sections, anchor@) == -1,
            },
    {
        match self.position(anchor) {
            Some(i) => Some(&self.sections[i]),
            None => None,
        }
    }

    /// The source of a section plus all of its subsections.
    pub fn section_tree_source(&self, anchor: &str) -> (r: Option<String>)
        ensures
            opt_view_string(r) == section_tree(self@.sections, anchor@),
    {
        let ghost sv = self@.sections;
        let start = match self.position(anchor) {
            Some(i) => i,
            None => return None,
        };
        assert(sv[start as int] == self.sections@[start as int]@);
        let level = self.sections[start].level;
        let mut out = String::from_str(self.sections[start].body.as_str());
        let n = self.sections.len();
        let mut k: usize = start + 1;
        while k < self.sections.len() && level != 0 && self.sections[k].level > level
            invariant
                start < k <= self.sections@.len(),
                sv == self@.sections,
                level == sv[start as int].level,
                out@ + subsection_bodies(sv, level, k as int) == sv[start as int].body + subsection_bodies(
                    sv,
                    level,
                    start + 1,
                ),
            decreases self.sections@.len() - k,
        {
            assert(sv[k as int] == self.sections@[k as int]@);
            let ghost before = out@;
            out.append(self.sections[k].body.as_str());
            assert(before + subsection_bodies(sv, level, k as int) =~= out@ + subsection_bodies(sv, level, k + 1));
            k += 1;
        }
        proof {
            if k < sv.len() {
                assert(sv[k as int] == self.sections@[k as int]@);
            }
            assert(subsection_bodies(sv, level, k as int) == Seq::<char>::empty());
            assert(out@ =~= out@ + Seq::<char>::empty());
        }
        Some(out)
    }
}

/// A heading in a document's outline, for a table of contents.
#[derive(Debug, Clone, PartialEq, Eq)]
pub struct OutlineEntry {
    pub level: u8,
    pub title: String,
    pub anchor: String,
}

/// Rendered HTML plus the heading outline, for a table of contents.
#[derive(Debug, Clone, PartialEq, Eq)]
pub struct Rendered {
    pub html: String,
    pub outline: Vec<OutlineEntry>,
}

/// Every heading of `md` in document order, with its title and anchor: the outline
/// and, in order, the `id`s rendered headings carry.
pub fn heading_outline(md: &str) -> (r: Vec<OutlineEntry>)
    ensures
        r@.len() == headings(comrak_nodes(md@, solidate_options())).len(),
        forall|i: int|
            0 <= i < r@.len() ==> {
                let h = headings(comrak_nodes(md@, solidate_options()))[i];
                &&& (#[trigger] r@[i]).level == h.level
                &&& r@[i].title@ == h.title
                &&& r@[i].anchor@ == h.anchor
            },
{
    let nodes = parse_nodes(md, &options());
    let heads = assign_anchors(&nodes);
    let ghost hv = heading_views(heads@);
    let mut out: Vec<OutlineEntry> = Vec::new();
    let mut i: usize = 0;
    while i < heads.len()
        invariant
            0 <= i <= heads@.len(),
            hv == heading_views(heads@),
            out@.len() == i,
            forall|k: int|
                0 <= k < i ==> {
                    &&& (#[trigger] out@[k]).level == hv[k].level
                    &&& out@[k].title@ == hv[k].title
                    &&& out@[k].anchor@ == hv[k].anchor
                },
        decreases heads@.len() - i,
    {
        let h = &heads[i];
        assert(hv[i as int] == h@);
        out.push(OutlineEntry { level: h.level, title: string_of(&h.title), anchor: string_of(&h.anchor) });
        i += 1;
    }
    out
}

} // verus!
