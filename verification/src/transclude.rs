//! Transclusion: expands `{{include [project:]path[#anchor]}}` directives.
//!
//! Expansion is recursive, with cycle detection and a depth limit. Each included
//! piece is recorded with its hash; [`Expansion::resolved_hash`] folds these into the
//! including document's hash, so upstream changes invalidate dependents.

use vstd::prelude::*;
use vstd::utf8::encode_utf8;

use crate::hash::{hash_of, lemma_hash_view_injective, merkle_root, Merkle};
use crate::links::{opt_view_string, target_text, LinkTarget, LinkView};
use crate::markdown::{
    analysis_of, analyze, comrak_nodes, concat, includes_of, lines_of, link_views, section_tree,
    solidate_options, split_lines, top_level_includes, include_views,
};
use crate::auth::str_eq;
use crate::documents::{include_key, include_key_text};
use crate::path::Slug;
use crate::text::{chars_of, contains_chars, decimal, lemma_views_push, push_decimal, string_of, views};

verus! {

pub const DEFAULT_MAX_DEPTH: usize = 8;

/// Looks up the full source of an include target. The target is fully qualified:
/// `project` is always set.
pub trait IncludeResolver {
    /// The source this resolver holds for `target`, if any.
    spec fn source_of(&self, target: LinkView) -> Option<Seq<char>>;

    /// The targets looked up so far, in order.
    spec fn lookups(&self) -> Seq<LinkView>;

    /// Answers with the source it holds for `target`, keeps holding the same
    /// sources, and records the lookup.
    fn resolve(&mut self, target: &LinkTarget) -> (r: Option<String>)
        ensures
            opt_view_string(r) == old(self).source_of(target@),
            forall|t: LinkView| #[trigger] final(self).source_of(t) == old(self).source_of(t),
            final(self).lookups() == old(self).lookups().push(target@),
    ;
}

/// The source stored under `key`: that of the first entry with that key.
pub open spec fn source_under(entries: Seq<(String, String)>, key: Seq<char>) -> Option<Seq<char>>
    decreases entries.len(),
{
    if entries.len() == 0 {
        None
    } else if entries[0].0@ == key {
        Some(entries[0].1@)
    } else {
        source_under(entries.drop_first(), key)
    }
}

/// A resolver over sources stored under `project:path` keys (see
/// [`crate::documents::include_key`]). It records every target it is asked for.
pub struct SourceMap {
    pub entries: Vec<(String, String)>,
    pub asked: Vec<LinkTarget>,
}

impl SourceMap {
    /// A resolver over `entries`, asked nothing yet.
    pub fn new(entries: Vec<(String, String)>) -> (m: SourceMap)
        ensures
            m.entries@ == entries@,
            m.lookups() == Seq::<LinkView>::empty(),
    {
        let m = SourceMap { entries, asked: Vec::new() };
        assert(link_views(m.asked@) =~= Seq::<LinkView>::empty());
        m
    }

    /// The targets asked for so far, in order.
    pub fn looked_up(&self) -> (r: &Vec<LinkTarget>)
        ensures
            link_views(r@) == self.lookups(),
    {
        &self.asked
    }
}

impl IncludeResolver for SourceMap {
    open spec fn source_of(&self, target: LinkView) -> Option<Seq<char>> {
        source_under(self.entries@, include_key_text(target))
    }

    open spec fn lookups(&self) -> Seq<LinkView> {
        link_views(self.asked@)
    }

    fn resolve(&mut self, target: &LinkTarget) -> (r: Option<String>) {
        let key = include_key(target);
        let mut i: usize = 0;
        let mut found: Option<String> = None;
        assert(self.entries@.skip(0) =~= self.entries@);
        while i < self.entries.len()
            invariant_except_break
                found is None,
                source_under(self.entries@, key@) == source_under(self.entries@.skip(i as int), key@),
            invariant
                0 <= i <= self.entries@.len(),
                self.entries@ == old(self).entries@,
                self.asked@ == old(self).asked@,
                key@ == include_key_text(target@),
            ensures
                opt_view_string(found) == source_under(self.entries@, key@),
            decreases self.entries@.len() - i,
        {
            let ghost rest = self.entries@.skip(i as int);
            assert(rest[0] == self.entries@[i as int]);
            if str_eq(self.entries[i].0.as_str(), key.as_str()) {
                found = Some(self.entries[i].1.clone());
                break;
            }
            assert(rest.drop_first() =~= self.entries@.skip(i + 1));
            i += 1;
        }
        let ghost before = self.asked@;
        self.asked.push(target.duplicate());
        assert(link_views(self.asked@) =~= link_views(before).push(target@));
        found
    }
}

/// One include met during expansion.
#[derive(Debug, Clone, PartialEq, Eq)]
pub struct Dependency {
    pub target: LinkTarget,
    /// Hash of the included text, or `None` if the target couldn't be resolved.
    pub hash: Option<crate::hash::Hash>,
}

pub struct DependencyView {
    pub target: LinkView,
    pub hash: Option<Seq<u8>>,
}

pub open spec fn opt_hash_view(h: Option<crate::hash::Hash>) -> Option<Seq<u8>> {
    match h {
        Some(x) => Some(x@),
        None => None,
    }
}

impl View for Dependency {
    type V = DependencyView;

    open spec fn view(&self) -> DependencyView {
        DependencyView { target: self.target@, hash: opt_hash_view(self.hash) }
    }
}

pub open spec fn dep_views(v: Seq<Dependency>) -> Seq<DependencyView> {
    Seq::new(v.len(), |i: int| v[i]@)
}

/// A document with its includes expanded.
#[derive(Debug, Clone, PartialEq, Eq)]
pub struct Expansion {
    pub text: String,
    /// Every include encountered, including nested ones, in expansion order.
    pub dependencies: Vec<Dependency>,
}

/// The targets one include of the qualified `target` looks up: none for a cycle or
/// at the depth limit, else `target` itself and, when its piece is found, the
/// lookups of that piece's expansion one level deeper.
pub open spec fn step_lookups(
    target: LinkView,
    depth: nat,
    stack: Seq<Seq<char>>,
    source: spec_fn(LinkView) -> Option<Seq<char>>,
) -> Seq<LinkView>
    decreases depth, 0int, 0int,
{
    let key = target_text(target);
    if stack.contains(key) || depth == 0 {
        seq![]
    } else {
        let piece = match source(target) {
            Some(src) => selected(src, target.anchor),
            None => None,
        };
        match piece {
            None => seq![target],
            Some(p) => seq![target] + expansion_lookups(
                p,
                target.project.unwrap(),
                (depth - 1) as nat,
                stack.push(key),
                source,
            ),
        }
    }
}

/// The lookups of the first `k` of the top-level includes `incs`.
pub open spec fn prefix_lookups(
    incs: Seq<(LinkView, (usize, usize))>,
    project: Seq<char>,
    depth: nat,
    stack: Seq<Seq<char>>,
    source: spec_fn(LinkView) -> Option<Seq<char>>,
    k: nat,
) -> Seq<LinkView>
    decreases depth, 0int, k,
{
    if k == 0 || k > incs.len() {
        seq![]
    } else {
        let (t, _) = incs[k - 1];
        prefix_lookups(incs, project, depth, stack, source, (k - 1) as nat) + step_lookups(
            qualified(t, project),
            depth,
            stack,
            source,
        )
    }
}

/// The targets expanding a document with the top-level includes `incs` looks up,
/// in order (see [`expansion_with`]).
pub open spec fn lookups_with(
    incs: Seq<(LinkView, (usize, usize))>,
    project: Seq<char>,
    depth: nat,
    stack: Seq<Seq<char>>,
    source: spec_fn(LinkView) -> Option<Seq<char>>,
) -> Seq<LinkView>
    decreases depth, 1int, 0int,
{
    prefix_lookups(incs, project, depth, stack, source, incs.len())
}

/// The targets expanding `md` looks up, in order (see [`expansion_of`]).
pub open spec fn expansion_lookups(
    md: Seq<char>,
    project: Seq<char>,
    depth: nat,
    stack: Seq<Seq<char>>,
    source: spec_fn(LinkView) -> Option<Seq<char>>,
) -> Seq<LinkView>
    decreases depth, 2int, 0int,
{
    lookups_with(includes_of(comrak_nodes(md, solidate_options())), project, depth, stack, source)
}

proof fn lemma_prefix_no_lookups(
    incs: Seq<(LinkView, (usize, usize))>,
    project: Seq<char>,
    stack: Seq<Seq<char>>,
    source: spec_fn(LinkView) -> Option<Seq<char>>,
    k: nat,
)
    ensures
        prefix_lookups(incs, project, 0, stack, source, k) == Seq::<LinkView>::empty(),
    decreases k,
{
    if k > 0 && k <= incs.len() {
        lemma_prefix_no_lookups(incs, project, stack, source, (k - 1) as nat);
        let (t, _) = incs[k - 1];
        assert(step_lookups(qualified(t, project), 0, stack, source) == Seq::<LinkView>::empty());
        assert(prefix_lookups(incs, project, 0, stack, source, k) =~= Seq::<LinkView>::empty());
    }
}

/// At the depth limit nothing is looked up: every include becomes a notice without
/// the resolver being asked.
pub proof fn lemma_no_lookups_at_depth_limit(
    md: Seq<char>,
    incs: Seq<(LinkView, (usize, usize))>,
    project: Seq<char>,
    stack: Seq<Seq<char>>,
    source: spec_fn(LinkView) -> Option<Seq<char>>,
)
    ensures
        lookups_with(incs, project, 0, stack, source) == Seq::<LinkView>::empty(),
        expansion_lookups(md, project, 0, stack, source) == Seq::<LinkView>::empty(),
{
    lemma_prefix_no_lookups(incs, project, stack, source, incs.len());
    let parsed = includes_of(comrak_nodes(md, solidate_options()));
    lemma_prefix_no_lookups(parsed, project, stack, source, parsed.len());
}

/// `t` with its project defaulted to `project`.
pub open spec fn qualified(t: LinkView, project: Seq<char>) -> LinkView {
    LinkView {
        project: Some(
            match t.project {
                Some(p) => p,
                None => project,
            },
        ),
        path: t.path,
        anchor: t.anchor,
    }
}

/// The quote block that stands in for an include that could not be expanded.
pub open spec fn notice_text(label: Seq<char>, key: Seq<char>) -> Seq<char> {
    "> **"@ + label + ":** `"@ + key + "`\n"@
}

pub open spec fn cycle_label() -> Seq<char> {
    "Include cycle"@
}

pub open spec fn depth_label() -> Seq<char> {
    "Include depth exceeded"@
}

pub open spec fn missing_label() -> Seq<char> {
    "Missing include"@
}

fn notice(label: &str, key: &str) -> (s: String)
    ensures
        s@ == notice_text(label@, key@),
{
    let mut out = String::from_str("> **");
    out.append(label);
    out.append(":** `");
    out.append(key);
    out.append("`\n");
    assert(out@ =~= notice_text(label@, key@));
    out
}

/// Lines `[from, to)` (0-based), both clamped to the document.
pub open spec fn chunk(lines: Seq<Seq<char>>, from: int, to: int) -> Seq<char> {
    let lo = if from < 0 {
        0
    } else if from > lines.len() {
        lines.len() as int
    } else {
        from
    };
    let hi = if to < lo {
        lo
    } else if to > lines.len() {
        lines.len() as int
    } else {
        to
    };
    concat(lines.subrange(lo, hi))
}

/// Appends lines `[from, to)` of `lines`, clamped as [`chunk`] does.
fn push_chunk(out: &mut String, lines: &Vec<Vec<char>>, from: usize, to: usize)
    ensures
        final(out)@ == old(out)@ + chunk(views(lines@), from as int, to as int),
{
    let ghost ls = views(lines@);
    let n = lines.len();
    let lo = if from > n {
        n
    } else {
        from
    };
    let hi = if to < lo {
        lo
    } else if to > n {
        n
    } else {
        to
    };
    let ghost start = out@;
    let mut k: usize = lo;
    assert(ls.subrange(lo as int, lo as int) =~= Seq::<Seq<char>>::empty());
    while k < hi
        invariant
            lo <= k <= hi <= lines@.len(),
            ls == views(lines@),
            out@ == start + concat(ls.subrange(lo as int, k as int)),
        decreases hi - k,
    {
        let piece = string_of(&lines[k]);
        let ghost before = out@;
        out.append(piece.as_str());
        assert(ls.subrange(lo as int, k + 1).drop_last() =~= ls.subrange(lo as int, k as int));
        assert(ls[k as int] == lines@[k as int]@);
        assert(out@ =~= start + concat(ls.subrange(lo as int, k + 1)));
        k += 1;
    }
}

/// The piece of `src` an include takes: all of it, or the section tree at `anchor`.
pub open spec fn selected(src: Seq<char>, anchor: Option<Seq<char>>) -> Option<Seq<char>> {
    match anchor {
        None => Some(src),
        Some(a) => section_tree(analysis_of(src, None).sections, a),
    }
}

fn select(src: &str, anchor: Option<&str>) -> (r: Option<String>)
    ensures
        opt_view_string(r) == selected(src@, match anchor {
            Some(a) => Some(a@),
            None => None,
        }),
{
    match anchor {
        None => Some(String::from_str(src)),
        Some(a) => analyze(src, None).section_tree_source(a),
    }
}

pub open spec fn no_hash(target: LinkView) -> DependencyView {
    DependencyView { target, hash: None }
}

/// What replaces one include of the qualified `target` and the dependencies it
/// records: a notice for a cycle, for the depth limit or for a missing target, else
/// the selected piece, itself expanded one level deeper.
pub open spec fn include_step(
    target: LinkView,
    depth: nat,
    stack: Seq<Seq<char>>,
    source: spec_fn(LinkView) -> Option<Seq<char>>,
) -> (Seq<char>, Seq<DependencyView>)
    decreases depth, 0int, 0int,
{
    let key = target_text(target);
    if stack.contains(key) {
        (notice_text(cycle_label(), key), seq![no_hash(target)])
    } else if depth == 0 {
        (notice_text(depth_label(), key), seq![no_hash(target)])
    } else {
        let piece = match source(target) {
            Some(src) => selected(src, target.anchor),
            None => None,
        };
        match piece {
            None => (notice_text(missing_label(), key), seq![no_hash(target)]),
            Some(p) => {
                let (inner, inner_deps) = expansion_of(
                    p,
                    target.project.unwrap(),
                    (depth - 1) as nat,
                    stack.push(key),
                    source,
                );
                (inner, seq![DependencyView { target, hash: Some(hash_of(encode_utf8(p))) }] + inner_deps)
            },
        }
    }
}

/// `s` ending in a line break.
pub open spec fn with_newline(s: Seq<char>) -> Seq<char> {
    if s.len() > 0 && s.last() == '\n' {
        s
    } else {
        s.push('\n')
    }
}

/// The text and the dependencies of `md` after the first `k` of its top-level
/// includes `incs`, and the 0-based line where the text after them resumes.
pub open spec fn expand_prefix(
    md: Seq<char>,
    incs: Seq<(LinkView, (usize, usize))>,
    project: Seq<char>,
    depth: nat,
    stack: Seq<Seq<char>>,
    source: spec_fn(LinkView) -> Option<Seq<char>>,
    k: nat,
) -> (Seq<char>, Seq<DependencyView>, int)
    decreases depth, 0int, k,
{
    if k == 0 || k > incs.len() {
        (seq![], seq![], 0)
    } else {
        let (out0, deps0, next0) = expand_prefix(md, incs, project, depth, stack, source, (k - 1) as nat);
        let (t, (start, end)) = incs[k - 1];
        let (repl, deps) = include_step(qualified(t, project), depth, stack, source);
        (with_newline(out0 + chunk(lines_of(md), next0, start - 1) + repl), deps0 + deps, end as int)
    }
}

/// The text and the dependencies of `md`, whose top-level includes are `incs`,
/// expanded within `project`, `depth` levels deep, with the include keys of `stack`
/// being expanded already and `source` answering lookups.
pub open spec fn expansion_with(
    md: Seq<char>,
    incs: Seq<(LinkView, (usize, usize))>,
    project: Seq<char>,
    depth: nat,
    stack: Seq<Seq<char>>,
    source: spec_fn(LinkView) -> Option<Seq<char>>,
) -> (Seq<char>, Seq<DependencyView>)
    decreases depth, 1int, 0int,
{
    if incs.len() == 0 {
        (md, seq![])
    } else {
        let lines = lines_of(md);
        let (out, deps, next) = expand_prefix(md, incs, project, depth, stack, source, incs.len());
        (out + chunk(lines, next, lines.len() as int), deps)
    }
}

/// The text and the dependencies of `md` expanded within `project`, `depth` levels
/// deep (see [`expansion_with`]); its top-level includes are those Comrak parses.
pub open spec fn expansion_of(
    md: Seq<char>,
    project: Seq<char>,
    depth: nat,
    stack: Seq<Seq<char>>,
    source: spec_fn(LinkView) -> Option<Seq<char>>,
) -> (Seq<char>, Seq<DependencyView>)
    decreases depth, 2int, 0int,
{
    expansion_with(md, includes_of(comrak_nodes(md, solidate_options())), project, depth, stack, source)
}

/// The text an include of `target` takes from `source`, if it resolves.
pub open spec fn included_piece(target: LinkView, source: spec_fn(LinkView) -> Option<Seq<char>>) -> Option<
    Seq<char>,
> {
    match source(target) {
        Some(src) => selected(src, target.anchor),
        None => None,
    }
}

/// Every hash recorded among `deps` is the hash of the text its include took.
pub open spec fn hashes_included_text(deps: Seq<DependencyView>, source: spec_fn(LinkView) -> Option<Seq<char>>) -> bool {
    forall|k: int|
        0 <= k < deps.len() && (#[trigger] deps[k]).hash is Some ==> included_piece(deps[k].target, source) is Some
            && deps[k].hash == Some(hash_of(encode_utf8(included_piece(deps[k].target, source)->Some_0)))
}

proof fn lemma_hashes_concat(a: Seq<DependencyView>, b: Seq<DependencyView>, source: spec_fn(LinkView) -> Option<Seq<char>>)
    requires
        hashes_included_text(a, source),
        hashes_included_text(b, source),
    ensures
        hashes_included_text(a + b, source),
{
    assert forall|k: int| 0 <= k < (a + b).len() && (#[trigger] (a + b)[k]).hash is Some implies included_piece(
        (a + b)[k].target,
        source,
    ) is Some && (a + b)[k].hash == Some(hash_of(encode_utf8(included_piece((a + b)[k].target, source)->Some_0))) by {
        if k < a.len() {
            assert((a + b)[k] == a[k]);
        } else {
            assert((a + b)[k] == b[k - a.len()]);
        }
    }
}

proof fn lemma_step_hashes(
    target: LinkView,
    depth: nat,
    stack: Seq<Seq<char>>,
    source: spec_fn(LinkView) -> Option<Seq<char>>,
)
    ensures
        hashes_included_text(include_step(target, depth, stack, source).1, source),
    decreases depth, 0int, 0int,
{
    let key = target_text(target);
    if !stack.contains(key) && depth > 0 {
        match included_piece(target, source) {
            Some(p) => {
                let inner = expansion_of(p, target.project.unwrap(), (depth - 1) as nat, stack.push(key), source);
                lemma_expansion_hashes(p, target.project.unwrap(), (depth - 1) as nat, stack.push(key), source);
                let head = seq![DependencyView { target, hash: Some(hash_of(encode_utf8(p))) }];
                assert(hashes_included_text(head, source)) by {
                    assert forall|k: int| 0 <= k < head.len() && (#[trigger] head[k]).hash is Some implies included_piece(
                        head[k].target,
                        source,
                    ) is Some && head[k].hash == Some(hash_of(encode_utf8(included_piece(head[k].target, source)->Some_0))) by {
                        assert(head[k].target == target);
                    }
                }
                lemma_hashes_concat(head, inner.1, source);
            },
            None => {},
        }
    }
}

proof fn lemma_prefix_hashes(
    md: Seq<char>,
    incs: Seq<(LinkView, (usize, usize))>,
    project: Seq<char>,
    depth: nat,
    stack: Seq<Seq<char>>,
    source: spec_fn(LinkView) -> Option<Seq<char>>,
    k: nat,
)
    ensures
        hashes_included_text(expand_prefix(md, incs, project, depth, stack, source, k).1, source),
    decreases depth, 0int, k,
{
    if k > 0 && k <= incs.len() {
        lemma_prefix_hashes(md, incs, project, depth, stack, source, (k - 1) as nat);
        let (t, _) = incs[k - 1];
        lemma_step_hashes(qualified(t, project), depth, stack, source);
        lemma_hashes_concat(
            expand_prefix(md, incs, project, depth, stack, source, (k - 1) as nat).1,
            include_step(qualified(t, project), depth, stack, source).1,
            source,
        );
    }
}

proof fn lemma_expansion_with_hashes(
    md: Seq<char>,
    incs: Seq<(LinkView, (usize, usize))>,
    project: Seq<char>,
    depth: nat,
    stack: Seq<Seq<char>>,
    source: spec_fn(LinkView) -> Option<Seq<char>>,
)
    ensures
        hashes_included_text(expansion_with(md, incs, project, depth, stack, source).1, source),
    decreases depth, 1int, 0int,
{
    if incs.len() > 0 {
        lemma_prefix_hashes(md, incs, project, depth, stack, source, incs.len());
    }
}

proof fn lemma_expansion_hashes(
    md: Seq<char>,
    project: Seq<char>,
    depth: nat,
    stack: Seq<Seq<char>>,
    source: spec_fn(LinkView) -> Option<Seq<char>>,
)
    ensures
        hashes_included_text(expansion_of(md, project, depth, stack, source).1, source),
    decreases depth, 2int, 0int,
{
    lemma_expansion_with_hashes(md, includes_of(comrak_nodes(md, solidate_options())), project, depth, stack, source);
}

/// An include that resolves, outside a cycle and within the depth limit, records
/// its target first, with the hash of the text it took; one that cannot be
/// expanded records its target first, without a hash.
pub proof fn lemma_include_records_its_text(
    target: LinkView,
    depth: nat,
    stack: Seq<Seq<char>>,
    source: spec_fn(LinkView) -> Option<Seq<char>>,
)
    ensures
        include_step(target, depth, stack, source).1.len() >= 1,
        include_step(target, depth, stack, source).1[0].target == target,
        !stack.contains(target_text(target)) && depth > 0 && included_piece(target, source) is Some
            ==> include_step(target, depth, stack, source).1[0].hash == Some(
            hash_of(encode_utf8(included_piece(target, source)->Some_0)),
        ),
        stack.contains(target_text(target)) || depth == 0 || included_piece(target, source) is None
            ==> include_step(target, depth, stack, source).1[0].hash is None,
{
}

/// Each dependency an expansion records with a hash carries the hash of the text
/// its include took: the source found for its target, narrowed to the anchored
/// section when the target names one, before that text's own includes are
/// expanded. This holds at every depth, for nested includes too.
pub proof fn lemma_dependency_hashes_cover_included_text(
    md: Seq<char>,
    incs: Seq<(LinkView, (usize, usize))>,
    project: Seq<char>,
    depth: nat,
    stack: Seq<Seq<char>>,
    source: spec_fn(LinkView) -> Option<Seq<char>>,
)
    ensures
        forall|k: int|
            0 <= k < expansion_of(md, project, depth, stack, source).1.len() && (#[trigger] expansion_of(
                md,
                project,
                depth,
                stack,
                source,
            ).1[k]).hash is Some ==> ({
                let d = expansion_of(md, project, depth, stack, source).1[k];
                &&& source(d.target) is Some
                &&& selected(source(d.target)->Some_0, d.target.anchor) is Some
                &&& d.hash == Some(hash_of(encode_utf8(selected(source(d.target)->Some_0, d.target.anchor)->Some_0)))
            }),
        forall|k: int|
            0 <= k < expansion_with(md, incs, project, depth, stack, source).1.len() && (#[trigger] expansion_with(
                md,
                incs,
                project,
                depth,
                stack,
                source,
            ).1[k]).hash is Some ==> ({
                let d = expansion_with(md, incs, project, depth, stack, source).1[k];
                &&& source(d.target) is Some
                &&& selected(source(d.target)->Some_0, d.target.anchor) is Some
                &&& d.hash == Some(hash_of(encode_utf8(selected(source(d.target)->Some_0, d.target.anchor)->Some_0)))
            }),
{
    lemma_expansion_hashes(md, project, depth, stack, source);
    lemma_expansion_with_hashes(md, incs, project, depth, stack, source);
}

/// `t` with its project defaulted to `project`.
fn qualify(t: &LinkTarget, project: &Slug) -> (q: LinkTarget)
    ensures
        q@ == qualified(t@, project@),
{
    let d = t.duplicate();
    LinkTarget {
        project: Some(
            match d.project {
                Some(p) => p,
                None => project.duplicate(),
            },
        ),
        path: d.path,
        anchor: d.anchor,
    }
}

fn append_dependency(deps: &mut Vec<Dependency>, target: LinkTarget, hash: Option<crate::hash::Hash>)
    ensures
        dep_views(final(deps)@) == dep_views(old(deps)@).push(DependencyView { target: target@, hash: opt_hash_view(hash) }),
{
    let ghost before = dep_views(deps@);
    deps.push(Dependency { target, hash });
    assert(dep_views(deps@) =~= before.push(deps@.last()@));
}

fn expand_one<R: IncludeResolver>(
    target: LinkTarget,
    resolver: &mut R,
    depth_left: usize,
    stack: &mut Vec<Vec<char>>,
    deps: &mut Vec<Dependency>,
    Ghost(source): Ghost<spec_fn(LinkView) -> Option<Seq<char>>>,
) -> (r: String)
    requires
        forall|t: LinkView| #[trigger] old(resolver).source_of(t) == source(t),
        target@.project is Some,
    ensures
        forall|t: LinkView| #[trigger] final(resolver).source_of(t) == source(t),
        views(final(stack)@) == views(old(stack)@),
        r@ == include_step(target@, depth_left as nat, views(old(stack)@), source).0,
        dep_views(final(deps)@) == dep_views(old(deps)@) + include_step(
            target@,
            depth_left as nat,
            views(old(stack)@),
            source,
        ).1,
        final(resolver).lookups() == old(resolver).lookups() + step_lookups(
            target@,
            depth_left as nat,
            views(old(stack)@),
            source,
        ),
    decreases depth_left, 0int,
{
    let ghost st = views(stack@);
    let ghost d0 = dep_views(deps@);
    let ghost tv = target@;
    let ghost l0 = resolver.lookups();
    let key = target.to_string();
    let key_chars = chars_of(key.as_str());
    if contains_chars(stack, &key_chars) {
        append_dependency(deps, target, None);
        assert(dep_views(deps@) =~= d0 + seq![no_hash(tv)]);
        assert(resolver.lookups() =~= l0 + Seq::<LinkView>::empty());
        return notice("Include cycle", key.as_str());
    }
    if depth_left == 0 {
        append_dependency(deps, target, None);
        assert(dep_views(deps@) =~= d0 + seq![no_hash(tv)]);
        assert(resolver.lookups() =~= l0 + Seq::<LinkView>::empty());
        return notice("Include depth exceeded", key.as_str());
    }
    let found = resolver.resolve(&target);
    let piece = match found {
        Some(src) => select(src.as_str(), match &target.anchor {
            Some(a) => Some(a.as_str()),
            None => None,
        }),
        None => None,
    };
    match piece {
        None => {
            append_dependency(deps, target, None);
            assert(dep_views(deps@) =~= d0 + seq![no_hash(tv)]);
            assert(resolver.lookups() =~= l0 + seq![tv]);
            notice("Missing include", key.as_str())
        },
        Some(p) => {
            let inner_project = match &target.project {
                Some(pr) => pr.duplicate(),
                None => return String::new(),
            };
            let h = crate::hash::Hash::of_str(p.as_str());
            append_dependency(deps, target, Some(h));
            let ghost d1 = dep_views(deps@);
            let ghost s0 = stack@;
            stack.push(key_chars);
            proof {
                lemma_views_push(s0, key_chars);
            }
            let expanded = expand(p.as_str(), &inner_project, resolver, depth_left - 1, stack, deps, Ghost(source));
            let ghost sb = stack@;
            stack.pop();
            assert(views(stack@) =~= views(sb).drop_last());
            assert(views(sb).drop_last() =~= st);
            assert(dep_views(deps@) =~= d0 + (seq![DependencyView { target: tv, hash: Some(h@) }] + expansion_of(
                p@,
                tv.project.unwrap(),
                (depth_left - 1) as nat,
                st.push(key@),
                source,
            ).1));
            assert(resolver.lookups() =~= l0 + (seq![tv] + expansion_lookups(
                p@,
                tv.project.unwrap(),
                (depth_left - 1) as nat,
                st.push(key@),
                source,
            )));
            expanded
        },
    }
}

fn expand<R: IncludeResolver>(
    md: &str,
    project: &Slug,
    resolver: &mut R,
    depth_left: usize,
    stack: &mut Vec<Vec<char>>,
    deps: &mut Vec<Dependency>,
    Ghost(source): Ghost<spec_fn(LinkView) -> Option<Seq<char>>>,
) -> (r: String)
    requires
        forall|t: LinkView| #[trigger] old(resolver).source_of(t) == source(t),
    ensures
        forall|t: LinkView| #[trigger] final(resolver).source_of(t) == source(t),
        views(final(stack)@) == views(old(stack)@),
        r@ == expansion_of(md@, project@, depth_left as nat, views(old(stack)@), source).0,
        dep_views(final(deps)@) == dep_views(old(deps)@) + expansion_of(
            md@,
            project@,
            depth_left as nat,
            views(old(stack)@),
            source,
        ).1,
        final(resolver).lookups() == old(resolver).lookups() + expansion_lookups(
            md@,
            project@,
            depth_left as nat,
            views(old(stack)@),
            source,
        ),
    decreases depth_left, 2int,
{
    let includes = top_level_includes(md);
    expand_listed(md, &includes, project, resolver, depth_left, stack, deps, Ghost(source))
}

fn expand_listed<R: IncludeResolver>(
    md: &str,
    includes: &[(LinkTarget, (usize, usize))],
    project: &Slug,
    resolver: &mut R,
    depth_left: usize,
    stack: &mut Vec<Vec<char>>,
    deps: &mut Vec<Dependency>,
    Ghost(source): Ghost<spec_fn(LinkView) -> Option<Seq<char>>>,
) -> (r: String)
    requires
        forall|t: LinkView| #[trigger] old(resolver).source_of(t) == source(t),
    ensures
        forall|t: LinkView| #[trigger] final(resolver).source_of(t) == source(t),
        views(final(stack)@) == views(old(stack)@),
        r@ == expansion_with(md@, include_views(includes@), project@, depth_left as nat, views(old(stack)@), source).0,
        dep_views(final(deps)@) == dep_views(old(deps)@) + expansion_with(
            md@,
            include_views(includes@),
            project@,
            depth_left as nat,
            views(old(stack)@),
            source,
        ).1,
        final(resolver).lookups() == old(resolver).lookups() + lookups_with(
            include_views(includes@),
            project@,
            depth_left as nat,
            views(old(stack)@),
            source,
        ),
    decreases depth_left, 1int,
{
    let ghost st = views(stack@);
    let ghost d0 = dep_views(deps@);
    let ghost l0 = resolver.lookups();
    let ghost incs = include_views(includes@);
    if includes.len() == 0 {
        assert(dep_views(deps@) =~= d0 + Seq::<DependencyView>::empty());
        assert(resolver.lookups() =~= l0 + Seq::<LinkView>::empty());
        return String::from_str(md);
    }
    let lines = split_lines(&chars_of(md));
    let ghost ls = lines_of(md@);
    let mut out = String::new();
    let mut next: usize = 0;
    let mut i: usize = 0;
    assert(out@ =~= Seq::<char>::empty());
    assert(dep_views(deps@) =~= d0 + Seq::<DependencyView>::empty());
    assert(resolver.lookups() =~= l0 + Seq::<LinkView>::empty());
    while i < includes.len()
        invariant
            0 <= i <= includes@.len(),
            include_views(includes@) == incs,
            views(lines@) == ls,
            ls == lines_of(md@),
            views(stack@) == st,
            forall|t: LinkView| #[trigger] resolver.source_of(t) == source(t),
            out@ == expand_prefix(md@, incs, project@, depth_left as nat, st, source, i as nat).0,
            dep_views(deps@) == d0 + expand_prefix(md@, incs, project@, depth_left as nat, st, source, i as nat).1,
            next as int == expand_prefix(md@, incs, project@, depth_left as nat, st, source, i as nat).2,
            resolver.lookups() == l0 + prefix_lookups(incs, project@, depth_left as nat, st, source, i as nat),
        decreases includes@.len() - i,
    {
        let ghost pre = expand_prefix(md@, incs, project@, depth_left as nat, st, source, i as nat);
        let raw = &includes[i].0;
        let (start, end) = includes[i].1;
        assert(incs[i as int] == (raw@, (start, end)));
        let to = if start == 0 {
            0
        } else {
            start - 1
        };
        push_chunk(&mut out, &lines, next, to);
        assert(chunk(ls, next as int, to as int) == chunk(ls, next as int, start - 1));
        let target = qualify(raw, project);
        let replacement = expand_one(target, resolver, depth_left, stack, deps, Ghost(source));
        out.append(replacement.as_str());
        let ghost joined = out@;
        let n = out.as_str().unicode_len();
        if n == 0 || out.as_str().get_char(n - 1) != '\n' {
            out.append("\n");
            proof {
                reveal_strlit("\n");
            }
            assert(out@ =~= joined.push('\n'));
        }
        assert(out@ =~= with_newline(pre.0 + chunk(ls, next as int, start - 1) + replacement@));
        assert(dep_views(deps@) =~= d0 + (pre.1 + include_step(qualified(raw@, project@), depth_left as nat, st, source).1));
        assert(resolver.lookups() =~= l0 + (prefix_lookups(incs, project@, depth_left as nat, st, source, i as nat)
            + step_lookups(qualified(raw@, project@), depth_left as nat, st, source)));
        next = end;
        i += 1;
    }
    push_chunk(&mut out, &lines, next, lines.len());
    out
}

/// A document without top-level includes expands to itself, with no dependencies.
pub proof fn lemma_no_includes_unchanged(
    md: Seq<char>,
    project: Seq<char>,
    depth: nat,
    stack: Seq<Seq<char>>,
    source: spec_fn(LinkView) -> Option<Seq<char>>,
)
    requires
        includes_of(comrak_nodes(md, solidate_options())).len() == 0,
    ensures
        expansion_of(md, project, depth, stack, source) == (md, Seq::<DependencyView>::empty()),
{
}

proof fn lemma_prefix_records(
    md: Seq<char>,
    incs: Seq<(LinkView, (usize, usize))>,
    project: Seq<char>,
    depth: nat,
    stack: Seq<Seq<char>>,
    source: spec_fn(LinkView) -> Option<Seq<char>>,
    k: nat,
)
    ensures
        k <= incs.len() ==> expand_prefix(md, incs, project, depth, stack, source, k).1.len() >= k,
    decreases k,
{
    if k > 0 && k <= incs.len() {
        lemma_prefix_records(md, incs, project, depth, stack, source, (k - 1) as nat);
        let (t, (start, end)) = incs[k - 1];
        let step = include_step(qualified(t, project), depth, stack, source);
        assert(step.1.len() >= 1);
    }
}

/// Every top-level include is recorded as a dependency, resolved or not: there are
/// at least as many dependencies as top-level includes.
pub proof fn lemma_includes_recorded(
    md: Seq<char>,
    project: Seq<char>,
    depth: nat,
    stack: Seq<Seq<char>>,
    source: spec_fn(LinkView) -> Option<Seq<char>>,
)
    ensures
        expansion_of(md, project, depth, stack, source).1.len() >= includes_of(
            comrak_nodes(md, solidate_options()),
        ).len(),
{
    let incs = includes_of(comrak_nodes(md, solidate_options()));
    lemma_prefix_records(md, incs, project, depth, stack, source, incs.len());
}

/// Expands includes in `md`. `project` is the slug of the including document's
/// project, which unqualified targets resolve against.
pub fn expand_includes<R: IncludeResolver>(md: &str, project: &Slug, resolver: &mut R, max_depth: usize) -> (e: Expansion)
    ensures
        e.text@ == expansion_of(md@, project@, max_depth as nat, seq![], |t: LinkView| old(resolver).source_of(t)).0,
        dep_views(e.dependencies@) == expansion_of(
            md@,
            project@,
            max_depth as nat,
            seq![],
            |t: LinkView| old(resolver).source_of(t),
        ).1,
        forall|t: LinkView| #[trigger] final(resolver).source_of(t) == old(resolver).source_of(t),
        final(resolver).lookups() == old(resolver).lookups() + expansion_lookups(
            md@,
            project@,
            max_depth as nat,
            seq![],
            |t: LinkView| old(resolver).source_of(t),
        ),
{
    let includes = top_level_includes(md);
    expand_listed_includes(md, &includes, project, resolver, max_depth)
}

/// Expands includes in `md`, whose top-level include directives are `includes`:
/// each target with the 1-based lines its directive spans (see [`expand_includes`]).
pub fn expand_listed_includes<R: IncludeResolver>(
    md: &str,
    includes: &[(LinkTarget, (usize, usize))],
    project: &Slug,
    resolver: &mut R,
    max_depth: usize,
) -> (e: Expansion)
    ensures
        e.text@ == expansion_with(
            md@,
            include_views(includes@),
            project@,
            max_depth as nat,
            seq![],
            |t: LinkView| old(resolver).source_of(t),
        ).0,
        dep_views(e.dependencies@) == expansion_with(
            md@,
            include_views(includes@),
            project@,
            max_depth as nat,
            seq![],
            |t: LinkView| old(resolver).source_of(t),
        ).1,
        forall|t: LinkView| #[trigger] final(resolver).source_of(t) == old(resolver).source_of(t),
        final(resolver).lookups() == old(resolver).lookups() + lookups_with(
            include_views(includes@),
            project@,
            max_depth as nat,
            seq![],
            |t: LinkView| old(resolver).source_of(t),
        ),
{
    let ghost source = |t: LinkView| resolver.source_of(t);
    let mut deps: Vec<Dependency> = Vec::new();
    let mut stack: Vec<Vec<char>> = Vec::new();
    assert(views(stack@) =~= Seq::<Seq<char>>::empty());
    let text = expand_listed(md, includes, project, resolver, max_depth, &mut stack, &mut deps, Ghost(source));
    assert(dep_views(deps@) =~= Seq::<DependencyView>::empty() + expansion_with(
        md@,
        include_views(includes@),
        project@,
        max_depth as nat,
        seq![],
        source,
    ).1);
    Expansion { text, dependencies: deps }
}

/// The Merkle key of the `i`-th dependency: `i:target`.
pub open spec fn dependency_key(i: nat, target: LinkView) -> Seq<char> {
    decimal(i) + seq![':'] + target_text(target)
}

/// The hash folded in for a dependency: its own, or the hash of the empty text.
pub open spec fn dependency_hash(d: DependencyView) -> Seq<u8> {
    match d.hash {
        Some(h) => h,
        None => hash_of(encode_utf8(seq![])),
    }
}

/// The hash whose bytes are `v`.
pub open spec fn hash_with_bytes(v: Seq<u8>) -> crate::hash::Hash {
    choose|h: crate::hash::Hash| h@ == v
}

/// The Merkle entries of an expansion: the source under the empty key, then each
/// dependency under its key.
pub open spec fn resolved_entries(source: crate::hash::Hash, deps: Seq<DependencyView>) -> Map<
    Seq<char>,
    crate::hash::Hash,
>
    decreases deps.len(),
{
    if deps.len() == 0 {
        map![Seq::<char>::empty() => source]
    } else {
        resolved_entries(source, deps.drop_last()).insert(
            dependency_key((deps.len() - 1) as nat, deps.last().target),
            hash_with_bytes(dependency_hash(deps.last())),
        )
    }
}

/// What [`Expansion::resolved_hash`] returns.
pub open spec fn resolved_hash_of(source: crate::hash::Hash, deps: Seq<DependencyView>) -> Seq<u8> {
    if deps.len() == 0 {
        source@
    } else {
        merkle_root(resolved_entries(source, deps))
    }
}

impl Expansion {
    /// Combines the source's content hash with every dependency's hash.
    pub fn resolved_hash(&self, source: crate::hash::Hash) -> (h: crate::hash::Hash)
        ensures
            h@ == resolved_hash_of(source, dep_views(self.dependencies@)),
    {
        if self.dependencies.len() == 0 {
            return source;
        }
        let ghost dv = dep_views(self.dependencies@);
        let mut m = Merkle::new();
        m.insert(String::new(), source);
        assert(m@ =~= map![Seq::<char>::empty() => source]);
        let empty = crate::hash::Hash::of_str("");
        proof {
            reveal_strlit("");
        }
        let mut i: usize = 0;
        assert(dv.take(0) =~= Seq::<DependencyView>::empty());
        while i < self.dependencies.len()
            invariant
                0 <= i <= self.dependencies@.len(),
                dv == dep_views(self.dependencies@),
                empty@ == hash_of(encode_utf8(seq![])),
                m@ == resolved_entries(source, dv.take(i as int)),
            decreases self.dependencies@.len() - i,
        {
            let d = &self.dependencies[i];
            assert(dv.take(i + 1).drop_last() =~= dv.take(i as int));
            assert(dv.take(i + 1).last() == d@);
            let mut key: Vec<char> = Vec::new();
            push_decimal(&mut key, i as u64);
            key.push(':');
            let t = chars_of(d.target.to_string().as_str());
            let mut j: usize = 0;
            let ghost head = key@;
            while j < t.len()
                invariant
                    0 <= j <= t@.len(),
                    key@ == head + t@.take(j as int),
                decreases t@.len() - j,
            {
                key.push(t[j]);
                j += 1;
                assert(key@ =~= head + t@.take(j as int));
            }
            assert(t@.take(j as int) =~= t@);
            assert(key@ =~= dependency_key(i as nat, d@.target));
            let h = match d.hash {
                Some(h) => h,
                None => empty,
            };
            proof {
                let w = hash_with_bytes(dependency_hash(d@));
                assert(h@ == dependency_hash(d@));
                lemma_hash_view_injective(w, h);
            }
            m.insert(string_of(&key), h);
            i += 1;
        }
        assert(dv.take(i as int) =~= dv);
        m.finish()
    }
}

} // verus!
