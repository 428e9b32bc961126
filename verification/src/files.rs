//! Mapping between Markdown files on disk and document variants.
//!
//! `dir/name.md` is the human variant of `dir/name`; `dir/name.ai.md` is its AI variant.
//! Paths are handled as text with `/` separators; `\` is read as `/`.

use vstd::prelude::*;

use crate::path::{parse_path, DocPath, PathFault};
use crate::sync::Variant;
use crate::auth::str_eq;
use crate::text::{
    chars_of, compare_chars, copy_range, ends_with, has_suffix, lemma_seq_lt_asym, lemma_seq_lt_irreflexive,
    lemma_seq_lt_trans, seq_lt, string_of,
};

verus! {

/// `s` with every `\` turned into `/`.
pub open spec fn forward_slashes(s: Seq<char>) -> Seq<char> {
    Seq::new(s.len(), |i: int| if s[i] == '\\' { '/' } else { s[i] })
}

pub open spec fn md_ext() -> Seq<char> {
    seq!['.', 'm', 'd']
}

pub open spec fn ai_ext() -> Seq<char> {
    seq!['.', 'a', 'i']
}

/// The document and variant a file at `rel` holds, if any.
pub open spec fn doc_file(rel: Seq<char>) -> Option<(Seq<char>, Variant)> {
    let s = forward_slashes(rel);
    if !ends_with(s, md_ext()) {
        None
    } else {
        let stem = s.take(s.len() - 3);
        let (base, variant) = if ends_with(stem, ai_ext()) {
            (stem.take(stem.len() - 3), Variant::Ai)
        } else {
            (stem, Variant::Human)
        };
        match parse_path(base) {
            Ok(p) => Some((p, variant)),
            Err(_) => None,
        }
    }
}

/// Maps a file path relative to the import root. Returns `None` for non-Markdown
/// files and paths that are not valid document paths.
pub fn doc_for_file(rel: &str) -> (r: Option<(DocPath, Variant)>)
    ensures
        match r {
            Some((p, v)) => doc_file(rel@) == Some((p@, v)),
            None => doc_file(rel@) is None,
        },
{
    let raw = chars_of(rel);
    let mut s: Vec<char> = Vec::new();
    let mut i: usize = 0;
    while i < raw.len()
        invariant
            0 <= i <= raw@.len(),
            raw@ == rel@,
            s@ == forward_slashes(raw@).take(i as int),
        decreases raw@.len() - i,
    {
        let c = raw[i];
        s.push(if c == '\\' { '/' } else { c });
        i += 1;
        assert(s@ =~= forward_slashes(raw@).take(i as int));
    }
    assert(forward_slashes(raw@).take(i as int) =~= forward_slashes(raw@));
    let md = ['.', 'm', 'd'];
    let ai = ['.', 'a', 'i'];
    assert(md@ =~= md_ext());
    assert(ai@ =~= ai_ext());
    if !has_suffix(&s, &md) {
        return None;
    }
    let stem = copy_range(&s, 0, s.len() - 3);
    let (base, variant) = if has_suffix(&stem, &ai) {
        (copy_range(&stem, 0, stem.len() - 3), Variant::Ai)
    } else {
        (stem, Variant::Human)
    };
    match DocPath::parse(string_of(&base).as_str()) {
        Ok(p) => Some((p, variant)),
        Err(_) => None,
    }
}

/// `rel` placed under `root`, as `Path::join` does for a relative `rel` on Unix: a
/// `/` goes between them unless `root` is empty or already ends with one.
pub open spec fn joined(root: Seq<char>, rel: Seq<char>) -> Seq<char> {
    if root.len() > 0 && root.last() != '/' {
        root + seq!['/'] + rel
    } else {
        root + rel
    }
}

pub open spec fn variant_suffix(v: Variant) -> Seq<char> {
    match v {
        Variant::Human => md_ext(),
        Variant::Ai => ai_ext() + md_ext(),
    }
}

/// The file under `root` that holds `variant` of `path`.
pub fn file_for_doc(root: &str, path: &DocPath, variant: Variant) -> (r: String)
    ensures
        r@ == joined(root@, path@ + variant_suffix(variant)),
{
    let mut out = String::from_str(root);
    let r = chars_of(root);
    if r.len() > 0 && r[r.len() - 1] != '/' {
        out.append("/");
    }
    out.append(path.as_str());
    match variant {
        Variant::Human => out.append(".md"),
        Variant::Ai => out.append(".ai.md"),
    }
    proof {
        reveal_strlit("/");
        reveal_strlit(".md");
        reveal_strlit(".ai.md");
    }
    assert(out@ =~= joined(root@, path@ + variant_suffix(variant)));
    out
}

/// A document maps to its file and back: the file of variant `v` of `p`, under any
/// root, holds `p` and `v` again. `p` must not end in `.md` (parsing drops that
/// suffix) nor in `.ai` (the human file of `x.ai` reads as the AI variant of `x`).
pub proof fn lemma_file_round_trip(p: Seq<char>, v: Variant)
    requires
        crate::path::valid_path(p),
        !ends_with(p, md_ext()),
        !ends_with(p, ai_ext()),
    ensures
        doc_file(p + variant_suffix(v)) == Some((p, v)),
        joined(seq![], p + variant_suffix(v)) == p + variant_suffix(v),
{
    crate::path::lemma_valid_segments(p);
    crate::path::lemma_path_reparses(p);
    let f = p + variant_suffix(v);
    assert forall|i: int| 0 <= i < f.len() implies f[i] != '\\' by {
        if i < p.len() {
            assert(f[i] == p[i]);
        }
    }
    assert(forward_slashes(f) =~= f);
    assert(f.skip(f.len() - 3) =~= md_ext());
    let stem = f.take(f.len() - 3);
    match v {
        Variant::Human => {
            assert(stem =~= p);
        },
        Variant::Ai => {
            assert(stem =~= p + ai_ext());
            assert(stem.skip(stem.len() - 3) =~= ai_ext());
            assert(stem.take(stem.len() - 3) =~= p);
        },
    }
}

} // verus!

verus! {

/// What orders a file in an import: its document's path and variant.
pub open spec fn import_key(f: (DocPath, Variant)) -> (Seq<char>, Variant) {
    (f.0@, f.1)
}

/// Whether a file keyed `a` is imported before one keyed `b`: human variants come
/// first, and within a variant paths go in `String` order.
pub open spec fn imported_before(a: (Seq<char>, Variant), b: (Seq<char>, Variant)) -> bool {
    ||| a.1 == Variant::Human && b.1 == Variant::Ai
    ||| a.1 == b.1 && seq_lt(a.0, b.0)
}

proof fn lemma_imported_before(a: (Seq<char>, Variant), b: (Seq<char>, Variant), c: (Seq<char>, Variant))
    ensures
        !imported_before(a, a),
        imported_before(a, b) ==> !imported_before(b, a),
        imported_before(a, b) && imported_before(b, c) ==> imported_before(a, c),
{
    lemma_seq_lt_irreflexive(a.0);
    lemma_seq_lt_asym(a.0, b.0);
    if imported_before(a, b) && imported_before(b, c) && a.1 == b.1 && b.1 == c.1 {
        lemma_seq_lt_trans(a.0, b.0, c.0);
    }
}

/// `order` lists each index of `files` once, in import order: no file comes after
/// one it is imported before, and files with the same key keep their order.
pub open spec fn is_import_order(files: Seq<(DocPath, Variant)>, order: Seq<usize>) -> bool {
    &&& order.len() == files.len()
    &&& forall|i: int| 0 <= i < order.len() ==> #[trigger] order[i] < files.len()
    &&& forall|i: int, j: int| 0 <= i < j < order.len() ==> #[trigger] order[i] != #[trigger] order[j]
    &&& forall|i: int, j: int|
        0 <= i < j < order.len() ==> !imported_before(
            import_key(files[#[trigger] order[j] as int]),
            import_key(files[#[trigger] order[i] as int]),
        )
    &&& forall|i: int, j: int|
        0 <= i < j < order.len() && import_key(files[#[trigger] order[i] as int]) == import_key(
            files[#[trigger] order[j] as int],
        ) ==> order[i] < order[j]
}

fn before(a: &(DocPath, Variant), b: &(DocPath, Variant)) -> (r: bool)
    ensures
        r == imported_before(import_key(*a), import_key(*b)),
{
    match (a.1, b.1) {
        (Variant::Human, Variant::Ai) => true,
        (Variant::Ai, Variant::Human) => false,
        _ => compare_chars(&chars_of(a.0.as_str()), &chars_of(b.0.as_str())) < 0,
    }
}

/// The order in which to import `files`: the indices of `files`, human variants
/// first and then by path, as a stable sort on `(variant, path)` gives them.
pub fn import_order(files: &[(DocPath, Variant)]) -> (order: Vec<usize>)
    ensures
        is_import_order(files@, order@),
{
    let ghost fs = files@;
    let mut order: Vec<usize> = Vec::new();
    let mut i: usize = 0;
    while i < files.len()
        invariant
            0 <= i <= files@.len(),
            fs == files@,
            order@.len() == i,
            forall|a: int| 0 <= a < order@.len() ==> #[trigger] order@[a] < i,
            forall|a: int, b: int| 0 <= a < b < order@.len() ==> #[trigger] order@[a] != #[trigger] order@[b],
            forall|a: int, b: int|
                0 <= a < b < order@.len() ==> !imported_before(
                    import_key(fs[#[trigger] order@[b] as int]),
                    import_key(fs[#[trigger] order@[a] as int]),
                ),
            forall|a: int, b: int|
                0 <= a < b < order@.len() && import_key(fs[#[trigger] order@[a] as int]) == import_key(
                    fs[#[trigger] order@[b] as int],
                ) ==> order@[a] < order@[b],
        decreases files@.len() - i,
    {
        let mut p: usize = 0;
        while p < order.len() && !before(&files[i], &files[order[p]])
            invariant
                0 <= p <= order@.len(),
                i < files@.len(),
                fs == files@,
                forall|a: int| 0 <= a < order@.len() ==> #[trigger] order@[a] < i,
                forall|q: int|
                    0 <= q < p ==> !imported_before(
                        import_key(fs[i as int]),
                        import_key(fs[#[trigger] order@[q] as int]),
                    ),
            decreases order@.len() - p,
        {
            p += 1;
        }
        let ghost old_order = order@;
        let ghost ki = import_key(fs[i as int]);
        proof {
            if p < old_order.len() {
                assert(imported_before(ki, import_key(fs[old_order[p as int] as int])));
            }
        }
        order.insert(p, i);
        assert(order@ =~= old_order.insert(p as int, i));
        proof {
            assert forall|a: int, b: int| 0 <= a < b < order@.len() implies !imported_before(
                import_key(fs[#[trigger] order@[b] as int]),
                import_key(fs[#[trigger] order@[a] as int]),
            ) && (import_key(fs[order@[a] as int]) == import_key(fs[order@[b] as int]) ==> order@[a] < order@[b]) by {
                let x = import_key(fs[order@[a] as int]);
                let y = import_key(fs[order@[b] as int]);
                lemma_imported_before(x, y, x);
                if b < p {
                    assert(order@[a] == old_order[a]);
                    assert(order@[b] == old_order[b]);
                } else if b == p {
                    assert(order@[a] == old_order[a]);
                    assert(order@[b] == i);
                    assert(!imported_before(ki, import_key(fs[old_order[a] as int])));
                    assert(order@[a] < i);
                } else if a == p {
                    let z = import_key(fs[old_order[p as int] as int]);
                    assert(order@[a] == i);
                    assert(order@[b] == old_order[b - 1]);
                    assert(imported_before(ki, z));
                    if b - 1 > p {
                        assert(!imported_before(y, z));
                    }
                    lemma_imported_before(y, ki, z);
                    lemma_imported_before(ki, z, ki);
                    lemma_imported_before(ki, ki, ki);
                    if y == ki {
                        if b - 1 > p {
                            assert(imported_before(y, z));
                        }
                    }
                } else if a < p {
                    assert(order@[a] == old_order[a]);
                    assert(order@[b] == old_order[b - 1]);
                } else {
                    assert(order@[a] == old_order[a - 1]);
                    assert(order@[b] == old_order[b - 1]);
                }
            }
        }
        i += 1;
    }
    order
}

/// Whether `files` holds the human variant of `path`.
pub open spec fn has_human(files: Seq<(DocPath, Variant)>, path: Seq<char>) -> bool {
    exists|j: int| 0 <= j < files.len() && #[trigger] import_key(files[j]) == (path, Variant::Human)
}

/// The paths of the first `k` files that are AI variants whose human variant is in
/// `files` too.
pub open spec fn paired_prefix(files: Seq<(DocPath, Variant)>, k: nat) -> Seq<Seq<char>>
    decreases k,
{
    if k == 0 || k > files.len() {
        seq![]
    } else {
        let rest = paired_prefix(files, (k - 1) as nat);
        let (p, v) = import_key(files[k - 1]);
        if v == Variant::Ai && has_human(files, p) {
            rest.push(p)
        } else {
            rest
        }
    }
}

pub open spec fn doc_path_views(v: Seq<DocPath>) -> Seq<Seq<char>> {
    Seq::new(v.len(), |i: int| v[i]@)
}

/// The documents of which `files` holds both variants: the path of each AI variant
/// whose human variant is there too, in the order of `files`.
pub fn paired_docs(files: &[(DocPath, Variant)]) -> (r: Vec<DocPath>)
    ensures
        doc_path_views(r@) == paired_prefix(files@, files@.len()),
{
    let ghost fs = files@;
    let mut out: Vec<DocPath> = Vec::new();
    let mut i: usize = 0;
    while i < files.len()
        invariant
            0 <= i <= files@.len(),
            fs == files@,
            doc_path_views(out@) == paired_prefix(fs, i as nat),
        decreases files@.len() - i,
    {
        let ghost prev = doc_path_views(out@);
        if files[i].1 == Variant::Ai {
            let mut found = false;
            let mut j: usize = 0;
            while j < files.len()
                invariant
                    0 <= j <= files@.len(),
                    i < files@.len(),
                    fs == files@,
                    found ==> has_human(fs, fs[i as int].0@),
                    !found ==> forall|q: int| 0 <= q < j ==> #[trigger] import_key(fs[q]) != (fs[i as int].0@, Variant::Human),
                decreases files@.len() - j,
            {
                if !found && files[j].1 == Variant::Human && str_eq(files[j].0.as_str(), files[i].0.as_str()) {
                    assert(import_key(fs[j as int]) == (fs[i as int].0@, Variant::Human));
                    found = true;
                }
                j += 1;
            }
            if found {
                out.push(files[i].0.duplicate());
                assert(doc_path_views(out@) =~= prev.push(fs[i as int].0@));
            }
        }
        i += 1;
    }
    out
}

} // verus!
