//! Validated identifiers: document paths and slugs.

use vstd::prelude::*;
use vstd::utf8::{encode_scalar, encode_utf8};

use crate::text::{
    ascii_alnum, chars_of, copy_range, ends_with, find, has_suffix, is_ascii_alnum, is_ascii_digit, is_ascii_lower,
    join, join_chars, lemma_find, pat_matches, split, split_chars, string_of, trim, trim_end, trim_pat, trim_start,
    views,
};

verus! {

/// Why a document path was refused.
#[derive(Debug, Clone, PartialEq, Eq)]
pub enum PathError {
    Empty,
    BadSegment(String),
    TooLong { max: usize },
}

/// The mathematical content of a [`PathError`].
pub enum PathFault {
    Empty,
    BadSegment(Seq<char>),
    TooLong(nat),
}

impl View for PathError {
    type V = PathFault;

    open spec fn view(&self) -> PathFault {
        match self {
            PathError::Empty => PathFault::Empty,
            PathError::BadSegment(s) => PathFault::BadSegment(s@),
            PathError::TooLong { max } => PathFault::TooLong(*max as nat),
        }
    }
}

/// The message of a refused path.
pub open spec fn path_error_text(e: PathFault) -> Seq<char> {
    match e {
        PathFault::Empty => "path is empty"@,
        PathFault::BadSegment(s) => "path segment "@ + crate::text::debug_quoted(s) + " is not allowed"@,
        PathFault::TooLong(max) => "path is longer than "@ + crate::text::decimal(max) + " characters"@,
    }
}

impl PathError {
    /// The message.
    pub fn to_string(&self) -> (s: String)
        ensures
            s@ == path_error_text(self@),
    {
        match self {
            PathError::Empty => String::from_str("path is empty"),
            PathError::BadSegment(seg) => {
                let mut s = String::from_str("path segment ");
                s.append(crate::text::quoted(seg.as_str()).as_str());
                s.append(" is not allowed");
                s
            },
            PathError::TooLong { max } => {
                let mut s = String::from_str("path is longer than ");
                s.append(crate::text::decimal_string(*max as u64).as_str());
                s.append(" characters");
                s
            },
        }
    }
}

/// The longest document path, in bytes.
pub const MAX_PATH_LEN: usize = 512;

/// Characters a path segment may hold.
pub open spec fn is_segment_char(c: char) -> bool {
    is_ascii_alnum(c) || c == '-' || c == '_' || c == '.'
}

pub open spec fn valid_segment(seg: Seq<char>) -> bool {
    &&& seg.len() > 0
    &&& seg != seq!['.']
    &&& seg != seq!['.', '.']
    &&& forall|i: int| 0 <= i < seg.len() ==> is_segment_char(#[trigger] seg[i])
}

/// The first segment that is not valid, if any.
pub open spec fn first_bad_segment(segs: Seq<Seq<char>>) -> Option<Seq<char>>
    decreases segs.len(),
{
    if segs.len() == 0 {
        None
    } else if !valid_segment(segs[0]) {
        Some(segs[0])
    } else {
        first_bad_segment(segs.drop_first())
    }
}

pub open spec fn md_suffix() -> Seq<char> {
    seq!['.', 'm', 'd']
}

/// A raw path with surrounding whitespace and slashes and one trailing `.md` removed.
pub open spec fn normalize_path(raw: Seq<char>) -> Seq<char> {
    let t = trim(trim(raw, None), Some('/'));
    if ends_with(t, md_suffix()) {
        t.take(t.len() - 3)
    } else {
        t
    }
}

/// What [`DocPath::parse`] makes of `raw`.
pub open spec fn parse_path(raw: Seq<char>) -> Result<Seq<char>, PathFault> {
    let t = normalize_path(raw);
    if t.len() == 0 {
        Err(PathFault::Empty)
    } else if encode_utf8(t).len() > MAX_PATH_LEN {
        Err(PathFault::TooLong(MAX_PATH_LEN as nat))
    } else {
        match first_bad_segment(split(t, '/')) {
            Some(seg) => Err(PathFault::BadSegment(seg)),
            None => Ok(t),
        }
    }
}

/// A well-formed document path: non-empty, at most [`MAX_PATH_LEN`] bytes, and made of
/// valid `/`-separated segments.
pub open spec fn valid_path(s: Seq<char>) -> bool {
    &&& s.len() > 0
    &&& encode_utf8(s).len() <= MAX_PATH_LEN
    &&& first_bad_segment(split(s, '/')) is None
}

pub(crate) proof fn lemma_valid_segments(s: Seq<char>)
    requires
        first_bad_segment(split(s, '/')) is None,
    ensures
        s.len() > 0,
        s[0] != '/',
        s.last() != '/',
        forall|i: int| 0 <= i < s.len() ==> #[trigger] s[i] == '/' || is_segment_char(s[i]),
    decreases s.len(),
{
    let i = crate::text::find(s, '/');
    crate::text::lemma_find(s, '/');
    if i < 0 {
        assert(split(s, '/') == seq![s]);
        assert(valid_segment(s));
    } else {
        let head = s.take(i);
        let rest = s.skip(i + 1);
        let segs = split(s, '/');
        assert(segs == seq![head] + split(rest, '/'));
        assert(segs[0] == head);
        assert(valid_segment(head));
        assert(segs.drop_first() =~= split(rest, '/'));
        lemma_valid_segments(rest);
        assert forall|k: int| 0 <= k < s.len() implies #[trigger] s[k] == '/' || is_segment_char(s[k]) by {
            if k < i {
                assert(s[k] == head[k]);
            } else if k > i {
                assert(s[k] == rest[k - i - 1]);
            }
        }
        assert(s[0] == head[0]);
        assert(s.last() == rest.last());
    }
}

pub(crate) proof fn lemma_trim_edges(s: Seq<char>, pat: Option<char>)
    requires
        s.len() > 0,
        !crate::text::pat_matches(pat, s[0]),
        !crate::text::pat_matches(pat, s.last()),
    ensures
        trim(s, pat) == s,
{
}

/// A document path's text parses back to the same path, unless it ends in `.md`
/// (parsing drops one such suffix, so `a.md` names the document `a`).
pub proof fn lemma_path_reparses(p: Seq<char>)
    requires
        valid_path(p),
        !ends_with(p, md_suffix()),
    ensures
        parse_path(p) == Ok::<Seq<char>, PathFault>(p),
{
    lemma_valid_segments(p);
    assert(!crate::text::is_ws(p[0]));
    assert(!crate::text::is_ws(p.last()));
    lemma_trim_edges(p, None);
    lemma_trim_edges(p, Some('/'));
    assert(normalize_path(p) == p);
}

/// A leading `/` and a trailing `.md` do not change the document a path names:
/// `/design/auth.md`, `design/auth.md` and `design/auth` are the same document.
pub proof fn lemma_path_spellings(p: Seq<char>)
    requires
        valid_path(p),
        !ends_with(p, md_suffix()),
    ensures
        parse_path(seq!['/'] + p + md_suffix()) == Ok::<Seq<char>, PathFault>(p),
        parse_path(p + md_suffix()) == Ok::<Seq<char>, PathFault>(p),
{
    lemma_valid_segments(p);
    let t = p + md_suffix();
    let s = seq!['/'] + t;
    assert(t[0] == p[0]);
    assert(t.last() == 'd');
    assert(s[0] == '/');
    assert(s.last() == 'd');
    assert(s.drop_first() =~= t);
    lemma_trim_edges(s, None);
    lemma_trim_edges(t, None);
    lemma_trim_edges(t, Some('/'));
    assert(trim_start(s, Some('/')) == trim_start(t, Some('/')));
    assert(trim_start(t, Some('/')) == t);
    assert(trim(s, Some('/')) == t);
    assert(t.skip(t.len() - 3) =~= md_suffix());
    assert(t.take(t.len() - 3) =~= p);
    assert(normalize_path(s) == p);
    assert(normalize_path(t) == p);
    assert(seq!['/'] + p + md_suffix() =~= s);
}

/// Index of the last `c` in `s`, or -1.
pub open spec fn rfind(s: Seq<char>, c: char) -> int
    decreases s.len(),
{
    if s.len() == 0 {
        -1
    } else if s.last() == c {
        s.len() - 1
    } else {
        rfind(s.drop_last(), c)
    }
}

pub proof fn lemma_rfind(s: Seq<char>, c: char)
    ensures
        -1 <= rfind(s, c) < s.len(),
        rfind(s, c) >= 0 ==> s[rfind(s, c)] == c,
        forall|k: int| rfind(s, c) < k < s.len() ==> s[k] != c,
    decreases s.len(),
{
    if s.len() > 0 && s.last() != c {
        lemma_rfind(s.drop_last(), c);
        assert forall|k: int| rfind(s, c) < k < s.len() implies s[k] != c by {
            if k < s.len() - 1 {
                assert(s[k] == s.drop_last()[k]);
            }
        }
    }
}

/// The last segment of a path.
pub open spec fn path_name(s: Seq<char>) -> Seq<char> {
    s.skip(rfind(s, '/') + 1)
}

/// Everything before the last `/` of a path, or nothing.
pub open spec fn path_dir(s: Seq<char>) -> Seq<char> {
    let i = rfind(s, '/');
    if i < 0 {
        seq![]
    } else {
        s.take(i)
    }
}

/// A path's directory and name put it back together: the name is never empty and
/// holds no `/`, and the path is the name alone at the root, else the directory, a
/// `/` and the name.
pub proof fn lemma_dir_and_name(p: Seq<char>)
    requires
        valid_path(p),
    ensures
        path_name(p).len() > 0,
        !path_name(p).contains('/'),
        path_dir(p).len() == 0 ==> path_name(p) == p,
        path_dir(p).len() > 0 ==> p == path_dir(p) + seq!['/'] + path_name(p),
{
    lemma_valid_segments(p);
    lemma_rfind(p, '/');
    let i = rfind(p, '/');
    let name = path_name(p);
    assert(i != p.len() - 1);
    if name.contains('/') {
        let k = choose|k: int| 0 <= k < name.len() && name[k] == '/';
        assert(name[k] == p[i + 1 + k]);
    }
    if i < 0 {
        assert(name =~= p);
    } else {
        assert(i != 0);
        assert(p =~= p.take(i) + seq!['/'] + name);
    }
}

/// `segs` without its empty pieces.
pub open spec fn nonempty(segs: Seq<Seq<char>>) -> Seq<Seq<char>>
    decreases segs.len(),
{
    if segs.len() == 0 {
        seq![]
    } else if segs[0].len() == 0 {
        nonempty(segs.drop_first())
    } else {
        seq![segs[0]] + nonempty(segs.drop_first())
    }
}

/// Applies the segments of a relative reference to a stack of directory names:
/// empty and `.` segments are skipped, `..` pops, others push. `None` when `..` has
/// nothing left to pop.
pub open spec fn walk(stack: Seq<Seq<char>>, segs: Seq<Seq<char>>) -> Option<Seq<Seq<char>>>
    decreases segs.len(),
{
    if segs.len() == 0 {
        Some(stack)
    } else {
        let s = segs[0];
        if s.len() == 0 || s == seq!['.'] {
            walk(stack, segs.drop_first())
        } else if s == seq!['.', '.'] {
            if stack.len() == 0 {
                None
            } else {
                walk(stack.drop_last(), segs.drop_first())
            }
        } else {
            walk(stack.push(s), segs.drop_first())
        }
    }
}

/// What [`DocPath::join`] makes of `target` seen from the document `base`.
pub open spec fn join_path(base: Seq<char>, target: Seq<char>) -> Result<Seq<char>, PathFault> {
    let t = trim(target, None);
    let start = if t.len() > 0 && t[0] == '/' {
        seq![]
    } else {
        nonempty(split(path_dir(base), '/'))
    };
    match walk(start, split(t, '/')) {
        None => Err(PathFault::BadSegment(seq!['.', '.'])),
        Some(segs) => parse_path(join(segs, '/')),
    }
}

proof fn lemma_join_cons(x: Seq<char>, rest: Seq<Seq<char>>, c: char)
    requires
        rest.len() > 0,
    ensures
        join(seq![x] + rest, c) == x + seq![c] + join(rest, c),
    decreases rest.len(),
{
    let all = seq![x] + rest;
    assert(all.drop_last() =~= seq![x] + rest.drop_last());
    assert(all.last() == rest.last());
    if rest.len() == 1 {
        assert(seq![x].len() == 1);
        assert(join(seq![x], c) == x);
    } else {
        lemma_join_cons(x, rest.drop_last(), c);
    }
}

proof fn lemma_split_nonempty(t: Seq<char>, c: char)
    ensures
        split(t, c).len() > 0,
    decreases t.len(),
{
}

/// Splitting at `c` and joining with `c` gives the text back.
proof fn lemma_join_split(t: Seq<char>, c: char)
    ensures
        join(split(t, c), c) == t,
    decreases t.len(),
{
    crate::text::lemma_find(t, c);
    let i = find(t, c);
    if i >= 0 {
        let rest = t.skip(i + 1);
        lemma_join_split(rest, c);
        lemma_split_nonempty(rest, c);
        lemma_join_cons(t.take(i), split(rest, c), c);
        assert(t =~= t.take(i) + seq![c] + rest);
    }
}

/// Every segment of a valid path is a valid segment.
proof fn lemma_first_bad_none(segs: Seq<Seq<char>>)
    requires
        first_bad_segment(segs) is None,
    ensures
        forall|k: int| 0 <= k < segs.len() ==> valid_segment(#[trigger] segs[k]),
    decreases segs.len(),
{
    if segs.len() > 0 {
        lemma_first_bad_none(segs.drop_first());
        assert forall|k: int| 0 <= k < segs.len() implies valid_segment(#[trigger] segs[k]) by {
            if k > 0 {
                assert(segs[k] == segs.drop_first()[k - 1]);
            }
        }
    }
}

/// Plain segments are pushed one by one.
proof fn lemma_walk_plain(stack: Seq<Seq<char>>, segs: Seq<Seq<char>>)
    requires
        forall|k: int| 0 <= k < segs.len() ==> valid_segment(#[trigger] segs[k]),
    ensures
        walk(stack, segs) == Some(stack + segs),
    decreases segs.len(),
{
    if segs.len() > 0 {
        assert(valid_segment(segs[0]));
        assert forall|k: int| 0 <= k < segs.drop_first().len() implies valid_segment(#[trigger] segs.drop_first()[k]) by {
            assert(segs.drop_first()[k] == segs[k + 1]);
        }
        lemma_walk_plain(stack.push(segs[0]), segs.drop_first());
        assert(stack.push(segs[0]) + segs.drop_first() =~= stack + segs);
    }
}

/// A target that starts with `/` is rooted at the project: it names the same
/// document seen from any base.
pub proof fn lemma_rooted_join(base: Seq<char>, q: Seq<char>)
    requires
        valid_path(q),
        !ends_with(q, md_suffix()),
    ensures
        join_path(base, seq!['/'] + q) == Ok::<Seq<char>, PathFault>(q),
{
    lemma_valid_segments(q);
    let t = seq!['/'] + q;
    assert(t[0] == '/');
    assert(t.last() == q.last());
    lemma_trim_edges(t, None);
    assert(find(t, '/') == 0);
    assert(t.skip(1) =~= q);
    assert(t.take(0) =~= Seq::<char>::empty());
    assert(split(t, '/') == seq![Seq::<char>::empty()] + split(q, '/'));
    assert((seq![Seq::<char>::empty()] + split(q, '/')).drop_first() =~= split(q, '/'));
    lemma_first_bad_none(split(q, '/'));
    lemma_walk_plain(Seq::empty(), split(q, '/'));
    assert(Seq::<Seq<char>>::empty() + split(q, '/') =~= split(q, '/'));
    lemma_join_split(q, '/');
    lemma_path_reparses(q);
}

/// The number of `..` segments a relative reference begins with, skipping empty
/// and `.` segments.
pub open spec fn leading_ups(segs: Seq<Seq<char>>) -> nat
    decreases segs.len(),
{
    if segs.len() == 0 {
        0
    } else if segs[0].len() == 0 || segs[0] == seq!['.'] {
        leading_ups(segs.drop_first())
    } else if segs[0] == seq!['.', '.'] {
        leading_ups(segs.drop_first()) + 1
    } else {
        0
    }
}

proof fn lemma_walk_climbs_out(stack: Seq<Seq<char>>, segs: Seq<Seq<char>>)
    requires
        leading_ups(segs) > stack.len(),
    ensures
        walk(stack, segs) is None,
    decreases segs.len(),
{
    if segs.len() > 0 {
        let s0 = segs[0];
        if s0.len() == 0 || s0 == seq!['.'] {
            lemma_walk_climbs_out(stack, segs.drop_first());
        } else if s0 == seq!['.', '.'] {
            if stack.len() > 0 {
                lemma_walk_climbs_out(stack.drop_last(), segs.drop_first());
            }
        }
    }
}

/// A relative target may not climb out of the project: when it begins with more
/// `..` segments than the base's directory has names, joining fails on `..`.
pub proof fn lemma_join_stays_inside(base: Seq<char>, target: Seq<char>)
    requires
        !(trim(target, None).len() > 0 && trim(target, None)[0] == '/'),
        leading_ups(split(trim(target, None), '/')) > nonempty(split(path_dir(base), '/')).len(),
    ensures
        join_path(base, target) == Err::<Seq<char>, PathFault>(PathFault::BadSegment(seq!['.', '.'])),
{
    lemma_walk_climbs_out(nonempty(split(path_dir(base), '/')), split(trim(target, None), '/'));
}

/// Splitting `s` with one more character `x`, other than `c`, at its end extends
/// the last piece by `x`.
proof fn lemma_split_push(s: Seq<char>, c: char, x: char)
    requires
        x != c,
    ensures
        split(s, c).len() > 0,
        split(s.push(x), c) == split(s, c).update(split(s, c).len() - 1, split(s, c).last().push(x)),
    decreases s.len(),
{
    let sp = s.push(x);
    lemma_find(s, c);
    lemma_find(sp, c);
    let i = find(s, c);
    if i >= 0 {
        assert(sp[i] == c);
        assert forall|k: int| 0 <= k < i implies sp[k] != c by {
            assert(sp[k] == s[k]);
        }
        assert(find(sp, c) == i) by {
            let j = find(sp, c);
            if j < 0 {
                assert(sp[i] != c);
            } else if j < i {
                assert(sp[j] == s[j]);
            }
        }
        let rest = s.skip(i + 1);
        lemma_split_push(rest, c, x);
        assert(sp.take(i) =~= s.take(i));
        assert(sp.skip(i + 1) =~= rest.push(x));
        let r = split(rest, c);
        assert(split(sp, c) =~= seq![s.take(i)] + r.update(r.len() - 1, r.last().push(x)));
        assert(split(s, c) == seq![s.take(i)] + r);
        assert(split(sp, c) =~= split(s, c).update(split(s, c).len() - 1, split(s, c).last().push(x)));
    } else {
        assert(find(sp, c) == -1) by {
            let j = find(sp, c);
            if j >= 0 {
                if j < s.len() {
                    assert(sp[j] == s[j]);
                }
            }
        }
        assert(split(sp, c) =~= split(s, c).update(0, s.push(x)));
    }
}

/// Extending the last segment by a character other than `.` can only end the
/// leading run of `..` segments sooner.
proof fn lemma_leading_ups_extend_last(segs: Seq<Seq<char>>, x: char)
    requires
        segs.len() > 0,
        x != '.',
    ensures
        leading_ups(segs.update(segs.len() - 1, segs.last().push(x))) <= leading_ups(segs),
    decreases segs.len(),
{
    let u = segs.update(segs.len() - 1, segs.last().push(x));
    if segs.len() == 1 {
        let w = segs.last().push(x);
        assert(u[0] == w);
        assert(w.len() > 0);
        assert(w != seq!['.']) by {
            if w == seq!['.'] {
                assert(w[w.len() - 1] == x);
            }
        }
        assert(w != seq!['.', '.']) by {
            if w == seq!['.', '.'] {
                assert(w[w.len() - 1] == x);
            }
        }
    } else {
        let d = segs.drop_first();
        lemma_leading_ups_extend_last(d, x);
        assert(u.drop_first() =~= d.update(d.len() - 1, d.last().push(x)));
        assert(u[0] == segs[0]);
    }
}

/// Trimming whitespace off the end of `s` keeps it a prefix of `s`, and does not
/// shorten the leading run of `..` segments.
proof fn lemma_trim_end_ups(s: Seq<char>)
    ensures
        leading_ups(split(s, '/')) <= leading_ups(split(trim_end(s, None), '/')),
        trim_end(s, None).len() <= s.len(),
        trim_end(s, None) == s.take(trim_end(s, None).len() as int),
    decreases s.len(),
{
    if s.len() > 0 && pat_matches(None, s.last()) {
        let d = s.drop_last();
        let x = s.last();
        lemma_trim_end_ups(d);
        assert(d.push(x) =~= s);
        lemma_split_push(d, '/', x);
        lemma_leading_ups_extend_last(split(d, '/'), x);
        let m = trim_end(d, None).len() as int;
        assert(d.take(m) =~= s.take(m));
    } else {
        assert(s.take(s.len() as int) =~= s);
    }
}

/// A relative target may not climb out of the project, read as written: when the
/// target does not start with `/` and its segments begin with more `..` than the
/// base's directory has names, joining fails on `..`.
pub proof fn lemma_join_stays_inside_as_written(base: Seq<char>, target: Seq<char>)
    requires
        !(target.len() > 0 && target[0] == '/'),
        leading_ups(split(target, '/')) > nonempty(split(path_dir(base), '/')).len(),
    ensures
        join_path(base, target) == Err::<Seq<char>, PathFault>(PathFault::BadSegment(seq!['.', '.'])),
{
    lemma_find(target, '/');
    let segs = split(target, '/');
    if target.len() == 0 {
        assert(segs == seq![target]);
        assert(leading_ups(segs.drop_first()) == 0);
    }
    assert(target.len() > 0);
    if pat_matches(None, target[0]) {
        let s0 = segs[0];
        assert(s0.len() > 0 && s0[0] == target[0]);
        assert(s0 != seq!['.']);
        assert(s0 != seq!['.', '.']);
        assert(leading_ups(segs) == 0);
    }
    assert(trim_start(target, None) == target);
    lemma_trim_end_ups(target);
    let t = trim(target, None);
    assert(t == trim_end(target, None));
    if t.len() == 0 {
        assert(split(t, '/') == seq![t]);
        assert(leading_ups(split(t, '/').drop_first()) == 0);
    }
    assert(t.len() > 0 && t[0] == target[0]);
    lemma_join_stays_inside(base, target);
}

/// A project-relative document path such as `design/auth`.
///
/// Segments contain ASCII letters, digits, `-`, `_` and `.`, and may not be `.` or
/// `..`. Leading and trailing slashes are dropped, and a trailing `.md` is removed, so
/// `/design/auth.md` and `design/auth` name the same document.
#[derive(Debug, Clone, PartialEq, Eq, Hash, PartialOrd, Ord)]
pub struct DocPath(String);

impl View for DocPath {
    type V = Seq<char>;

    closed spec fn view(&self) -> Seq<char> {
        self.0@
    }
}

pub fn is_valid_segment(seg: &[char]) -> (b: bool)
    ensures
        b == valid_segment(seg@),
{
    let n = seg.len();
    if n == 0 {
        return false;
    }
    if n == 1 && seg[0] == '.' {
        assert(seg@ =~= seq!['.']);
        return false;
    }
    if n == 2 && seg[0] == '.' && seg[1] == '.' {
        assert(seg@ =~= seq!['.', '.']);
        return false;
    }
    assert(seg@ != seq!['.']) by {
        if n == 1 {
            assert(seg@[0] != seq!['.'][0]);
        }
    }
    assert(seg@ != seq!['.', '.']) by {
        if n == 2 {
            assert(seg@[0] != '.' || seg@[1] != '.');
        }
    }
    let mut i: usize = 0;
    while i < n
        invariant
            0 <= i <= n,
            n == seg@.len(),
            forall|k: int| 0 <= k < i ==> is_segment_char(#[trigger] seg@[k]),
        decreases n - i,
    {
        let c = seg[i];
        if !(ascii_alnum(c) || c == '-' || c == '_' || c == '.') {
            return false;
        }
        i += 1;
    }
    true
}

/// The length of `v` in UTF-8 bytes when it is at most `cap`; otherwise some
/// number above `cap`.
fn utf8_len_capped(v: &[char], cap: usize) -> (n: usize)
    requires
        cap < usize::MAX - 4,
    ensures
        n <= cap ==> n == encode_utf8(v@).len(),
        n > cap ==> encode_utf8(v@).len() > cap,
{
    let mut total: usize = 0;
    let mut i: usize = 0;
    assert(v@.skip(0) =~= v@);
    while i < v.len()
        invariant
            0 <= i <= v@.len(),
            total <= cap,
            cap < usize::MAX - 4,
            encode_utf8(v@).len() == total + encode_utf8(v@.skip(i as int)).len(),
        decreases v@.len() - i,
    {
        let c = v[i];
        let code = c as u32;
        let w: usize = if code <= 0x7f {
            1
        } else if code <= 0x7ff {
            2
        } else if code <= 0xffff {
            3
        } else {
            4
        };
        proof {
            let rest = v@.skip(i as int);
            assert(rest[0] == c);
            assert(rest.drop_first() =~= v@.skip(i + 1));
            assert(code == c as u32);
            vstd::utf8::char_is_scalar(c);
            if code <= 0x7f {
                assert(encode_scalar(code).len() == 1);
            } else if code <= 0x7ff {
                assert(encode_scalar(code).len() == 2);
            } else if code <= 0xffff {
                assert(!(0xD800 <= code <= 0xDFFF));
                assert(encode_scalar(code).len() == 3);
            } else {
                assert(encode_scalar(code).len() == 4);
            }
            assert(w <= 4);
        }
        total = total + w;
        i += 1;
        if total > cap {
            return total;
        }
    }
    assert(v@.skip(i as int) =~= Seq::<char>::empty());
    total
}

impl DocPath {
    pub const MAX_LEN: usize = 512;

    pub fn parse(raw: &str) -> (res: Result<DocPath, PathError>)
        ensures
            match res {
                Ok(p) => parse_path(raw@) == Ok::<Seq<char>, PathFault>(p@) && valid_path(p@),
                Err(e) => parse_path(raw@) == Err::<Seq<char>, PathFault>(e@),
            },
    {
        let v = chars_of(raw);
        Self::parse_chars(&v)
    }

    fn parse_chars(raw: &[char]) -> (res: Result<DocPath, PathError>)
        ensures
            match res {
                Ok(p) => parse_path(raw@) == Ok::<Seq<char>, PathFault>(p@) && valid_path(p@),
                Err(e) => parse_path(raw@) == Err::<Seq<char>, PathFault>(e@),
            },
    {
        let t0 = trim_pat(raw, None);
        let t1 = trim_pat(&t0, Some('/'));
        let md = ['.', 'm', 'd'];
        assert(md@ =~= md_suffix());
        let t = if has_suffix(&t1, &md) {
            copy_range(&t1, 0, t1.len() - 3)
        } else {
            t1
        };
        assert(t@ == normalize_path(raw@));
        if t.len() == 0 {
            return Err(PathError::Empty);
        }
        if utf8_len_capped(&t, Self::MAX_LEN) > Self::MAX_LEN {
            return Err(PathError::TooLong { max: Self::MAX_LEN });
        }
        let segs = split_chars(&t, '/');
        let mut i: usize = 0;
        assert(views(segs@).skip(0) =~= views(segs@));
        while i < segs.len()
            invariant
                0 <= i <= segs@.len(),
                views(segs@) == split(t@, '/'),
                t@ == normalize_path(raw@),
                t@.len() > 0,
                encode_utf8(t@).len() <= MAX_PATH_LEN,
                first_bad_segment(views(segs@)) == first_bad_segment(views(segs@).skip(i as int)),
            decreases segs@.len() - i,
        {
            assert(views(segs@).skip(i as int).drop_first() =~= views(segs@).skip(i + 1));
            if !is_valid_segment(&segs[i]) {
                assert(views(segs@).skip(i as int)[0] == segs@[i as int]@);
                return Err(PathError::BadSegment(string_of(&segs[i])));
            }
            i += 1;
        }
        assert(views(segs@).skip(i as int) =~= Seq::<Seq<char>>::empty());
        Ok(DocPath(string_of(&t)))
    }

    pub fn as_str(&self) -> (s: &str)
        ensures
            s@ == self@,
    {
        self.0.as_str()
    }

    /// A copy of this path.
    pub fn duplicate(&self) -> (p: DocPath)
        ensures
            p@ == self@,
    {
        DocPath(String::from_str(self.0.as_str()))
    }

    /// The `/`-separated segments.
    pub fn segments(&self) -> (segs: Vec<String>)
        ensures
            segs@.len() == split(self@, '/').len(),
            forall|i: int| 0 <= i < segs@.len() ==> #[trigger] segs@[i]@ == split(self@, '/')[i],
    {
        let v = chars_of(self.0.as_str());
        let parts = split_chars(&v, '/');
        let mut out: Vec<String> = Vec::new();
        let mut i: usize = 0;
        while i < parts.len()
            invariant
                0 <= i <= parts@.len(),
                views(parts@) == split(self@, '/'),
                out@.len() == i,
                forall|k: int| 0 <= k < i ==> #[trigger] out@[k]@ == parts@[k]@,
            decreases parts@.len() - i,
        {
            out.push(string_of(&parts[i]));
            i += 1;
        }
        out
    }

    /// Index of the last `/` in `v`, if any.
    fn last_slash(v: &[char]) -> (r: Option<usize>)
        ensures
            r is None ==> rfind(v@, '/') == -1,
            r matches Some(k) ==> k < v@.len() && rfind(v@, '/') == k,
    {
        let mut j: usize = v.len();
        assert(v@.take(j as int) =~= v@);
        while j > 0
            invariant
                j <= v@.len(),
                rfind(v@, '/') == rfind(v@.take(j as int), '/'),
            decreases j,
        {
            if v[j - 1] == '/' {
                return Some(j - 1);
            }
            assert(v@.take(j as int).drop_last() =~= v@.take(j - 1));
            j -= 1;
        }
        None
    }

    /// The last segment, e.g. `auth` for `design/auth`.
    pub fn name(&self) -> (s: &str)
        ensures
            s@ == path_name(self@),
    {
        let v = chars_of(self.0.as_str());
        let n = v.len();
        let from = match Self::last_slash(&v) {
            Some(k) => k + 1,
            None => 0,
        };
        self.0.as_str().substring_char(from, n)
    }

    /// The directory part, e.g. `design` for `design/auth`, or `""` at the root.
    pub fn dir(&self) -> (s: &str)
        ensures
            s@ == path_dir(self@),
    {
        let v = chars_of(self.0.as_str());
        match Self::last_slash(&v) {
            Some(k) => self.0.as_str().substring_char(0, k),
            None => self.0.as_str().substring_char(0, 0),
        }
    }

    /// Resolves `target` against this document's directory. `/x` is project-rooted,
    /// and `..` segments are allowed as long as they stay inside the project.
    pub fn join(&self, target: &str) -> (res: Result<DocPath, PathError>)
        ensures
            match res {
                Ok(p) => join_path(self@, target@) == Ok::<Seq<char>, PathFault>(p@) && valid_path(p@),
                Err(e) => join_path(self@, target@) == Err::<Seq<char>, PathFault>(e@),
            },
    {
        let t = trim_pat(&chars_of(target), None);
        let mut stack: Vec<Vec<char>> = Vec::new();
        if !(t.len() > 0 && t[0] == '/') {
            let dir = chars_of(self.dir());
            let parts = split_chars(&dir, '/');
            let mut i: usize = 0;
            assert(views(parts@).skip(0) =~= views(parts@));
            while i < parts.len()
                invariant
                    0 <= i <= parts@.len(),
                    views(parts@) == split(path_dir(self@), '/'),
                    views(stack@) + nonempty(views(parts@).skip(i as int))
                        == nonempty(split(path_dir(self@), '/')),
                decreases parts@.len() - i,
            {
                let ghost rest = views(parts@).skip(i as int);
                assert(rest.drop_first() =~= views(parts@).skip(i + 1));
                if parts[i].len() > 0 {
                    let ghost old_stack = views(stack@);
                    let p = copy_range(&parts[i], 0, parts[i].len());
                    assert(p@ =~= parts@[i as int]@);
                    stack.push(p);
                    assert(views(stack@) =~= old_stack + seq![rest[0]]);
                    assert(views(stack@) + nonempty(rest.drop_first()) =~= old_stack + nonempty(rest));
                }
                i += 1;
            }
            assert(views(parts@).skip(i as int) =~= Seq::<Seq<char>>::empty());
            assert(views(stack@) =~= nonempty(split(path_dir(self@), '/')));
        } else {
            assert(views(stack@) =~= Seq::<Seq<char>>::empty());
        }
        let segs = split_chars(&t, '/');
        let mut i: usize = 0;
        assert(views(segs@).skip(0) =~= views(segs@));
        while i < segs.len()
            invariant
                0 <= i <= segs@.len(),
                views(segs@) == split(t@, '/'),
                join_path(self@, target@) == match walk(views(stack@), views(segs@).skip(i as int)) {
                    None => Err(PathFault::BadSegment(seq!['.', '.'])),
                    Some(s) => parse_path(join(s, '/')),
                },
            decreases segs@.len() - i,
        {
            let ghost rest = views(segs@).skip(i as int);
            assert(rest.drop_first() =~= views(segs@).skip(i + 1));
            assert(rest[0] == segs@[i as int]@);
            let seg = &segs[i];
            let n = seg.len();
            if n == 0 || (n == 1 && seg[0] == '.') {
                if n == 1 {
                    assert(seg@ =~= seq!['.']);
                }
            } else if n == 2 && seg[0] == '.' && seg[1] == '.' {
                assert(seg@ =~= seq!['.', '.']);
                assert(seg@ != seq!['.']);
                if stack.len() == 0 {
                    return Err(PathError::BadSegment(string_of(&['.', '.'])));
                }
                let ghost old_stack = views(stack@);
                stack.pop();
                assert(views(stack@) =~= old_stack.drop_last());
            } else {
                assert(seg@ != seq!['.']) by {
                    if n == 1 {
                        assert(seg@[0] != '.');
                    }
                }
                assert(seg@ != seq!['.', '.']) by {
                    if n == 2 {
                        assert(seg@[0] != '.' || seg@[1] != '.');
                    }
                }
                let ghost old_stack = views(stack@);
                let p = copy_range(seg, 0, n);
                assert(p@ =~= seg@);
                stack.push(p);
                assert(views(stack@) =~= old_stack.push(seg@));
            }
            i += 1;
        }
        assert(views(segs@).skip(i as int) =~= Seq::<Seq<char>>::empty());
        let joined = join_chars(&stack, '/');
        Self::parse_chars(&joined)
    }
}

/// Characters a slug may hold.
pub open spec fn is_slug_char(c: char) -> bool {
    is_ascii_lower(c) || is_ascii_digit(c) || c == '-'
}

/// A slug: 1 to 63 lowercase ASCII letters, digits or `-`, starting with a letter.
pub open spec fn valid_slug(s: Seq<char>) -> bool {
    &&& 1 <= s.len() <= 63
    &&& is_ascii_lower(s[0])
    &&& forall|i: int| 0 <= i < s.len() ==> is_slug_char(#[trigger] s[i])
}

/// A URL-safe identifier for tenants and projects: lowercase ASCII letters, digits and
/// `-`. It must start with a letter and be 1–63 characters long.
#[derive(Debug, Clone, PartialEq, Eq, Hash, PartialOrd, Ord)]
pub struct Slug(String);

impl View for Slug {
    type V = Seq<char>;

    closed spec fn view(&self) -> Seq<char> {
        self.0@
    }
}

/// A refused slug, holding the input.
#[derive(Debug, Clone, PartialEq, Eq)]
pub struct SlugError(pub String);

impl SlugError {
    /// The message.
    pub fn to_string(&self) -> (s: String)
        ensures
            s@ == "invalid slug "@ + crate::text::debug_quoted(self.0@)
                + ": use 1-63 lowercase letters, digits or '-', starting with a letter"@,
    {
        let mut s = String::from_str("invalid slug ");
        s.append(crate::text::quoted(self.0.as_str()).as_str());
        s.append(": use 1-63 lowercase letters, digits or '-', starting with a letter");
        s
    }
}

impl Slug {
    pub fn parse(raw: &str) -> (res: Result<Slug, SlugError>)
        ensures
            match res {
                Ok(s) => valid_slug(raw@) && s@ == raw@,
                Err(e) => !valid_slug(raw@) && e.0@ == raw@,
            },
    {
        let v = chars_of(raw);
        let n = v.len();
        let mut ok = 1 <= n && n <= 63 && 'a' <= v[0] && v[0] <= 'z';
        let mut i: usize = 0;
        while ok && i < n
            invariant
                0 <= i <= n,
                n == v@.len(),
                ok ==> 1 <= n <= 63 && is_ascii_lower(v@[0]),
                ok ==> forall|k: int| 0 <= k < i ==> is_slug_char(#[trigger] v@[k]),
                !ok ==> !valid_slug(v@),
            decreases n - i,
        {
            let c = v[i];
            if !(('a' <= c && c <= 'z') || ('0' <= c && c <= '9') || c == '-') {
                ok = false;
            }
            i += 1;
        }
        if ok {
            Ok(Slug(String::from_str(raw)))
        } else {
            Err(SlugError(String::from_str(raw)))
        }
    }

    pub fn as_str(&self) -> (s: &str)
        ensures
            s@ == self@,
    {
        self.0.as_str()
    }

    /// A copy of this slug.
    pub fn duplicate(&self) -> (s: Slug)
        ensures
            s@ == self@,
    {
        Slug(String::from_str(self.0.as_str()))
    }
}

} // verus!
