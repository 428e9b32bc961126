//! Character-level helpers shared by the parsers: conversions between strings and
//! character vectors, whitespace, trimming, searching and splitting.

use vstd::prelude::*;
use vstd::utf8::encode_utf8;

verus! {

/// The characters of `s`, in order.
#[verifier::external_body]
pub(crate) fn chars_of(s: &str) -> (res: Vec<char>)
    ensures
        res@ == s@,
{
    s.chars().collect()
}

/// A string holding exactly the characters of `v`.
#[verifier::external_body]
pub(crate) fn string_of(v: &[char]) -> (res: String)
    ensures
        res@ == v@,
{
    v.iter().collect()
}

/// `s` written as Rust's `Debug` writes a string: in double quotes, with quotes,
/// backslashes, control and non-printable characters escaped.
pub uninterp spec fn debug_quoted(s: Seq<char>) -> Seq<char>;

/// Formats `s` with `{:?}`; the contract names the result.
#[verifier::external_body]
pub(crate) fn quoted(s: &str) -> (r: String)
    ensures
        r@ == debug_quoted(s@),
{
    format!("{s:?}")
}

/// The length of `v` in UTF-8 bytes.
pub fn utf8_len(v: &[char]) -> (n: u128)
    ensures
        n == encode_utf8(v@).len(),
{
    let mut total: u128 = 0;
    let mut i: usize = 0;
    let n = v.len();
    assert(v@.skip(0) =~= v@);
    while i < n
        invariant
            0 <= i <= v@.len(),
            total <= 4 * i,
            n == v@.len(),
            encode_utf8(v@).len() == total + encode_utf8(v@.skip(i as int)).len(),
        decreases v@.len() - i,
    {
        let c = v[i];
        let code = c as u32;
        let w: u128 = if code <= 0x7f {
            1
        } else if code <= 0x7ff {
            2
        } else if code <= 0xffff {
            3
        } else {
            4
        };
        proof {
            let rest = v@.skip(i as int);
            assert(rest[0] == c);
            assert(rest.drop_first() =~= v@.skip(i + 1));
            vstd::utf8::char_is_scalar(c);
            if code <= 0x7f {
                assert(vstd::utf8::encode_scalar(code).len() == 1);
            } else if code <= 0x7ff {
                assert(vstd::utf8::encode_scalar(code).len() == 2);
            } else if code <= 0xffff {
                assert(!(0xD800 <= code <= 0xDFFF));
                assert(vstd::utf8::encode_scalar(code).len() == 3);
            } else {
                assert(vstd::utf8::encode_scalar(code).len() == 4);
            }
        }
        total = total + w;
        i += 1;
    }
    assert(v@.skip(i as int) =~= Seq::<char>::empty());
    total
}

/// Unicode `White_Space`, the property behind `char::is_whitespace`.
pub open spec fn is_ws(c: char) -> bool {
    ||| ('\u{9}' <= c && c <= '\u{d}')
    ||| c == ' '
    ||| c == '\u{85}'
    ||| c == '\u{a0}'
    ||| c == '\u{1680}'
    ||| ('\u{2000}' <= c && c <= '\u{200a}')
    ||| c == '\u{2028}'
    ||| c == '\u{2029}'
    ||| c == '\u{202f}'
    ||| c == '\u{205f}'
    ||| c == '\u{3000}'
}

pub fn is_whitespace(c: char) -> (b: bool)
    ensures
        b == is_ws(c),
{
    ('\u{9}' <= c && c <= '\u{d}') || c == ' ' || c == '\u{85}' || c == '\u{a0}' || c == '\u{1680}'
        || ('\u{2000}' <= c && c <= '\u{200a}') || c == '\u{2028}' || c == '\u{2029}'
        || c == '\u{202f}' || c == '\u{205f}' || c == '\u{3000}'
}

pub open spec fn is_ascii_digit(c: char) -> bool {
    '0' <= c && c <= '9'
}

pub open spec fn is_ascii_lower(c: char) -> bool {
    'a' <= c && c <= 'z'
}

pub open spec fn is_ascii_upper(c: char) -> bool {
    'A' <= c && c <= 'Z'
}

pub open spec fn is_ascii_alpha(c: char) -> bool {
    is_ascii_lower(c) || is_ascii_upper(c)
}

pub open spec fn is_ascii_alnum(c: char) -> bool {
    is_ascii_alpha(c) || is_ascii_digit(c)
}

pub fn ascii_alnum(c: char) -> (b: bool)
    ensures
        b == is_ascii_alnum(c),
{
    ('a' <= c && c <= 'z') || ('A' <= c && c <= 'Z') || ('0' <= c && c <= '9')
}

/// What a trim removes: whitespace (`None`) or one given character.
pub open spec fn pat_matches(pat: Option<char>, c: char) -> bool {
    match pat {
        None => is_ws(c),
        Some(p) => c == p,
    }
}

fn pat_match(pat: Option<char>, c: char) -> (b: bool)
    ensures
        b == pat_matches(pat, c),
{
    match pat {
        None => is_whitespace(c),
        Some(p) => c == p,
    }
}

pub open spec fn trim_start(s: Seq<char>, pat: Option<char>) -> Seq<char>
    decreases s.len(),
{
    if s.len() > 0 && pat_matches(pat, s[0]) {
        trim_start(s.drop_first(), pat)
    } else {
        s
    }
}

pub open spec fn trim_end(s: Seq<char>, pat: Option<char>) -> Seq<char>
    decreases s.len(),
{
    if s.len() > 0 && pat_matches(pat, s.last()) {
        trim_end(s.drop_last(), pat)
    } else {
        s
    }
}

/// `str::trim` (`pat == None`) and `str::trim_matches(c)` (`pat == Some(c)`).
pub open spec fn trim(s: Seq<char>, pat: Option<char>) -> Seq<char> {
    trim_end(trim_start(s, pat), pat)
}

/// A copy of `v[from..to]`.
pub fn copy_range(v: &[char], from: usize, to: usize) -> (r: Vec<char>)
    requires
        from <= to <= v@.len(),
    ensures
        r@ == v@.subrange(from as int, to as int),
{
    let mut r: Vec<char> = Vec::new();
    let mut i: usize = from;
    while i < to
        invariant
            from <= i <= to <= v@.len(),
            r@ == v@.subrange(from as int, i as int),
        decreases to - i,
    {
        r.push(v[i]);
        i += 1;
        assert(r@ =~= v@.subrange(from as int, i as int));
    }
    r
}

/// Removes leading and trailing characters matching `pat`.
pub fn trim_pat(v: &[char], pat: Option<char>) -> (r: Vec<char>)
    ensures
        r@ == trim(v@, pat),
{
    let n = v.len();
    let mut i: usize = 0;
    assert(v@.subrange(0, n as int) =~= v@);
    while i < n && pat_match(pat, v[i])
        invariant
            0 <= i <= n,
            n == v@.len(),
            trim_start(v@, pat) == trim_start(v@.subrange(i as int, n as int), pat),
        decreases n - i,
    {
        assert(v@.subrange(i as int, n as int).drop_first() =~= v@.subrange(i + 1, n as int));
        i += 1;
    }
    assert(trim_start(v@, pat) == v@.subrange(i as int, n as int));
    let mut j: usize = n;
    while j > i && pat_match(pat, v[j - 1])
        invariant
            i <= j <= n,
            n == v@.len(),
            trim(v@, pat) == trim_end(v@.subrange(i as int, j as int), pat),
        decreases j,
    {
        assert(v@.subrange(i as int, j as int).drop_last() =~= v@.subrange(i as int, j - 1));
        j -= 1;
    }
    copy_range(v, i, j)
}

/// Removes trailing characters matching `pat`.
pub fn trim_end_pat(v: &[char], pat: Option<char>) -> (r: Vec<char>)
    ensures
        r@ == trim_end(v@, pat),
{
    let n = v.len();
    let mut j: usize = n;
    assert(v@.subrange(0, n as int) =~= v@);
    while j > 0 && pat_match(pat, v[j - 1])
        invariant
            j <= n,
            n == v@.len(),
            trim_end(v@, pat) == trim_end(v@.subrange(0, j as int), pat),
        decreases j,
    {
        assert(v@.subrange(0, j as int).drop_last() =~= v@.subrange(0, j - 1));
        j -= 1;
    }
    copy_range(v, 0, j)
}

pub open spec fn starts_with(s: Seq<char>, p: Seq<char>) -> bool {
    p.len() <= s.len() && s.take(p.len() as int) == p
}

pub open spec fn ends_with(s: Seq<char>, p: Seq<char>) -> bool {
    p.len() <= s.len() && s.skip(s.len() - p.len()) == p
}

pub fn has_prefix(v: &[char], p: &[char]) -> (b: bool)
    ensures
        b == starts_with(v@, p@),
{
    if p.len() > v.len() {
        return false;
    }
    let mut i: usize = 0;
    while i < p.len()
        invariant
            0 <= i <= p@.len() <= v@.len(),
            forall|k: int| 0 <= k < i ==> v@[k] == p@[k],
        decreases p@.len() - i,
    {
        if v[i] != p[i] {
            assert(v@.take(p@.len() as int)[i as int] != p@[i as int]);
            return false;
        }
        i += 1;
    }
    assert(v@.take(p@.len() as int) =~= p@);
    true
}

pub fn has_suffix(v: &[char], p: &[char]) -> (b: bool)
    ensures
        b == ends_with(v@, p@),
{
    if p.len() > v.len() {
        return false;
    }
    let n = v.len();
    let off = n - p.len();
    let mut i: usize = 0;
    while i < p.len()
        invariant
            0 <= i <= p@.len() <= v@.len(),
            off == v@.len() - p@.len(),
            off + p@.len() == n,
            n == v@.len(),
            forall|k: int| 0 <= k < i ==> v@[off + k] == p@[k],
        decreases p@.len() - i,
    {
        if v[off + i] != p[i] {
            assert(v@.skip(off as int)[i as int] != p@[i as int]);
            return false;
        }
        i += 1;
    }
    assert(v@.skip(off as int) =~= p@);
    true
}

/// Index of the first `c` in `s`, or -1.
pub open spec fn find(s: Seq<char>, c: char) -> int
    decreases s.len(),
{
    if s.len() == 0 {
        -1
    } else if s[0] == c {
        0
    } else {
        let r = find(s.drop_first(), c);
        if r < 0 {
            -1
        } else {
            r + 1
        }
    }
}

pub proof fn lemma_find(s: Seq<char>, c: char)
    ensures
        -1 <= find(s, c) < s.len(),
        find(s, c) == -1 ==> forall|k: int| 0 <= k < s.len() ==> s[k] != c,
        find(s, c) >= 0 ==> s[find(s, c)] == c,
        forall|k: int| 0 <= k < find(s, c) ==> s[k] != c,
    decreases s.len(),
{
    if s.len() > 0 && s[0] != c {
        lemma_find(s.drop_first(), c);
        assert forall|k: int| 0 <= k < s.len() && find(s, c) == -1 implies s[k] != c by {
            if k > 0 {
                assert(s[k] == s.drop_first()[k - 1]);
            }
        }
        assert forall|k: int| 0 <= k < find(s, c) implies s[k] != c by {
            if k > 0 {
                assert(s[k] == s.drop_first()[k - 1]);
            }
        }
    }
}

/// `find` is the unique index with its defining property.
pub proof fn lemma_find_unique(s: Seq<char>, c: char, i: int)
    requires
        (0 <= i < s.len() && s[i] == c && forall|k: int| 0 <= k < i ==> s[k] != c)
            || (i == -1 && forall|k: int| 0 <= k < s.len() ==> s[k] != c),
    ensures
        find(s, c) == i,
{
    lemma_find(s, c);
    let f = find(s, c);
    if f >= 0 && i >= 0 {
        if f < i {
            assert(s[f] != c);
        } else if i < f {
            assert(s[i] != c);
        }
    } else if f >= 0 {
        assert(s[f] != c);
    } else if i >= 0 {
        assert(s[i] != c);
    }
}

/// Index of the first `c` in `v[from..]`, relative to `from`, or -1.
pub fn find_from(v: &[char], c: char, from: usize) -> (r: Option<usize>)
    requires
        from <= v@.len(),
    ensures
        r is None ==> find(v@.skip(from as int), c) == -1,
        r matches Some(k) ==> from <= k < v@.len() && find(v@.skip(from as int), c) == k - from,
{
    let mut i: usize = from;
    while i < v.len()
        invariant
            from <= i <= v@.len(),
            forall|k: int| from <= k < i ==> v@[k] != c,
        decreases v@.len() - i,
    {
        if v[i] == c {
            proof {
                let s = v@.skip(from as int);
                assert forall|k: int| 0 <= k < i - from implies s[k] != c by {
                    assert(s[k] == v@[from + k]);
                }
                lemma_find_unique(s, c, i - from);
            }
            return Some(i);
        }
        i += 1;
    }
    proof {
        let s = v@.skip(from as int);
        assert forall|k: int| 0 <= k < s.len() implies s[k] != c by {
            assert(s[k] == v@[from + k]);
        }
        lemma_find_unique(s, c, -1);
    }
    None
}

/// `str::split(c)`: the pieces between occurrences of `c`; an empty input gives one
/// empty piece.
pub open spec fn split(s: Seq<char>, c: char) -> Seq<Seq<char>>
    decreases s.len(),
{
    let i = find(s, c);
    if i < 0 {
        seq![s]
    } else {
        proof {
            lemma_find(s, c);
        }
        seq![s.take(i)] + split(s.skip(i + 1), c)
    }
}

/// The views of a sequence of character vectors.
pub open spec fn views(v: Seq<Vec<char>>) -> Seq<Seq<char>> {
    Seq::new(v.len(), |i: int| v[i]@)
}

/// Whether some vector of `v` holds exactly the characters of `x`.
pub fn contains_chars(v: &Vec<Vec<char>>, x: &[char]) -> (r: bool)
    ensures
        r == views(v@).contains(x@),
{
    let mut i: usize = 0;
    while i < v.len()
        invariant
            0 <= i <= v@.len(),
            forall|k: int| 0 <= k < i ==> v@[k]@ != x@,
        decreases v@.len() - i,
    {
        if compare_chars(&v[i], x) == 0 {
            assert(views(v@)[i as int] == x@);
            return true;
        }
        i += 1;
    }
    assert forall|k: int| 0 <= k < views(v@).len() implies views(v@)[k] != x@ by {
        assert(views(v@)[k] == v@[k]@);
    }
    false
}

pub open spec fn digit_char(d: nat) -> char {
    if d == 0 {
        '0'
    } else if d == 1 {
        '1'
    } else if d == 2 {
        '2'
    } else if d == 3 {
        '3'
    } else if d == 4 {
        '4'
    } else if d == 5 {
        '5'
    } else if d == 6 {
        '6'
    } else if d == 7 {
        '7'
    } else if d == 8 {
        '8'
    } else {
        '9'
    }
}

/// The decimal digits of `n`.
pub open spec fn decimal(n: nat) -> Seq<char>
    decreases n,
{
    if n < 10 {
        seq![digit_char(n)]
    } else {
        decimal(n / 10).push(digit_char(n % 10))
    }
}

pub proof fn lemma_digit_char(d: nat)
    requires
        d < 10,
    ensures
        digit_char(d) as int == d + 48,
{
}

pub proof fn lemma_decimal_len(n: nat)
    ensures
        decimal(n).len() >= 1,
        n >= 10 ==> decimal(n).len() >= 2,
    decreases n,
{
    if n >= 10 {
        lemma_decimal_len(n / 10);
    }
}

/// Different numbers have different decimal forms.
pub proof fn lemma_decimal_injective(a: nat, b: nat)
    requires
        decimal(a) == decimal(b),
    ensures
        a == b,
    decreases a,
{
    lemma_decimal_len(a);
    lemma_decimal_len(b);
    if a >= 10 && b >= 10 {
        assert(decimal(a).drop_last() =~= decimal(a / 10));
        assert(decimal(b).drop_last() =~= decimal(b / 10));
        lemma_decimal_injective(a / 10, b / 10);
        assert(decimal(a).last() == digit_char(a % 10));
        assert(decimal(b).last() == digit_char(b % 10));
        lemma_digit_char(a % 10);
        lemma_digit_char(b % 10);
        assert(a % 10 == b % 10);
        vstd::arithmetic::div_mod::lemma_fundamental_div_mod(a as int, 10);
        vstd::arithmetic::div_mod::lemma_fundamental_div_mod(b as int, 10);
    } else if a < 10 && b < 10 {
        assert(decimal(a) == seq![digit_char(a)]);
        assert(decimal(b) == seq![digit_char(b)]);
        assert(seq![digit_char(a)][0] == digit_char(a));
        assert(seq![digit_char(b)][0] == digit_char(b));
        lemma_digit_char(a);
        lemma_digit_char(b);
    } else {
        assert(decimal(a).len() == decimal(b).len());
    }
}

pub fn digit(d: u64) -> (c: char)
    requires
        d < 10,
    ensures
        c == digit_char(d as nat),
{
    match d {
        0 => '0',
        1 => '1',
        2 => '2',
        3 => '3',
        4 => '4',
        5 => '5',
        6 => '6',
        7 => '7',
        8 => '8',
        _ => '9',
    }
}

/// Appends the decimal digits of `n`.
pub fn push_decimal(out: &mut Vec<char>, n: u64)
    ensures
        final(out)@ == old(out)@ + decimal(n as nat),
    decreases n,
{
    if n >= 10 {
        push_decimal(out, n / 10);
    }
    out.push(digit(n % 10));
    if n >= 10 {
        assert(decimal(n as nat) == decimal((n / 10) as nat).push(digit_char((n % 10) as nat)));
    }
}

/// The decimal digits of `n` as a string.
pub fn decimal_string(n: u64) -> (s: String)
    ensures
        s@ == decimal(n as nat),
{
    let mut v: Vec<char> = Vec::new();
    push_decimal(&mut v, n);
    assert(v@ =~= decimal(n as nat));
    string_of(&v)
}

/// Pushing an element adds it to the sequence's set.
pub proof fn lemma_push_to_set<A>(s: Seq<A>, x: A)
    ensures
        s.push(x).to_set() == s.to_set().insert(x),
{
    let w = s.push(x);
    assert forall|y: A| w.contains(y) <==> (s.contains(y) || y == x) by {
        if s.contains(y) {
            let k = choose|k: int| 0 <= k < s.len() && s[k] == y;
            assert(w[k] == y);
        }
        if y == x {
            assert(w[s.len() as int] == y);
        }
        if w.contains(y) {
            let k = choose|k: int| 0 <= k < w.len() && w[k] == y;
            if k < s.len() {
                assert(s[k] == y);
            }
        }
    }
    assert(w.to_set() =~= s.to_set().insert(x));
}

/// Pushing a vector pushes its view.
pub proof fn lemma_views_push(v: Seq<Vec<char>>, x: Vec<char>)
    ensures
        views(v.push(x)) == views(v).push(x@),
{
    assert(views(v.push(x)) =~= views(v).push(x@));
}

pub fn split_chars(v: &[char], c: char) -> (r: Vec<Vec<char>>)
    ensures
        views(r@) == split(v@, c),
{
    let mut out: Vec<Vec<char>> = Vec::new();
    let mut start: usize = 0;
    let n = v.len();
    assert(v@.skip(0) =~= v@);
    loop
        invariant
            start <= v@.len(),
            n == v@.len(),
            views(out@) + split(v@.skip(start as int), c) == split(v@, c),
        decreases v@.len() - start,
    {
        let rest = Ghost(v@.skip(start as int));
        match find_from(v, c, start) {
            None => {
                let piece = copy_range(v, start, v.len());
                assert(piece@ =~= rest@);
                let ghost old_out = out@;
                out.push(piece);
                assert(views(out@) =~= views(old_out) + seq![rest@]);
                return out;
            }
            Some(k) => {
                assert(k < n);
                let piece = copy_range(v, start, k);
                proof {
                    assert(piece@ =~= rest@.take(k - start));
                    assert(rest@.skip(k - start + 1) =~= v@.skip(k + 1));
                }
                let ghost old_out = out@;
                out.push(piece);
                assert(views(out@) =~= views(old_out) + seq![piece@]);
                assert(views(out@) + split(v@.skip(k + 1), c) =~= views(old_out) + split(rest@, c));
                start = k + 1;
            }
        }
    }
}

/// Joins `parts` with `sep` between consecutive parts.
pub open spec fn join(parts: Seq<Seq<char>>, sep: char) -> Seq<char>
    decreases parts.len(),
{
    if parts.len() == 0 {
        seq![]
    } else if parts.len() == 1 {
        parts[0]
    } else {
        join(parts.drop_last(), sep) + seq![sep] + parts.last()
    }
}

pub fn join_chars(parts: &Vec<Vec<char>>, sep: char) -> (r: Vec<char>)
    ensures
        r@ == join(views(parts@), sep),
{
    let mut r: Vec<char> = Vec::new();
    let mut i: usize = 0;
    while i < parts.len()
        invariant
            0 <= i <= parts@.len(),
            r@ == join(views(parts@).take(i as int), sep),
        decreases parts@.len() - i,
    {
        let ghost prev = r@;
        if i > 0 {
            r.push(sep);
        }
        let mut j: usize = 0;
        let ghost mid = r@;
        while j < parts[i].len()
            invariant
                0 <= j <= parts@[i as int]@.len(),
                i < parts@.len(),
                r@ == mid + parts@[i as int]@.take(j as int),
            decreases parts@[i as int]@.len() - j,
        {
            r.push(parts[i][j]);
            j += 1;
            assert(r@ =~= mid + parts@[i as int]@.take(j as int));
        }
        assert(parts@[i as int]@.take(j as int) =~= parts@[i as int]@);
        assert(views(parts@).take(i + 1).drop_last() =~= views(parts@).take(i as int));
        if i == 0 {
            assert(r@ =~= join(views(parts@).take(1), sep));
        }
        i += 1;
    }
    assert(views(parts@).take(i as int) =~= views(parts@));
    r
}

} // verus!

verus! {

/// Lexicographic order on character sequences, by code point. It agrees with the
/// byte order of their UTF-8 encodings, which is how `String` compares.
pub open spec fn seq_lt(a: Seq<char>, b: Seq<char>) -> bool
    decreases a.len(),
{
    if a.len() == 0 {
        b.len() > 0
    } else if b.len() == 0 {
        false
    } else if a[0] != b[0] {
        (a[0] as u32) < (b[0] as u32)
    } else {
        seq_lt(a.drop_first(), b.drop_first())
    }
}

pub proof fn lemma_seq_lt_irreflexive(a: Seq<char>)
    ensures
        !seq_lt(a, a),
    decreases a.len(),
{
    if a.len() > 0 {
        lemma_seq_lt_irreflexive(a.drop_first());
    }
}

pub proof fn lemma_seq_lt_asym(a: Seq<char>, b: Seq<char>)
    ensures
        seq_lt(a, b) ==> !seq_lt(b, a),
    decreases a.len(),
{
    if a.len() > 0 && b.len() > 0 && a[0] == b[0] {
        lemma_seq_lt_asym(a.drop_first(), b.drop_first());
    }
}

pub proof fn lemma_seq_lt_total(a: Seq<char>, b: Seq<char>)
    ensures
        a != b ==> seq_lt(a, b) || seq_lt(b, a),
    decreases a.len(),
{
    if a.len() > 0 && b.len() > 0 && a[0] == b[0] {
        lemma_seq_lt_total(a.drop_first(), b.drop_first());
        if a != b {
            assert(a.drop_first() != b.drop_first()) by {
                if a.drop_first() == b.drop_first() {
                    assert(a =~= seq![a[0]] + a.drop_first());
                    assert(b =~= seq![b[0]] + b.drop_first());
                }
            }
        }
    } else if a.len() == 0 && b.len() == 0 {
        assert(a =~= b);
    } else if a.len() > 0 && b.len() > 0 {
        vstd::utf8::char_u32_cast(a[0], a[0] as u32);
        vstd::utf8::char_u32_cast(b[0], b[0] as u32);
    }
}

pub proof fn lemma_seq_lt_trans(a: Seq<char>, b: Seq<char>, c: Seq<char>)
    requires
        seq_lt(a, b),
        seq_lt(b, c),
    ensures
        seq_lt(a, c),
    decreases a.len(),
{
    if a.len() > 0 && b.len() > 0 && c.len() > 0 && a[0] == b[0] && b[0] == c[0] {
        lemma_seq_lt_trans(a.drop_first(), b.drop_first(), c.drop_first());
    }
}

/// Three-way comparison of `a` and `b` in [`seq_lt`] order: negative, zero or
/// positive.
pub fn compare_chars(a: &[char], b: &[char]) -> (r: i8)
    ensures
        r < 0 <==> seq_lt(a@, b@),
        r == 0 <==> a@ == b@,
        r > 0 <==> seq_lt(b@, a@),
{
    let mut i: usize = 0;
    proof {
        assert(a@.skip(0) =~= a@);
        assert(b@.skip(0) =~= b@);
    }
    while i < a.len() && i < b.len() && a[i] == b[i]
        invariant
            0 <= i <= a@.len(),
            i <= b@.len(),
            a@.take(i as int) == b@.take(i as int),
            seq_lt(a@, b@) == seq_lt(a@.skip(i as int), b@.skip(i as int)),
            seq_lt(b@, a@) == seq_lt(b@.skip(i as int), a@.skip(i as int)),
        decreases a@.len() - i,
    {
        assert(a@.skip(i as int).drop_first() =~= a@.skip(i + 1));
        assert(b@.skip(i as int).drop_first() =~= b@.skip(i + 1));
        assert(a@.take(i + 1) =~= a@.take(i as int).push(a@[i as int]));
        assert(b@.take(i + 1) =~= b@.take(i as int).push(b@[i as int]));
        i += 1;
    }
    proof {
        lemma_seq_lt_irreflexive(a@);
        lemma_seq_lt_asym(a@, b@);
        lemma_seq_lt_total(a@, b@);
    }
    if i < a.len() && i < b.len() {
        proof {
            assert(a@.skip(i as int)[0] == a@[i as int]);
            assert(b@.skip(i as int)[0] == b@[i as int]);
            assert(a@[i as int] != b@[i as int]);
            assert(a@ != b@) by {
                if a@ == b@ {
                    assert(a@[i as int] == b@[i as int]);
                }
            }
        }
        if (a[i] as u32) < (b[i] as u32) {
            -1
        } else {
            1
        }
    } else if i < b.len() {
        assert(a@ =~= a@.take(i as int));
        assert(a@ != b@);
        -1
    } else if i < a.len() {
        assert(b@ =~= b@.take(i as int));
        assert(a@ != b@);
        1
    } else {
        assert(a@ =~= a@.take(i as int));
        assert(b@ =~= b@.take(i as int));
        0
    }
}

} // verus!

verus! {

/// Character sequences in strictly increasing [`seq_lt`] order.
pub open spec fn strictly_sorted(s: Seq<Seq<char>>) -> bool {
    forall|i: int, j: int| 0 <= i < j < s.len() ==> seq_lt(#[trigger] s[i], #[trigger] s[j])
}

/// Strictly sorted sequences are determined by their elements.
pub proof fn lemma_sorted_set_unique(a: Seq<Seq<char>>, b: Seq<Seq<char>>)
    requires
        strictly_sorted(a),
        strictly_sorted(b),
        forall|x: Seq<char>| a.contains(x) <==> b.contains(x),
    ensures
        a == b,
    decreases a.len(),
{
    if a.len() == 0 {
        if b.len() > 0 {
            assert(b.contains(b[0]));
        }
        assert(a =~= b);
    } else {
        assert(a.contains(a[0]));
        assert(b.len() > 0);
        assert(b.contains(b[0]));
        let j = choose|j: int| 0 <= j < b.len() && b[j] == a[0];
        let i = choose|i: int| 0 <= i < a.len() && a[i] == b[0];
        lemma_seq_lt_irreflexive(a[0]);
        lemma_seq_lt_asym(a[0], b[0]);
        if j > 0 {
            assert(seq_lt(b[0], b[j]));
            if i > 0 {
                assert(seq_lt(a[0], a[i]));
            }
        }
        assert(a[0] == b[0]);
        let ta = a.drop_first();
        let tb = b.drop_first();
        assert(strictly_sorted(ta)) by {
            assert forall|x: int, y: int| 0 <= x < y < ta.len() implies seq_lt(#[trigger] ta[x], #[trigger] ta[y]) by {
                assert(ta[x] == a[x + 1] && ta[y] == a[y + 1]);
            }
        }
        assert(strictly_sorted(tb)) by {
            assert forall|x: int, y: int| 0 <= x < y < tb.len() implies seq_lt(#[trigger] tb[x], #[trigger] tb[y]) by {
                assert(tb[x] == b[x + 1] && tb[y] == b[y + 1]);
            }
        }
        assert forall|x: Seq<char>| ta.contains(x) <==> tb.contains(x) by {
            if ta.contains(x) {
                let p = choose|p: int| 0 <= p < ta.len() && ta[p] == x;
                assert(a[p + 1] == x);
                assert(seq_lt(a[0], a[p + 1]));
                assert(b.contains(x));
                let q = choose|q: int| 0 <= q < b.len() && b[q] == x;
                if q == 0 {
                    assert(false);
                }
                assert(tb[q - 1] == x);
            }
            if tb.contains(x) {
                let p = choose|p: int| 0 <= p < tb.len() && tb[p] == x;
                assert(b[p + 1] == x);
                assert(seq_lt(b[0], b[p + 1]));
                assert(a.contains(x));
                let q = choose|q: int| 0 <= q < a.len() && a[q] == x;
                if q == 0 {
                    assert(false);
                }
                assert(ta[q - 1] == x);
            }
        }
        lemma_sorted_set_unique(ta, tb);
        assert(a =~= seq![a[0]] + ta);
        assert(b =~= seq![b[0]] + tb);
    }
}

/// Where `x` belongs in the strictly sorted `v`: every entry before the slot sorts
/// before `x`, the entry at the slot (if any) does not; and whether that entry is
/// `x` itself.
pub fn sorted_slot(v: &Vec<Vec<char>>, x: &[char]) -> (r: (usize, bool))
    requires
        strictly_sorted(views(v@)),
    ensures
        r.0 <= v@.len(),
        forall|k: int| 0 <= k < r.0 ==> seq_lt(#[trigger] views(v@)[k], x@),
        r.0 < v@.len() ==> !seq_lt(views(v@)[r.0 as int], x@),
        r.1 == (r.0 < v@.len() && views(v@)[r.0 as int] == x@),
{
    let ghost s = views(v@);
    let n = v.len();
    let mut i: usize = 0;
    while i < n
        invariant_except_break
            0 <= i <= n,
            n == v@.len(),
            s == views(v@),
            forall|k: int| 0 <= k < i ==> seq_lt(#[trigger] s[k], x@),
        ensures
            0 <= i <= n,
            forall|k: int| 0 <= k < i ==> seq_lt(#[trigger] s[k], x@),
            i < n ==> !seq_lt(s[i as int], x@),
        decreases n - i,
    {
        let c = compare_chars(&v[i], x);
        assert(v@[i as int]@ == s[i as int]);
        if c >= 0 {
            break;
        }
        i += 1;
    }
    if i < n {
        let c = compare_chars(&v[i], x);
        assert(v@[i as int]@ == s[i as int]);
        (i, c == 0)
    } else {
        (i, false)
    }
}

/// Inserting `x` at its slot keeps a strictly sorted sequence strictly sorted and
/// adds exactly `x`.
pub proof fn lemma_sorted_insert(s: Seq<Seq<char>>, i: int, x: Seq<char>)
    requires
        strictly_sorted(s),
        0 <= i <= s.len(),
        forall|k: int| 0 <= k < i ==> seq_lt(#[trigger] s[k], x),
        i < s.len() ==> !seq_lt(s[i], x) && s[i] != x,
    ensures
        strictly_sorted(s.insert(i, x)),
        forall|y: Seq<char>| #[trigger] s.insert(i, x).contains(y) <==> (s.contains(y) || y == x),
{
    let t = s.insert(i, x);
    assert forall|p: int, q: int| 0 <= p < q < t.len() implies seq_lt(#[trigger] t[p], #[trigger] t[q]) by {
        if q < i {
            assert(t[p] == s[p] && t[q] == s[q]);
        } else if q == i {
            assert(t[p] == s[p]);
        } else {
            assert(t[q] == s[q - 1]);
            lemma_seq_lt_total(s[i], x);
            assert(seq_lt(x, s[i]));
            if q - 1 > i {
                assert(seq_lt(s[i], s[q - 1]));
                lemma_seq_lt_trans(x, s[i], s[q - 1]);
            }
            if p < i {
                assert(t[p] == s[p]);
                lemma_seq_lt_trans(s[p], x, s[q - 1]);
            } else if p > i {
                assert(t[p] == s[p - 1]);
            }
        }
    }
    assert forall|y: Seq<char>| t.contains(y) <==> (s.contains(y) || y == x) by {
        if t.contains(y) {
            let p = choose|p: int| 0 <= p < t.len() && t[p] == y;
            if p < i {
                assert(s[p] == y);
            } else if p > i {
                assert(s[p - 1] == y);
            }
        }
        if s.contains(y) {
            let p = choose|p: int| 0 <= p < s.len() && s[p] == y;
            if p < i {
                assert(t[p] == y);
            } else {
                assert(t[p + 1] == y);
            }
        }
        if y == x {
            assert(t[i] == y);
        }
    }
}

/// Adds `x` to a strictly sorted vector, keeping it strictly sorted; nothing
/// changes when `x` is already there.
pub fn insert_sorted(v: &mut Vec<Vec<char>>, x: Vec<char>)
    requires
        strictly_sorted(views(old(v)@)),
    ensures
        strictly_sorted(views(final(v)@)),
        forall|y: Seq<char>| views(final(v)@).contains(y) <==> (views(old(v)@).contains(y) || y == x@),
{
    let ghost old_s = views(v@);
    let (i, found) = sorted_slot(v, &x);
    if found {
        assert forall|y: Seq<char>| views(v@).contains(y) <==> (old_s.contains(y) || y == x@) by {
            if y == x@ {
                assert(old_s[i as int] == y);
            }
        }
        return;
    }
    let ghost xv = x@;
    v.insert(i, x);
    proof {
        assert(views(v@) =~= old_s.insert(i as int, xv));
        lemma_sorted_insert(old_s, i as int, xv);
    }
}

} // verus!
