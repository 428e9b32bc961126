//! Content hashing.
//!
//! Solidate uses two kinds of hashes, both BLAKE3:
//!
//! - A **content hash** covers the exact bytes a person or tool wrote. It identifies a
//!   blob and is the HTTP `ETag`, so any byte change, even whitespace, produces a new one.
//! - A **semantic hash** covers normalized Markdown (see [`crate::markdown::normalize`]).
//!   Sync tracking uses it so that reformatting a section does not mark its
//!   counterpart stale.
//!
//! [`Merkle`] rolls many hashes into one so a client can check a whole document or
//! project with a single comparison.

use vstd::prelude::*;
use vstd::utf8::encode_utf8;

use crate::text::{
    chars_of, compare_chars, lemma_seq_lt_asym, lemma_seq_lt_irreflexive, lemma_seq_lt_total,
    lemma_seq_lt_trans, seq_lt, string_of,
};

verus! {

/// The BLAKE3 digest of `data`, as computed by `blake3::hash`.
pub uninterp spec fn blake3_hash(data: Seq<u8>) -> Seq<u8>;

/// Calls `blake3::hash`, the 256-bit BLAKE3 digest of `data`. Trusted to return, for
/// equal inputs, equal digests (the named result [`blake3_hash`]).
#[verifier::external_body]
fn blake3_digest(data: &[u8]) -> (r: [u8; 32])
    ensures
        r@ == blake3_hash(data@),
{
    *blake3::hash(data).as_bytes()
}

/// A 256-bit BLAKE3 digest.
#[derive(Clone, Copy, Eq, Hash, PartialOrd, Ord, Debug)]
pub struct Hash(pub(crate) [u8; 32]);

impl PartialEq for Hash {
    fn eq(&self, other: &Self) -> (r: bool) {
        let mut i: usize = 0;
        while i < 32
            invariant
                0 <= i <= 32,
                forall|k: int| 0 <= k < i ==> self.0@[k] == other.0@[k],
            decreases 32 - i,
        {
            if self.0[i] != other.0[i] {
                return false;
            }
            i += 1;
        }
        proof {
            assert(self.0@ =~= other.0@);
            vstd::array::axiom_array_ext_equal(self.0, other.0);
        }
        true
    }
}

impl vstd::std_specs::cmp::PartialEqSpecImpl for Hash {
    open spec fn obeys_eq_spec() -> bool {
        true
    }

    open spec fn eq_spec(&self, other: &Hash) -> bool {
        *self == *other
    }
}

impl View for Hash {
    type V = Seq<u8>;

    closed spec fn view(&self) -> Seq<u8> {
        self.0@
    }
}

/// The hash of `data`.
pub open spec fn hash_of(data: Seq<u8>) -> Seq<u8> {
    blake3_hash(data)
}

/// The lowercase hexadecimal digit for `n < 16`.
pub open spec fn hex_char(n: u8) -> char {
    if n < 10 {
        ((n + 48) as u8) as char
    } else {
        ((n + 87) as u8) as char
    }
}

/// Lowercase hexadecimal, two digits per byte, high nibble first.
pub open spec fn hex_of(b: Seq<u8>) -> Seq<char> {
    Seq::new(
        2 * b.len(),
        |i: int|
            if i % 2 == 0 {
                hex_char(b[i / 2] / 16)
            } else {
                hex_char(b[i / 2] % 16)
            },
    )
}

/// The value of a hexadecimal digit of either case, if `c` is one.
pub open spec fn hex_value(c: char) -> Option<u8> {
    if '0' <= c && c <= '9' {
        Some(((c as u32) - 48) as u8)
    } else if 'a' <= c && c <= 'f' {
        Some(((c as u32) - 87) as u8)
    } else if 'A' <= c && c <= 'F' {
        Some(((c as u32) - 55) as u8)
    } else {
        None
    }
}

/// The 32 bytes spelled by 64 hexadecimal digits, if `s` is that.
pub open spec fn parse_hex(s: Seq<char>) -> Option<Seq<u8>> {
    if s.len() == 64 && forall|i: int| 0 <= i < 64 ==> (#[trigger] hex_value(s[i])) is Some {
        Some(
            Seq::new(
                32,
                |i: int| (16 * hex_value(s[2 * i])->Some_0 + hex_value(s[2 * i + 1])->Some_0) as u8,
            ),
        )
    } else {
        None
    }
}

pub(crate) fn hex_digit(n: u8) -> (c: char)
    requires
        n < 16,
    ensures
        c == hex_char(n),
{
    if n < 10 {
        ((n + 48) as u8) as char
    } else {
        ((n + 87) as u8) as char
    }
}

fn hex_val(c: char) -> (r: Option<u8>)
    ensures
        r == hex_value(c),
{
    if '0' <= c && c <= '9' {
        Some(((c as u32) - 48) as u8)
    } else if 'a' <= c && c <= 'f' {
        Some(((c as u32) - 87) as u8)
    } else if 'A' <= c && c <= 'F' {
        Some(((c as u32) - 55) as u8)
    } else {
        None
    }
}

/// Why a hash did not parse.
#[derive(Debug, Clone, Copy, PartialEq, Eq)]
pub struct ParseHashError;

impl ParseHashError {
    /// The message.
    pub fn to_string(&self) -> (s: String)
        ensures
            s@ == "invalid hash: expected 64 hex characters"@,
    {
        String::from_str("invalid hash: expected 64 hex characters")
    }
}

impl Hash {
    /// The hash of `bytes`.
    pub fn of(bytes: &[u8]) -> (h: Hash)
        ensures
            h@ == hash_of(bytes@),
    {
        Hash(blake3_digest(bytes))
    }

    /// The hash of the UTF-8 bytes of `s`.
    pub fn of_str(s: &str) -> (h: Hash)
        ensures
            h@ == hash_of(encode_utf8(s@)),
    {
        Hash(blake3_digest(s.as_bytes()))
    }

    pub fn from_bytes(bytes: [u8; 32]) -> (h: Hash)
        ensures
            h@ == bytes@,
    {
        Hash(bytes)
    }

    pub fn as_bytes(&self) -> (b: &[u8; 32])
        ensures
            b@ == self@,
    {
        &self.0
    }

    /// Lowercase hexadecimal, 64 characters.
    pub fn to_hex(&self) -> (s: String)
        ensures
            s@ == hex_of(self@),
    {
        string_of(&self.hex_chars())
    }

    fn hex_chars(&self) -> (r: Vec<char>)
        ensures
            r@ == hex_of(self@),
    {
        let mut out: Vec<char> = Vec::new();
        let mut i: usize = 0;
        while i < 32
            invariant
                0 <= i <= 32,
                self@.len() == 32,
                out@.len() == 2 * i,
                forall|j: int| 0 <= j < 2 * i ==> #[trigger] out@[j] == hex_of(self@)[j],
            decreases 32 - i,
        {
            let b = self.0[i];
            out.push(hex_digit(b / 16));
            out.push(hex_digit(b % 16));
            i += 1;
        }
        assert(out@ =~= hex_of(self@));
        out
    }

    /// The first 12 hex characters. Use only for display, never for comparison.
    pub fn short(&self) -> (s: String)
        ensures
            s@ == hex_of(self@).take(12),
    {
        let h = self.hex_chars();
        let mut out: Vec<char> = Vec::new();
        let mut i: usize = 0;
        while i < 12
            invariant
                0 <= i <= 12,
                h@ == hex_of(self@),
                h@.len() == 64,
                out@ == h@.take(i as int),
            decreases 12 - i,
        {
            out.push(h[i]);
            i += 1;
            assert(out@ =~= h@.take(i as int));
        }
        string_of(&out)
    }

    /// Parses 64 hexadecimal digits of either case.
    pub fn parse(s: &str) -> (r: Result<Hash, ParseHashError>)
        ensures
            match r {
                Ok(h) => parse_hex(s@) == Some(h@),
                Err(_) => parse_hex(s@) is None,
            },
    {
        let v = chars_of(s);
        if v.len() != 64 {
            return Err(ParseHashError);
        }
        let mut bytes: [u8; 32] = [0u8; 32];
        let mut i: usize = 0;
        while i < 32
            invariant
                0 <= i <= 32,
                v@.len() == 64,
                v@ == s@,
                forall|k: int| 0 <= k < 2 * i ==> (#[trigger] hex_value(v@[k])) is Some,
                forall|k: int|
                    0 <= k < i ==> #[trigger] bytes@[k] == (16 * hex_value(v@[2 * k])->Some_0
                        + hex_value(v@[2 * k + 1])->Some_0) as u8,
            decreases 32 - i,
        {
            let hi = match hex_val(v[2 * i]) {
                Some(x) => x,
                None => {
                    assert(!(hex_value(v@[2 * i as int]) is Some));
                    return Err(ParseHashError);
                },
            };
            let lo = match hex_val(v[2 * i + 1]) {
                Some(x) => x,
                None => {
                    assert(!(hex_value(v@[2 * i + 1]) is Some));
                    return Err(ParseHashError);
                },
            };
            assert(hi < 16 && lo < 16);
            bytes.set(i, 16 * hi + lo);
            i += 1;
        }
        let h = Hash(bytes);
        assert(h@ =~= parse_hex(v@)->Some_0);
        Ok(h)
    }
}

} // verus!

verus! {

/// Keyed entries in strictly increasing key order.
pub open spec fn sorted_keys(s: Seq<(Seq<char>, Hash)>) -> bool {
    forall|i: int, j: int| 0 <= i < j < s.len() ==> seq_lt(#[trigger] s[i].0, #[trigger] s[j].0)
}

/// The key-to-hash map that a sequence of entries spells.
pub open spec fn entries_map(s: Seq<(Seq<char>, Hash)>) -> Map<Seq<char>, Hash>
    decreases s.len(),
{
    if s.len() == 0 {
        Map::empty()
    } else {
        entries_map(s.drop_first()).insert(s[0].0, s[0].1)
    }
}

/// The entries of `m` in key order.
pub open spec fn in_key_order(m: Map<Seq<char>, Hash>) -> Seq<(Seq<char>, Hash)> {
    choose|s: Seq<(Seq<char>, Hash)>| sorted_keys(s) && entries_map(s) == m
}

/// The bytes a Merkle root hashes: `key \0 hex \n` for each entry, in order.
pub open spec fn merkle_bytes(s: Seq<(Seq<char>, Hash)>) -> Seq<u8>
    decreases s.len(),
{
    if s.len() == 0 {
        seq![]
    } else {
        let (k, h) = s.last();
        merkle_bytes(s.drop_last()) + encode_utf8(k) + seq![0u8] + encode_utf8(hex_of(h@)) + seq![10u8]
    }
}

/// The root hash of a Merkle whose entries are `m`.
pub open spec fn merkle_root(m: Map<Seq<char>, Hash>) -> Seq<u8> {
    hash_of(merkle_bytes(in_key_order(m)))
}

pub proof fn lemma_entries_map(s: Seq<(Seq<char>, Hash)>)
    requires
        sorted_keys(s),
    ensures
        forall|k: Seq<char>|
            entries_map(s).dom().contains(k) <==> exists|i: int| 0 <= i < s.len() && #[trigger] s[i].0 == k,
        forall|i: int| 0 <= i < s.len() ==> entries_map(s)[#[trigger] s[i].0] == s[i].1,
    decreases s.len(),
{
    if s.len() > 0 {
        let t = s.drop_first();
        assert(sorted_keys(t)) by {
            assert forall|i: int, j: int| 0 <= i < j < t.len() implies seq_lt(#[trigger] t[i].0, #[trigger] t[j].0) by {
                assert(t[i] == s[i + 1] && t[j] == s[j + 1]);
            }
        }
        lemma_entries_map(t);
        assert forall|k: Seq<char>|
            entries_map(s).dom().contains(k) <==> exists|i: int| 0 <= i < s.len() && #[trigger] s[i].0 == k by {
            if entries_map(s).dom().contains(k) {
                if k != s[0].0 {
                    assert(entries_map(t).dom().contains(k));
                    let i = choose|i: int| 0 <= i < t.len() && #[trigger] t[i].0 == k;
                    assert(t[i] == s[i + 1]);
                    assert(s[i + 1].0 == k);
                } else {
                    assert(s[0].0 == k);
                }
            }
            if exists|i: int| 0 <= i < s.len() && #[trigger] s[i].0 == k {
                let i = choose|i: int| 0 <= i < s.len() && #[trigger] s[i].0 == k;
                if i > 0 {
                    assert(t[i - 1].0 == k);
                }
            }
        }
        assert forall|i: int| 0 <= i < s.len() implies entries_map(s)[#[trigger] s[i].0] == s[i].1 by {
            if i > 0 {
                assert(seq_lt(s[0].0, s[i].0));
                lemma_seq_lt_irreflexive(s[0].0);
                assert(s[i] == t[i - 1]);
            }
        }
    }
}

/// Sorted entry sequences are determined by the map they spell.
pub proof fn lemma_sorted_unique(a: Seq<(Seq<char>, Hash)>, b: Seq<(Seq<char>, Hash)>)
    requires
        sorted_keys(a),
        sorted_keys(b),
        entries_map(a) == entries_map(b),
    ensures
        a == b,
    decreases a.len(),
{
    lemma_entries_map(a);
    lemma_entries_map(b);
    if a.len() == 0 {
        if b.len() > 0 {
            assert(entries_map(b).dom().contains(b[0].0));
        }
        assert(a =~= b);
    } else {
        assert(entries_map(a).dom().contains(a[0].0));
        assert(b.len() > 0);
        let ka = a[0].0;
        let kb = b[0].0;
        assert(entries_map(b).dom().contains(ka));
        assert(entries_map(b).dom().contains(kb));
        assert(entries_map(a).dom().contains(kb));
        let j = choose|j: int| 0 <= j < b.len() && #[trigger] b[j].0 == ka;
        let i = choose|i: int| 0 <= i < a.len() && #[trigger] a[i].0 == kb;
        lemma_seq_lt_irreflexive(ka);
        lemma_seq_lt_asym(ka, kb);
        if j > 0 {
            assert(seq_lt(b[0].0, b[j].0));
            assert(seq_lt(kb, ka));
            if i > 0 {
                assert(seq_lt(a[0].0, a[i].0));
                assert(seq_lt(ka, kb));
            }
        }
        assert(ka == kb);
        assert(a[0].1 == b[0].1);
        let ta = a.drop_first();
        let tb = b.drop_first();
        assert(sorted_keys(ta)) by {
            assert forall|x: int, y: int| 0 <= x < y < ta.len() implies seq_lt(#[trigger] ta[x].0, #[trigger] ta[y].0) by {
                assert(ta[x] == a[x + 1] && ta[y] == a[y + 1]);
            }
        }
        assert(sorted_keys(tb)) by {
            assert forall|x: int, y: int| 0 <= x < y < tb.len() implies seq_lt(#[trigger] tb[x].0, #[trigger] tb[y].0) by {
                assert(tb[x] == b[x + 1] && tb[y] == b[y + 1]);
            }
        }
        lemma_entries_map(ta);
        lemma_entries_map(tb);
        assert(!entries_map(ta).dom().contains(ka)) by {
            if entries_map(ta).dom().contains(ka) {
                let x = choose|x: int| 0 <= x < ta.len() && #[trigger] ta[x].0 == ka;
                assert(a[x + 1].0 == ka);
                assert(seq_lt(a[0].0, a[x + 1].0));
            }
        }
        assert(!entries_map(tb).dom().contains(ka)) by {
            if entries_map(tb).dom().contains(ka) {
                let x = choose|x: int| 0 <= x < tb.len() && #[trigger] tb[x].0 == ka;
                assert(b[x + 1].0 == ka);
                assert(seq_lt(b[0].0, b[x + 1].0));
            }
        }
        assert(entries_map(ta) =~= entries_map(a).remove(ka));
        assert(entries_map(tb) =~= entries_map(b).remove(ka));
        lemma_sorted_unique(ta, tb);
        assert(a =~= seq![a[0]] + ta);
        assert(b =~= seq![b[0]] + tb);
    }
}

/// Builds a single root hash from keyed hashes. The result doesn't depend on insertion order.
///
/// Each entry is encoded as `key \0 hex \n` in key order. Keys must not contain
/// `\0` or `\n`; document paths and anchors never do.
#[derive(Debug)]
pub struct Merkle {
    entries: Vec<(String, Hash)>,
}

impl Merkle {
    closed spec fn seq(&self) -> Seq<(Seq<char>, Hash)> {
        Seq::new(self.entries@.len(), |i: int| (self.entries@[i].0@, self.entries@[i].1))
    }

    #[verifier::type_invariant]
    closed spec fn inv(&self) -> bool {
        sorted_keys(self.seq())
    }
}

impl View for Merkle {
    type V = Map<Seq<char>, Hash>;

    closed spec fn view(&self) -> Map<Seq<char>, Hash> {
        entries_map(self.seq())
    }
}

fn append_bytes(buf: &mut Vec<u8>, b: &[u8])
    ensures
        final(buf)@ == old(buf)@ + b@,
{
    let mut i: usize = 0;
    while i < b.len()
        invariant
            0 <= i <= b@.len(),
            buf@ == old(buf)@ + b@.take(i as int),
        decreases b@.len() - i,
    {
        buf.push(b[i]);
        i += 1;
        assert(buf@ =~= old(buf)@ + b@.take(i as int));
    }
    assert(b@.take(i as int) =~= b@);
}

impl Merkle {
    pub fn new() -> (m: Merkle)
        ensures
            m@ == Map::<Seq<char>, Hash>::empty(),
    {
        let m = Merkle { entries: Vec::new() };
        assert(m.seq() =~= Seq::<(Seq<char>, Hash)>::empty());
        m
    }

    /// Adds or replaces the hash under `key`.
    pub fn insert(&mut self, key: String, hash: Hash)
        ensures
            final(self)@ == old(self)@.insert(key@, hash),
    {
        proof {
            use_type_invariant(&*self);
        }
        let ghost old_seq = self.seq();
        let kc = chars_of(key.as_str());
        let n = self.entries.len();
        let mut i: usize = 0;
        let mut found = false;
        while i < n
            invariant_except_break
                !found,
                0 <= i <= n,
                n == self.entries@.len(),
                old_seq == self.seq(),
                forall|k: int| 0 <= k < i ==> seq_lt(#[trigger] old_seq[k].0, kc@),
            ensures
                0 <= i <= n,
                n == self.entries@.len(),
                old_seq == self.seq(),
                forall|k: int| 0 <= k < i ==> seq_lt(#[trigger] old_seq[k].0, kc@),
                found ==> i < n && old_seq[i as int].0 == kc@,
                !found && i < n ==> seq_lt(kc@, old_seq[i as int].0),
            decreases n - i,
        {
            let ek = chars_of(self.entries[i].0.as_str());
            let c = compare_chars(&ek, &kc);
            assert(ek@ == old_seq[i as int].0);
            if c == 0 {
                found = true;
                break;
            }
            if c > 0 {
                break;
            }
            i += 1;
        }
        proof {
            lemma_entries_map(old_seq);
        }
        let ghost j: int = if found { i + 1 } else { i as int };
        let ghost new_seq = old_seq.take(i as int) + seq![(key@, hash)] + old_seq.skip(j);
        let mut entries: Vec<(String, Hash)> = Vec::new();
        let mut x: usize = 0;
        while x < i
            invariant
                0 <= x <= i <= n,
                n == self.entries@.len(),
                old_seq == self.seq(),
                entries@.len() == x,
                forall|k: int| 0 <= k < x ==> (#[trigger] entries@[k]).0@ == old_seq[k].0 && entries@[k].1 == old_seq[k].1,
            decreases i - x,
        {
            let e = &self.entries[x];
            entries.push((e.0.clone(), e.1));
            x += 1;
        }
        entries.push((key, hash));
        let mut y: usize = if found { i + 1 } else { i };
        while y < n
            invariant
                j <= y <= n,
                j == if found { i + 1 } else { i as int },
                n == self.entries@.len(),
                old_seq == self.seq(),
                entries@.len() == i + 1 + (y - j),
                forall|k: int| 0 <= k < i ==> (#[trigger] entries@[k]).0@ == old_seq[k].0 && entries@[k].1 == old_seq[k].1,
                entries@[i as int].0@ == key@ && entries@[i as int].1 == hash,
                forall|k: int| j <= k < y ==> (#[trigger] entries@[i + 1 + (k - j)]).0@ == old_seq[k].0 && entries@[i + 1 + (k - j)].1 == old_seq[k].1,
            decreases n - y,
        {
            let e = &self.entries[y];
            entries.push((e.0.clone(), e.1));
            y += 1;
        }
        proof {
            let m = Merkle { entries };
            assert(m.seq() =~= new_seq) by {
                assert forall|k: int| 0 <= k < new_seq.len() implies m.seq()[k] == new_seq[k] by {
                    if k > i {
                        let kk = j + (k - i - 1);
                        assert(entries@[i + 1 + (kk - j)] == entries@[k]);
                    }
                }
            }
            assert(sorted_keys(new_seq)) by {
                assert forall|p: int, q: int| 0 <= p < q < new_seq.len() implies seq_lt(#[trigger] new_seq[p].0, #[trigger] new_seq[q].0) by {
                    if q < i {
                    } else if q == i {
                    } else {
                        let qq = j + (q - i - 1);
                        assert(new_seq[q] == old_seq[qq]);
                        if !found {
                            assert(qq >= i);
                            if qq > i {
                                assert(seq_lt(old_seq[i as int].0, old_seq[qq].0));
                                lemma_seq_lt_trans(kc@, old_seq[i as int].0, old_seq[qq].0);
                            }
                        } else {
                            assert(seq_lt(old_seq[i as int].0, old_seq[qq].0));
                        }
                        if p < i {
                            assert(seq_lt(old_seq[p].0, kc@));
                            lemma_seq_lt_trans(old_seq[p].0, kc@, new_seq[q].0);
                        } else if p > i {
                            let pp = j + (p - i - 1);
                            assert(new_seq[p] == old_seq[pp]);
                        }
                    }
                }
            }
            lemma_entries_map(new_seq);
            lemma_seq_lt_irreflexive(kc@);
            assert(entries_map(new_seq) =~= entries_map(old_seq).insert(key@, hash)) by {
                assert forall|z: Seq<char>| #[trigger] entries_map(new_seq).dom().contains(z)
                    <==> entries_map(old_seq).insert(key@, hash).dom().contains(z) by {
                    if entries_map(new_seq).dom().contains(z) && z != key@ {
                        let p = choose|p: int| 0 <= p < new_seq.len() && #[trigger] new_seq[p].0 == z;
                        if p < i {
                            assert(old_seq[p].0 == z);
                        } else if p > i {
                            assert(old_seq[j + (p - i - 1)].0 == z);
                        }
                    }
                    if entries_map(old_seq).dom().contains(z) && z != key@ {
                        let p = choose|p: int| 0 <= p < old_seq.len() && #[trigger] old_seq[p].0 == z;
                        if p < i {
                            assert(new_seq[p].0 == z);
                        } else if p >= j {
                            assert(new_seq[i + 1 + (p - j)].0 == z);
                        } else {
                            assert(p == i && found);
                        }
                    }
                    if z == key@ {
                        assert(new_seq[i as int].0 == z);
                    }
                }
                assert forall|z: Seq<char>| #[trigger] entries_map(new_seq).dom().contains(z)
                    implies entries_map(new_seq)[z] == entries_map(old_seq).insert(key@, hash)[z] by {
                    let p = choose|p: int| 0 <= p < new_seq.len() && #[trigger] new_seq[p].0 == z;
                    if p < i {
                        assert(old_seq[p] == new_seq[p]);
                        assert(seq_lt(old_seq[p].0, kc@));
                    } else if p > i {
                        let pp = j + (p - i - 1);
                        assert(old_seq[pp] == new_seq[p]);
                        assert(seq_lt(new_seq[i as int].0, new_seq[p].0));
                    }
                }
            }
        }
        self.entries = entries;
    }

    /// The root hash: BLAKE3 over `key \0 hex \n` for each entry in key order.
    pub fn finish(&self) -> (h: Hash)
        ensures
            h@ == merkle_root(self@),
    {
        proof {
            use_type_invariant(self);
        }
        let mut buf: Vec<u8> = Vec::new();
        let n = self.entries.len();
        let mut i: usize = 0;
        while i < n
            invariant
                0 <= i <= n,
                n == self.entries@.len(),
                buf@ == merkle_bytes(self.seq().take(i as int)),
            decreases n - i,
        {
            let (k, h) = (&self.entries[i].0, self.entries[i].1);
            let ghost prev = buf@;
            append_bytes(&mut buf, k.as_str().as_bytes());
            buf.push(0u8);
            let hex = h.to_hex();
            append_bytes(&mut buf, hex.as_str().as_bytes());
            buf.push(10u8);
            assert(self.seq().take(i + 1).drop_last() =~= self.seq().take(i as int));
            assert(buf@ =~= merkle_bytes(self.seq().take(i + 1)));
            i += 1;
        }
        proof {
            assert(self.seq().take(i as int) =~= self.seq());
            let s = in_key_order(self@);
            assert(sorted_keys(s) && entries_map(s) == self@);
            lemma_sorted_unique(s, self.seq());
        }
        Hash(blake3_digest(buf.as_slice()))
    }
}

proof fn lemma_hex_digit(n: u8)
    requires
        n < 16,
    ensures
        hex_value(hex_char(n)) == Some(n),
{
    if n < 10 {
        assert(hex_char(n) as u32 == n + 48);
    } else {
        assert(hex_char(n) as u32 == n + 87);
    }
}

/// Printing bytes as hex and parsing the text back gives the same bytes.
pub proof fn lemma_hex_round_trip(b: Seq<u8>)
    requires
        b.len() == 32,
    ensures
        parse_hex(hex_of(b)) == Some(b),
{
    let s = hex_of(b);
    assert forall|i: int| 0 <= i < 64 implies (#[trigger] hex_value(s[i])) is Some by {
        if i % 2 == 0 {
            lemma_hex_digit(b[i / 2] / 16);
        } else {
            lemma_hex_digit(b[i / 2] % 16);
        }
    }
    let r = parse_hex(s)->Some_0;
    assert forall|i: int| 0 <= i < 32 implies #[trigger] r[i] == b[i] by {
        let x = b[i];
        assert(s[2 * i] == hex_char(x / 16));
        assert(s[2 * i + 1] == hex_char(x % 16));
        lemma_hex_digit(x / 16);
        lemma_hex_digit(x % 16);
        vstd::arithmetic::div_mod::lemma_fundamental_div_mod(x as int, 16);
    }
    assert(r =~= b);
}

/// Two hashes with the same bytes are the same hash.
pub proof fn lemma_hash_view_injective(a: Hash, b: Hash)
    requires
        a@ == b@,
    ensures
        a == b,
{
    vstd::array::axiom_array_ext_equal(a.0, b.0);
}

/// Inserting the same keyed hashes in a different order gives the same root: a
/// Merkle's root depends only on its final key-to-hash map.
pub proof fn lemma_merkle_order_independent(a: Map<Seq<char>, Hash>, k1: Seq<char>, h1: Hash, k2: Seq<char>, h2: Hash)
    requires
        k1 != k2,
    ensures
        merkle_root(a.insert(k1, h1).insert(k2, h2)) == merkle_root(a.insert(k2, h2).insert(k1, h1)),
{
    assert(a.insert(k1, h1).insert(k2, h2) =~= a.insert(k2, h2).insert(k1, h1));
}

/// The bytes one entry contributes to a Merkle root: `key \0 hex \n`.
pub open spec fn entry_bytes(e: (Seq<char>, Hash)) -> Seq<u8> {
    encode_utf8(e.0) + seq![0u8] + encode_utf8(hex_of(e.1@)) + seq![10u8]
}

/// The bytes of entries `a` followed by entries `b` are those of `a` followed by
/// those of `b`.
pub proof fn lemma_merkle_bytes_concat(a: Seq<(Seq<char>, Hash)>, b: Seq<(Seq<char>, Hash)>)
    ensures
        merkle_bytes(a + b) == merkle_bytes(a) + merkle_bytes(b),
    decreases b.len(),
{
    if b.len() == 0 {
        assert(a + b =~= a);
        assert(merkle_bytes(a) + merkle_bytes(b) =~= merkle_bytes(a));
    } else {
        lemma_merkle_bytes_concat(a, b.drop_last());
        assert((a + b).drop_last() =~= a + b.drop_last());
        assert((a + b).last() == b.last());
        let (k, h) = b.last();
        assert(merkle_bytes(a + b) =~= merkle_bytes(a) + merkle_bytes(b));
    }
}

/// A Merkle root hashes every entry: the bytes of `s` are those of the entries
/// before `i`, then `key \0 hex \n` of entry `i`, then those of the entries after it.
pub proof fn lemma_merkle_bytes_entry(s: Seq<(Seq<char>, Hash)>, i: int)
    requires
        0 <= i < s.len(),
    ensures
        merkle_bytes(s) == merkle_bytes(s.take(i)) + entry_bytes(s[i]) + merkle_bytes(s.skip(i + 1)),
{
    let pre = s.take(i);
    let one = seq![s[i]];
    let post = s.skip(i + 1);
    assert(s =~= (pre + one) + post);
    lemma_merkle_bytes_concat(pre + one, post);
    lemma_merkle_bytes_concat(pre, one);
    assert(one.drop_last() =~= Seq::<(Seq<char>, Hash)>::empty());
    assert(merkle_bytes(one.drop_last()) == Seq::<u8>::empty());
    assert(one.last() == s[i]);
    assert(merkle_bytes(one) =~= entry_bytes(s[i]));
}

proof fn lemma_hash_view_len(h: Hash)
    ensures
        h@.len() == 32,
{
}

proof fn lemma_sorted_drop(s: Seq<(Seq<char>, Hash)>)
    requires
        sorted_keys(s),
    ensures
        in_key_order(entries_map(s)) == s,
{
    assert(sorted_keys(s) && entries_map(s) == entries_map(s));
    let t = in_key_order(entries_map(s));
    lemma_sorted_unique(t, s);
}

/// Changing the hash of one entry changes the bytes the root hashes, so the root
/// changes too unless BLAKE3 collides: nothing a project holds can change unseen.
pub proof fn lemma_merkle_root_covers_every_entry(s: Seq<(Seq<char>, Hash)>, i: int, h: Hash)
    requires
        sorted_keys(s),
        0 <= i < s.len(),
        h != s[i].1,
    ensures
        merkle_bytes(in_key_order(entries_map(s).insert(s[i].0, h))) != merkle_bytes(in_key_order(entries_map(s))),
{
    let k = s[i].0;
    let t = s.update(i, (k, h));
    assert(sorted_keys(t)) by {
        assert forall|x: int, y: int| 0 <= x < y < t.len() implies seq_lt(#[trigger] t[x].0, #[trigger] t[y].0) by {
            assert(t[x].0 == s[x].0 && t[y].0 == s[y].0);
        }
    }
    lemma_entries_map(s);
    lemma_entries_map(t);
    let ms = entries_map(s);
    let mt = entries_map(t);
    assert(mt =~= ms.insert(k, h)) by {
        assert forall|kk: Seq<char>| mt.dom().contains(kk) <==> ms.insert(k, h).dom().contains(kk) by {
            if ms.dom().contains(kk) {
                let j = choose|j: int| 0 <= j < s.len() && #[trigger] s[j].0 == kk;
                assert(t[j].0 == kk);
            }
            if mt.dom().contains(kk) {
                let j = choose|j: int| 0 <= j < t.len() && #[trigger] t[j].0 == kk;
                assert(s[j].0 == kk);
            }
            assert(ms.dom().contains(k));
        }
        assert forall|kk: Seq<char>| mt.dom().contains(kk) implies mt[kk] == ms.insert(k, h)[kk] by {
            let j = choose|j: int| 0 <= j < t.len() && #[trigger] t[j].0 == kk;
            if j == i {
                assert(mt[t[i].0] == t[i].1);
            } else {
                assert(t[j] == s[j]);
                assert(kk != k) by {
                    lemma_seq_lt_irreflexive(k);
                    if j < i {
                        assert(seq_lt(s[j].0, s[i].0));
                    } else {
                        assert(seq_lt(s[i].0, s[j].0));
                    }
                }
            }
        }
    }
    lemma_sorted_drop(s);
    lemma_sorted_drop(t);
    lemma_merkle_bytes_entry(s, i);
    lemma_merkle_bytes_entry(t, i);
    assert(t.take(i) =~= s.take(i));
    assert(t.skip(i + 1) =~= s.skip(i + 1));
    let x = merkle_bytes(s.take(i)) + encode_utf8(k) + seq![0u8];
    let y = seq![10u8] + merkle_bytes(s.skip(i + 1));
    let h1 = encode_utf8(hex_of(s[i].1@));
    let h2 = encode_utf8(hex_of(h@));
    assert(merkle_bytes(s) =~= x + h1 + y);
    assert(merkle_bytes(t) =~= x + h2 + y);
    if merkle_bytes(s) == merkle_bytes(t) {
        let p1 = x + h1 + y;
        let p2 = x + h2 + y;
        assert(h1.len() == h2.len());
        assert(h1 =~= p1.subrange(x.len() as int, (x.len() + h1.len()) as int));
        assert(h2 =~= p2.subrange(x.len() as int, (x.len() + h2.len()) as int));
        vstd::utf8::encode_utf8_decode_utf8(hex_of(s[i].1@));
        vstd::utf8::encode_utf8_decode_utf8(hex_of(h@));
        lemma_hash_view_len(h);
        lemma_hash_view_len(s[i].1);
        lemma_hex_round_trip(h@);
        lemma_hex_round_trip(s[i].1@);
        lemma_hash_view_injective(h, s[i].1);
    }
}

} // verus!
