//! Multi-project inheritance.
//!
//! Projects form a tree. A document path resolves to the nearest project in the
//! chain, from the child up to the root, that defines it, so a child overrides a
//! document by defining the same path. Settings (branding, rules) merge down the
//! chain, and child values win.

use vstd::prelude::*;
use crate::text::{lemma_seq_lt_irreflexive, lemma_seq_lt_trans, seq_lt, strictly_sorted};

verus! {

broadcast use {vstd::seq::axiom_seq_index_decreases, vstd::std_specs::vec::axiom_vec_decreases_to_view};

/// Returns the first `Some` from `lookup`, walking `chain` from child to root, along
/// with the chain index it came from (0 means the child's own). `lookup` is called on
/// the chain in order, up to the first hit.
pub fn resolve_first<P, T, F: FnMut(&P) -> Option<T>>(chain: &[P], lookup: F) -> (r: Option<(usize, T)>)
    requires
        forall|i: int| 0 <= i < chain@.len() ==> call_requires(lookup, (&chain@[i],)),
    ensures
        r matches Some((i, t)) ==> i < chain@.len(),
        r matches Some((i, t)) ==> call_ensures(lookup, (&chain@[i as int],), Some(t)),
        r matches Some((i, t)) ==> forall|j: int| 0 <= j < i ==> call_ensures(lookup, (&chain@[j],), None::<T>),
        r is None ==> forall|j: int| 0 <= j < chain@.len() ==> call_ensures(lookup, (&chain@[j],), None::<T>),
{
    let ghost f0 = lookup;
    let mut look = lookup;
    let mut i: usize = 0;
    while i < chain.len()
        invariant
            0 <= i <= chain@.len(),
            look == f0,
            f0 == lookup,
            forall|k: int| 0 <= k < chain@.len() ==> call_requires(f0, (&chain@[k],)),
            forall|j: int| 0 <= j < i ==> call_ensures(f0, (&chain@[j],), None::<T>),
        decreases chain@.len() - i,
    {
        let res = look(&chain[i]);
        assert(call_ensures(f0, (&chain@[i as int],), res));
        match res {
            Some(t) => {
                return Some((i, t));
            },
            None => {},
        }
        i += 1;
    }
    None
}


/// A JSON value, as project settings hold it. Object entries are kept in strictly
/// increasing key order with no key twice (the order of a sorted map).
#[derive(Debug, PartialEq, Eq)]
pub enum Json {
    Null,
    Bool(bool),
    /// A number, as its JSON text.
    Number(String),
    Str(String),
    Array(Vec<Json>),
    Object(Vec<(String, Json)>),
}

/// The mathematical value of a [`Json`]: objects are maps from key to value.
pub enum JsonView {
    Null,
    Bool(bool),
    Number(Seq<char>),
    Str(Seq<char>),
    Array(Seq<JsonView>),
    Object(Map<Seq<char>, JsonView>),
}

/// The keys of object entries, in order.
pub open spec fn entry_keys(kv: Seq<(String, Json)>) -> Seq<Seq<char>> {
    Seq::new(kv.len(), |i: int| kv[i].0@)
}

/// Where `k` stands in `keys`, if it stands there.
pub open spec fn key_index(keys: Seq<Seq<char>>, k: Seq<char>) -> int {
    choose|i: int| 0 <= i < keys.len() && keys[i] == k
}

pub open spec fn json_view(j: Json) -> JsonView
    decreases j,
{
    match j {
        Json::Null => JsonView::Null,
        Json::Bool(b) => JsonView::Bool(b),
        Json::Number(n) => JsonView::Number(n@),
        Json::Str(s) => JsonView::Str(s@),
        Json::Array(v) => JsonView::Array(
            Seq::new(
                v@.len(),
                |i: int|
                    if 0 <= i < v@.len() {
                        json_view(v@[i])
                    } else {
                        JsonView::Null
                    },
            ),
        ),
        Json::Object(kv) => JsonView::Object(
            Map::new(
                |k: Seq<char>| exists|i: int| 0 <= i < kv@.len() && #[trigger] kv@[i].0@ == k,
                |k: Seq<char>|
                    {
                        let i = key_index(entry_keys(kv@), k);
                        if 0 <= i < kv@.len() {
                            json_view(kv@[i].1)
                        } else {
                            JsonView::Null
                        }
                    },
            ),
        ),
    }
}

/// Every object, at any depth, has its keys in strictly increasing order.
pub open spec fn json_wf(j: Json) -> bool
    decreases j,
{
    match j {
        Json::Array(v) => forall|i: int| 0 <= i < v@.len() ==> json_wf(#[trigger] v@[i]),
        Json::Object(kv) => {
            &&& strictly_sorted(entry_keys(kv@))
            &&& forall|i: int| 0 <= i < kv@.len() ==> json_wf(#[trigger] kv@[i].1)
        },
        _ => true,
    }
}


/// The items of an array view (empty for any other value).
pub open spec fn arr_of(v: JsonView) -> Seq<JsonView> {
    match v {
        JsonView::Array(s) => s,
        _ => Seq::empty(),
    }
}

/// The entries of an object view (empty for any other value).
pub open spec fn obj_of(v: JsonView) -> Map<Seq<char>, JsonView> {
    match v {
        JsonView::Object(m) => m,
        _ => Map::empty(),
    }
}

proof fn lemma_keys_distinct(keys: Seq<Seq<char>>, i: int, j: int)
    requires
        strictly_sorted(keys),
        0 <= i < keys.len(),
        0 <= j < keys.len(),
        i != j,
    ensures
        keys[i] != keys[j],
{
    lemma_seq_lt_irreflexive(keys[i]);
    if i < j {
        assert(seq_lt(keys[i], keys[j]));
    } else {
        assert(seq_lt(keys[j], keys[i]));
    }
}

/// In an object with strictly increasing keys, each key maps to its own entry.
proof fn lemma_entry_lookup(kv: Vec<(String, Json)>, i: int)
    requires
        strictly_sorted(entry_keys(kv@)),
        0 <= i < kv@.len(),
    ensures
        obj_of(json_view(Json::Object(kv))).dom().contains(kv@[i].0@),
        obj_of(json_view(Json::Object(kv)))[kv@[i].0@] == json_view(kv@[i].1),
{
    let k = kv@[i].0@;
    assert(kv@[i].0@ == k);
    assert(entry_keys(kv@)[i] == k);
    let j = key_index(entry_keys(kv@), k);
    if j != i {
        lemma_keys_distinct(entry_keys(kv@), i, j);
    }
}

proof fn lemma_object_dom(kv: Vec<(String, Json)>, k: Seq<char>)
    ensures
        obj_of(json_view(Json::Object(kv))).dom().contains(k) <==> entry_keys(kv@).contains(k),
{
    if entry_keys(kv@).contains(k) {
        let i = choose|i: int| 0 <= i < entry_keys(kv@).len() && entry_keys(kv@)[i] == k;
        assert(kv@[i].0@ == k);
    }
    if obj_of(json_view(Json::Object(kv))).dom().contains(k) {
        let i = choose|i: int| 0 <= i < kv@.len() && #[trigger] kv@[i].0@ == k;
        assert(entry_keys(kv@)[i] == k);
    }
}

/// Two objects with the same keys in the same order, and the same view at each
/// entry, have the same view.
proof fn lemma_objects_same_view(a: Vec<(String, Json)>, b: Vec<(String, Json)>)
    requires
        strictly_sorted(entry_keys(a@)),
        entry_keys(a@) == entry_keys(b@),
        forall|i: int| 0 <= i < a@.len() ==> json_view(#[trigger] a@[i].1) == json_view(b@[i].1),
    ensures
        json_view(Json::Object(a)) == json_view(Json::Object(b)),
{
    let ma = obj_of(json_view(Json::Object(a)));
    let mb = obj_of(json_view(Json::Object(b)));
    assert(a@.len() == entry_keys(a@).len());
    assert(b@.len() == entry_keys(b@).len());
    assert forall|k: Seq<char>| ma.dom().contains(k) <==> mb.dom().contains(k) by {
        lemma_object_dom(a, k);
        lemma_object_dom(b, k);
    }
    assert forall|k: Seq<char>| ma.dom().contains(k) implies ma[k] == mb[k] by {
        lemma_object_dom(a, k);
        let i = choose|i: int| 0 <= i < entry_keys(a@).len() && entry_keys(a@)[i] == k;
        assert(a@[i].0@ == k);
        assert(entry_keys(b@)[i] == k);
        assert(b@[i].0@ == k);
        lemma_entry_lookup(a, i);
        lemma_entry_lookup(b, i);
    }
    assert(ma =~= mb);
}

impl Json {
    /// A deep copy.
    pub fn duplicate(&self) -> (r: Json)
        requires
            json_wf(*self),
        ensures
            json_wf(r),
            json_view(r) == json_view(*self),
        decreases self,
    {
        match self {
            Json::Null => Json::Null,
            Json::Bool(b) => Json::Bool(*b),
            Json::Number(n) => {
                let c = n.clone();
                assert(c@ == n@);
                Json::Number(c)
            },
            Json::Str(s) => {
                let c = s.clone();
                assert(c@ == s@);
                Json::Str(c)
            },
            Json::Array(v) => {
                let mut out: Vec<Json> = Vec::new();
                let mut i: usize = 0;
                while i < v.len()
                    invariant
                        0 <= i <= v@.len(),
                        out@.len() == i,
                        *self == Json::Array(*v),
                        forall|p: int| 0 <= p < v@.len() ==> json_wf(#[trigger] v@[p]),
                        forall|p: int|
                            0 <= p < i ==> json_wf(#[trigger] out@[p]) && json_view(out@[p])
                                == json_view(v@[p]),
                    decreases v@.len() - i,
                {
                    proof {
                        assert(decreases_to!(*self => (*self)->Array_0));
                        assert(decreases_to!(*v => v@));
                        assert(decreases_to!(v@ => v@[i as int]));
                    }
                    let c = v[i].duplicate();
                    out.push(c);
                    i += 1;
                }
                proof {
                    let sa = arr_of(json_view(Json::Array(out)));
                    let sb = arr_of(json_view(*self));
                    assert(sa.len() == sb.len());
                    assert forall|p: int| 0 <= p < sa.len() implies sa[p] == sb[p] by {
                        assert(sa[p] == json_view(out@[p]));
                        assert(sb[p] == json_view(v@[p]));
                    }
                    assert(sa =~= sb);
                }
                Json::Array(out)
            },
            Json::Object(kv) => {
                let mut out: Vec<(String, Json)> = Vec::new();
                let mut i: usize = 0;
                while i < kv.len()
                    invariant
                        0 <= i <= kv@.len(),
                        out@.len() == i,
                        *self == Json::Object(*kv),
                        json_wf(*self),
                        forall|p: int|
                            0 <= p < i ==> #[trigger] out@[p].0@ == kv@[p].0@ && json_wf(out@[p].1)
                                && json_view(out@[p].1) == json_view(kv@[p].1),
                    decreases kv@.len() - i,
                {
                    proof {
                        assert(json_wf(kv@[i as int].1));
                        assert(decreases_to!(*self => (*self)->Object_0));
                        assert(decreases_to!(*kv => kv@));
                        assert(decreases_to!(kv@ => kv@[i as int]));
                        assert(decreases_to!(kv@[i as int] => kv@[i as int].1));
                    }
                    let c = kv[i].1.duplicate();
                    out.push((kv[i].0.clone(), c));
                    i += 1;
                }
                proof {
                    assert(entry_keys(out@) =~= entry_keys(kv@));
                    assert forall|p: int| 0 <= p < kv@.len() implies json_view(#[trigger] kv@[p].1)
                        == json_view(out@[p].1) by {
                        assert(out@[p].0@ == kv@[p].0@);
                    }
                    lemma_objects_same_view(*kv, out);
                    assert forall|p: int| 0 <= p < out@.len() implies json_wf(#[trigger] out@[p].1) by {
                        assert(out@[p].0@ == kv@[p].0@);
                    }
                }
                Json::Object(out)
            },
        }
    }
}


/// `layer` merged over `acc`: two objects merge key by key, where a `null` in
/// `layer` deletes its key, a key only `acc` has keeps its value, and a key only
/// `layer` has takes its value; any other `layer` replaces `acc` whole.
pub open spec fn merge_view(acc: JsonView, layer: JsonView) -> JsonView
    decreases layer,
{
    match layer {
        JsonView::Object(l) => match acc {
            JsonView::Object(a) => JsonView::Object(
                Map::new(
                    |k: Seq<char>|
                        (l.dom().contains(k) && !(l[k] is Null)) || (a.dom().contains(k)
                            && !l.dom().contains(k)),
                    |k: Seq<char>|
                        if l.dom().contains(k) {
                            if a.dom().contains(k) {
                                merge_view(a[k], l[k])
                            } else {
                                l[k]
                            }
                        } else {
                            a[k]
                        },
                ),
            ),
            _ => layer,
        },
        _ => layer,
    }
}

proof fn lemma_absent_key(keys: Seq<Seq<char>>, j: int, k: Seq<char>)
    requires
        strictly_sorted(keys),
        0 <= j <= keys.len(),
        forall|q: int| 0 <= q < j ==> seq_lt(#[trigger] keys[q], k),
        j < keys.len() ==> seq_lt(k, keys[j]),
    ensures
        !keys.contains(k),
{
    if keys.contains(k) {
        let q = choose|q: int| 0 <= q < keys.len() && keys[q] == k;
        lemma_seq_lt_irreflexive(k);
        if q > j {
            assert(seq_lt(keys[j], keys[q]));
            lemma_seq_lt_trans(k, keys[j], k);
        }
    }
}

proof fn lemma_sorted_push(keys: Seq<Seq<char>>, k: Seq<char>)
    requires
        strictly_sorted(keys),
        forall|o: int| 0 <= o < keys.len() ==> seq_lt(#[trigger] keys[o], k),
    ensures
        strictly_sorted(keys.push(k)),
{
    let s = keys.push(k);
    assert forall|x: int, y: int| 0 <= x < y < s.len() implies seq_lt(#[trigger] s[x], #[trigger] s[y]) by {
        if y < keys.len() {
            assert(s[x] == keys[x] && s[y] == keys[y]);
        } else {
            assert(s[x] == keys[x]);
        }
    }
}

proof fn lemma_push_entry(out: Seq<(String, Json)>, e: (String, Json))
    ensures
        entry_keys(out.push(e)) == entry_keys(out).push(e.0@),
        forall|x: Seq<char>|
            #[trigger] entry_keys(out.push(e)).contains(x) <==> (entry_keys(out).contains(x) || x
                == e.0@),
{
    assert(entry_keys(out.push(e)) =~= entry_keys(out).push(e.0@));
    let w = entry_keys(out).push(e.0@);
    assert forall|x: Seq<char>| w.contains(x) <==> (entry_keys(out).contains(x) || x == e.0@) by {
        if entry_keys(out).contains(x) {
            let k = choose|k: int| 0 <= k < entry_keys(out).len() && entry_keys(out)[k] == x;
            assert(w[k] == x);
        }
        if x == e.0@ {
            assert(w[entry_keys(out).len() as int] == x);
        }
    }
}

fn is_null(j: &Json) -> (b: bool)
    ensures
        b <==> json_view(*j) is Null,
{
    match j {
        Json::Null => true,
        _ => false,
    }
}

/// `layer` merged over `acc`, as a new value.
fn merged(acc: &Json, layer: &Json) -> (r: Json)
    requires
        json_wf(*acc),
        json_wf(*layer),
    ensures
        json_wf(r),
        json_view(r) == merge_view(json_view(*acc), json_view(*layer)),
    decreases layer,
{
    let (a, l) = match (acc, layer) {
        (Json::Object(a), Json::Object(l)) => (a, l),
        _ => return layer.duplicate(),
    };
    let ghost ak = entry_keys(a@);
    let ghost lk = entry_keys(l@);
    let ghost am = obj_of(json_view(*acc));
    let ghost lm = obj_of(json_view(*layer));
    let ghost mm = obj_of(merge_view(json_view(*acc), json_view(*layer)));
    let mut out: Vec<(String, Json)> = Vec::new();
    let mut i: usize = 0;
    let mut j: usize = 0;
    while i < a.len() || j < l.len()
        invariant
            *acc == Json::Object(*a),
            *layer == Json::Object(*l),
            json_wf(*acc),
            json_wf(*layer),
            ak == entry_keys(a@),
            lk == entry_keys(l@),
            am == obj_of(json_view(*acc)),
            lm == obj_of(json_view(*layer)),
            mm == obj_of(merge_view(json_view(*acc), json_view(*layer))),
            0 <= i <= a@.len(),
            0 <= j <= l@.len(),
            strictly_sorted(entry_keys(out@)),
            forall|o: int| 0 <= o < out@.len() ==> json_wf(#[trigger] out@[o].1),
            forall|o: int|
                0 <= o < out@.len() ==> mm.dom().contains(#[trigger] out@[o].0@) && json_view(
                    out@[o].1,
                ) == mm[out@[o].0@],
            forall|o: int|
                0 <= o < out@.len() ==> (i < a@.len() ==> seq_lt(#[trigger] out@[o].0@, ak[i as int]))
                    && (j < l@.len() ==> seq_lt(out@[o].0@, lk[j as int])),
            forall|p: int|
                0 <= p < i ==> mm.dom().contains(#[trigger] ak[p]) ==> entry_keys(out@).contains(
                    ak[p],
                ),
            forall|q: int|
                0 <= q < j ==> mm.dom().contains(#[trigger] lk[q]) ==> entry_keys(out@).contains(
                    lk[q],
                ),
            forall|p: int| 0 <= p < i ==> (j < l@.len() ==> seq_lt(#[trigger] ak[p], lk[j as int])),
            forall|q: int| 0 <= q < j ==> (i < a@.len() ==> seq_lt(#[trigger] lk[q], ak[i as int])),
        decreases a@.len() + l@.len() - i - j,
    {
        let c: i8 = if i == a.len() {
            1
        } else if j == l.len() {
            -1
        } else {
            let ka = crate::text::chars_of(&a[i].0);
            let kl = crate::text::chars_of(&l[j].0);
            crate::text::compare_chars(&ka, &kl)
        };
        let ghost old_out = out@;
        if c < 0 {
            proof {
                assert(ak[i as int] == a@[i as int].0@);
                lemma_absent_key(lk, j as int, ak[i as int]);
                lemma_object_dom(*l, ak[i as int]);
                lemma_entry_lookup(*a, i as int);
                assert(json_wf(a@[i as int].1));
            }
            let v = a[i].1.duplicate();
            out.push((a[i].0.clone(), v));
            proof {
                let k = ak[i as int];
                assert(mm.dom().contains(k));
                assert(mm[k] == am[k]);
                lemma_push_entry(old_out, out@.last());
                assert(out@ == old_out.push(out@.last()));
                assert(entry_keys(old_out).len() == old_out.len());
                assert forall|o: int| 0 <= o < entry_keys(old_out).len() implies seq_lt(
                    #[trigger] entry_keys(old_out)[o],
                    k,
                ) by {
                    assert(entry_keys(old_out)[o] == old_out[o].0@);
                }
                lemma_sorted_push(entry_keys(old_out), k);
                if i + 1 < a@.len() {
                    assert(seq_lt(ak[i as int], ak[i + 1]));
                    assert forall|o: int| 0 <= o < out@.len() implies seq_lt(
                        #[trigger] out@[o].0@,
                        ak[i + 1],
                    ) by {
                        if o < old_out.len() {
                            assert(out@[o] == old_out[o]);
                            lemma_seq_lt_trans(out@[o].0@, k, ak[i + 1]);
                        }
                    }
                    assert forall|q: int| 0 <= q < j implies seq_lt(#[trigger] lk[q], ak[i + 1]) by {
                        lemma_seq_lt_trans(lk[q], k, ak[i + 1]);
                    }
                }
                assert forall|o: int| 0 <= o < out@.len() implies (j < l@.len() ==> seq_lt(
                    #[trigger] out@[o].0@,
                    lk[j as int],
                )) by {
                    if o < old_out.len() {
                        assert(out@[o] == old_out[o]);
                    }
                }
                assert forall|p: int| 0 <= p <= i implies mm.dom().contains(#[trigger] ak[p])
                    ==> entry_keys(out@).contains(ak[p]) by {
                    if p < i && mm.dom().contains(ak[p]) {
                        assert(entry_keys(old_out).contains(ak[p]));
                    }
                }
                assert forall|q: int| 0 <= q < j implies mm.dom().contains(#[trigger] lk[q])
                    ==> entry_keys(out@).contains(lk[q]) by {
                    if mm.dom().contains(lk[q]) {
                        assert(entry_keys(old_out).contains(lk[q]));
                    }
                }
            }
            i += 1;
        } else if c > 0 {
            proof {
                assert(lk[j as int] == l@[j as int].0@);
                lemma_absent_key(ak, i as int, lk[j as int]);
                lemma_object_dom(*a, lk[j as int]);
                lemma_entry_lookup(*l, j as int);
                assert(json_wf(l@[j as int].1));
            }
            if !is_null(&l[j].1) {
                let v = l[j].1.duplicate();
                out.push((l[j].0.clone(), v));
                proof {
                    let k = lk[j as int];
                    assert(mm.dom().contains(k));
                    assert(mm[k] == lm[k]);
                    lemma_push_entry(old_out, out@.last());
                    assert(out@ == old_out.push(out@.last()));
                    assert(entry_keys(old_out).len() == old_out.len());
                    assert forall|o: int| 0 <= o < entry_keys(old_out).len() implies seq_lt(
                        #[trigger] entry_keys(old_out)[o],
                        k,
                    ) by {
                        assert(entry_keys(old_out)[o] == old_out[o].0@);
                    }
                    lemma_sorted_push(entry_keys(old_out), k);
                    assert forall|p: int| 0 <= p < i implies mm.dom().contains(#[trigger] ak[p])
                        ==> entry_keys(out@).contains(ak[p]) by {
                        if mm.dom().contains(ak[p]) {
                            assert(entry_keys(old_out).contains(ak[p]));
                        }
                    }
                    assert forall|q: int| 0 <= q <= j implies mm.dom().contains(#[trigger] lk[q])
                        ==> entry_keys(out@).contains(lk[q]) by {
                        if q < j && mm.dom().contains(lk[q]) {
                            assert(entry_keys(old_out).contains(lk[q]));
                        }
                    }
                    assert forall|o: int| 0 <= o < out@.len() implies (i < a@.len() ==> seq_lt(
                        #[trigger] out@[o].0@,
                        ak[i as int],
                    )) by {
                        if o < old_out.len() {
                            assert(out@[o] == old_out[o]);
                        }
                    }
                    if j + 1 < l@.len() {
                        assert(seq_lt(lk[j as int], lk[j + 1]));
                        assert forall|o: int| 0 <= o < out@.len() implies seq_lt(
                            #[trigger] out@[o].0@,
                            lk[j + 1],
                        ) by {
                            if o < old_out.len() {
                                assert(out@[o] == old_out[o]);
                                lemma_seq_lt_trans(out@[o].0@, k, lk[j + 1]);
                            }
                        }
                        assert forall|p: int| 0 <= p < i implies seq_lt(#[trigger] ak[p], lk[j + 1]) by {
                            lemma_seq_lt_trans(ak[p], k, lk[j + 1]);
                        }
                    }
                }
            } else {
                proof {
                    let k = lk[j as int];
                    assert(!mm.dom().contains(k));
                    if j + 1 < l@.len() {
                        assert(seq_lt(lk[j as int], lk[j + 1]));
                        assert forall|o: int| 0 <= o < out@.len() implies seq_lt(
                            #[trigger] out@[o].0@,
                            lk[j + 1],
                        ) by {
                            lemma_seq_lt_trans(out@[o].0@, k, lk[j + 1]);
                        }
                        assert forall|p: int| 0 <= p < i implies seq_lt(#[trigger] ak[p], lk[j + 1]) by {
                            lemma_seq_lt_trans(ak[p], k, lk[j + 1]);
                        }
                    }
                }
            }
            j += 1;
        } else {
            proof {
                assert(ak[i as int] == a@[i as int].0@);
                assert(lk[j as int] == l@[j as int].0@);
                lemma_entry_lookup(*a, i as int);
                lemma_entry_lookup(*l, j as int);
                assert(json_wf(a@[i as int].1));
                assert(json_wf(l@[j as int].1));
                assert(decreases_to!(*layer => (*layer)->Object_0));
                assert(decreases_to!(*l => l@));
                assert(decreases_to!(l@ => l@[j as int]));
                assert(decreases_to!(l@[j as int] => l@[j as int].1));
            }
            let ghost k = ak[i as int];
            proof {
                assert(k == lk[j as int]);
                if i + 1 < a@.len() {
                    assert(seq_lt(ak[i as int], ak[i + 1]));
                }
                if j + 1 < l@.len() {
                    assert(seq_lt(lk[j as int], lk[j + 1]));
                }
            }
            if !is_null(&l[j].1) {
                let v = merged(&a[i].1, &l[j].1);
                out.push((a[i].0.clone(), v));
                proof {
                    assert(mm.dom().contains(k));
                    assert(mm[k] == merge_view(am[k], lm[k]));
                    lemma_push_entry(old_out, out@.last());
                    assert(out@ == old_out.push(out@.last()));
                    assert(entry_keys(old_out).len() == old_out.len());
                    assert forall|o: int| 0 <= o < entry_keys(old_out).len() implies seq_lt(
                        #[trigger] entry_keys(old_out)[o],
                        k,
                    ) by {
                        assert(entry_keys(old_out)[o] == old_out[o].0@);
                    }
                    lemma_sorted_push(entry_keys(old_out), k);
                    assert forall|p: int| 0 <= p <= i implies mm.dom().contains(#[trigger] ak[p])
                        ==> entry_keys(out@).contains(ak[p]) by {
                        if p < i && mm.dom().contains(ak[p]) {
                            assert(entry_keys(old_out).contains(ak[p]));
                        }
                    }
                    assert forall|q: int| 0 <= q <= j implies mm.dom().contains(#[trigger] lk[q])
                        ==> entry_keys(out@).contains(lk[q]) by {
                        if q < j && mm.dom().contains(lk[q]) {
                            assert(entry_keys(old_out).contains(lk[q]));
                        }
                    }
                    assert forall|o: int| 0 <= o < out@.len() implies (i + 1 < a@.len() ==> seq_lt(
                        #[trigger] out@[o].0@,
                        ak[i + 1],
                    )) && (j + 1 < l@.len() ==> seq_lt(out@[o].0@, lk[j + 1])) by {
                        if o < old_out.len() {
                            assert(out@[o] == old_out[o]);
                            if i + 1 < a@.len() {
                                lemma_seq_lt_trans(out@[o].0@, k, ak[i + 1]);
                            }
                            if j + 1 < l@.len() {
                                lemma_seq_lt_trans(out@[o].0@, k, lk[j + 1]);
                            }
                        }
                    }
                }
            } else {
                proof {
                    assert(!mm.dom().contains(k));
                    assert forall|o: int| 0 <= o < out@.len() implies (i + 1 < a@.len() ==> seq_lt(
                        #[trigger] out@[o].0@,
                        ak[i + 1],
                    )) && (j + 1 < l@.len() ==> seq_lt(out@[o].0@, lk[j + 1])) by {
                        if i + 1 < a@.len() {
                            lemma_seq_lt_trans(out@[o].0@, k, ak[i + 1]);
                        }
                        if j + 1 < l@.len() {
                            lemma_seq_lt_trans(out@[o].0@, k, lk[j + 1]);
                        }
                    }
                }
            }
            proof {
                if j + 1 < l@.len() {
                    assert forall|p: int| 0 <= p <= i implies seq_lt(#[trigger] ak[p], lk[j + 1]) by {
                        if p < i {
                            lemma_seq_lt_trans(ak[p], k, lk[j + 1]);
                        }
                    }
                }
                if i + 1 < a@.len() {
                    assert forall|q: int| 0 <= q <= j implies seq_lt(#[trigger] lk[q], ak[i + 1]) by {
                        if q < j {
                            lemma_seq_lt_trans(lk[q], k, ak[i + 1]);
                        }
                    }
                }
            }
            i += 1;
            j += 1;
        }
    }
    proof {
        let om = obj_of(json_view(Json::Object(out)));
        assert forall|k: Seq<char>| om.dom().contains(k) <==> mm.dom().contains(k) by {
            lemma_object_dom(out, k);
            if om.dom().contains(k) {
                let o = choose|o: int| 0 <= o < entry_keys(out@).len() && entry_keys(out@)[o] == k;
                assert(out@[o].0@ == k);
            }
            if mm.dom().contains(k) {
                if lm.dom().contains(k) {
                    lemma_object_dom(*l, k);
                    let q = choose|q: int| 0 <= q < lk.len() && lk[q] == k;
                    assert(mm.dom().contains(lk[q]));
                } else {
                    lemma_object_dom(*a, k);
                    let p = choose|p: int| 0 <= p < ak.len() && ak[p] == k;
                    assert(mm.dom().contains(ak[p]));
                }
            }
        }
        assert forall|k: Seq<char>| om.dom().contains(k) implies om[k] == mm[k] by {
            lemma_object_dom(out, k);
            let o = choose|o: int| 0 <= o < entry_keys(out@).len() && entry_keys(out@)[o] == k;
            assert(out@[o].0@ == k);
            lemma_entry_lookup(out, o);
        }
        assert(om =~= mm);
    }
    Json::Object(out)
}


pub open spec fn json_views(v: Seq<Json>) -> Seq<JsonView> {
    Seq::new(v.len(), |i: int| json_view(v[i]))
}

/// The settings of a chain of layers, root first: each layer merged over the
/// result of those before it, starting from an empty object.
pub open spec fn settings_of(layers: Seq<JsonView>) -> JsonView
    decreases layers.len(),
{
    if layers.len() == 0 {
        JsonView::Object(Map::empty())
    } else {
        merge_view(settings_of(layers.drop_last()), layers.last())
    }
}

/// Deep-merges JSON settings from root to child. Objects merge key by key. Any other
/// value, arrays included, is replaced by the child's. `null` in a child deletes the key.
pub fn merge_settings(root_to_child: &[Json]) -> (r: Json)
    requires
        forall|i: int| 0 <= i < root_to_child@.len() ==> json_wf(#[trigger] root_to_child@[i]),
    ensures
        json_wf(r),
        json_view(r) == settings_of(json_views(root_to_child@)),
{
    let empty: Vec<(String, Json)> = Vec::new();
    let mut acc = Json::Object(empty);
    proof {
        assert(obj_of(json_view(acc)) =~= Map::<Seq<char>, JsonView>::empty());
        assert(json_views(root_to_child@.take(0)) =~= Seq::<JsonView>::empty());
        assert(entry_keys(empty@) =~= Seq::<Seq<char>>::empty());
    }
    let mut i: usize = 0;
    while i < root_to_child.len()
        invariant
            0 <= i <= root_to_child@.len(),
            forall|p: int| 0 <= p < root_to_child@.len() ==> json_wf(#[trigger] root_to_child@[p]),
            json_wf(acc),
            json_view(acc) == settings_of(json_views(root_to_child@.take(i as int))),
        decreases root_to_child@.len() - i,
    {
        let next = merged(&acc, &root_to_child[i]);
        proof {
            let s = json_views(root_to_child@.take(i + 1));
            assert(s.drop_last() =~= json_views(root_to_child@.take(i as int)));
            assert(s.last() == json_view(root_to_child@[i as int]));
        }
        acc = next;
        i += 1;
    }
    proof {
        assert(root_to_child@.take(i as int) =~= root_to_child@);
    }
    acc
}

/// Settings merge down the chain and child values win: when every layer is an
/// object, a key the child sets to anything but `null` or an object takes the
/// child's value, a key the child sets to `null` is gone, and a key the child does
/// not name keeps what the layers above it gave it.
pub proof fn lemma_settings_merge_down(layers: Seq<JsonView>, k: Seq<char>)
    requires
        layers.len() > 0,
        forall|i: int| 0 <= i < layers.len() ==> #[trigger] layers[i] is Object,
    ensures
        ({
            let child = obj_of(layers.last());
            let above = obj_of(settings_of(layers.drop_last()));
            let merged = obj_of(settings_of(layers));
            &&& settings_of(layers) is Object
            &&& (child.dom().contains(k) && !(child[k] is Null) && !(child[k] is Object))
                ==> merged.dom().contains(k) && merged[k] == child[k]
            &&& (child.dom().contains(k) && child[k] is Null) ==> !merged.dom().contains(k)
            &&& !child.dom().contains(k) ==> (merged.dom().contains(k) == above.dom().contains(k)
                && (above.dom().contains(k) ==> merged[k] == above[k]))
        }),
{
    assert forall|i: int| 0 <= i < layers.drop_last().len() implies #[trigger] layers.drop_last()[i] is Object by {
        assert(layers.drop_last()[i] == layers[i]);
    }
    lemma_settings_object(layers.drop_last());
    assert(layers.last() == layers[layers.len() - 1]);
    let above = settings_of(layers.drop_last());
    let child = layers.last();
    assert(settings_of(layers) == merge_view(above, child));
    assert(above == JsonView::Object(obj_of(above)));
    assert(child == JsonView::Object(obj_of(child)));
    let a = obj_of(above);
    let l = obj_of(child);
    let m = obj_of(settings_of(layers));
    assert(settings_of(layers) is Object);
    if l.dom().contains(k) && !(l[k] is Null) && !(l[k] is Object) {
        assert(m.dom().contains(k));
        if a.dom().contains(k) {
            assert(m[k] == merge_view(a[k], l[k]));
        }
        assert(m[k] == l[k]);
    }
    if l.dom().contains(k) && l[k] is Null {
        assert(!m.dom().contains(k));
    }
    if !l.dom().contains(k) {
        assert(m.dom().contains(k) == a.dom().contains(k));
    }
}

proof fn lemma_settings_object(layers: Seq<JsonView>)
    requires
        forall|i: int| 0 <= i < layers.len() ==> #[trigger] layers[i] is Object,
    ensures
        settings_of(layers) is Object,
    decreases layers.len(),
{
    if layers.len() > 0 {
        assert(layers.last() == layers[layers.len() - 1]);
        assert forall|i: int| 0 <= i < layers.drop_last().len() implies #[trigger] layers.drop_last()[i] is Object by {
            assert(layers.drop_last()[i] == layers[i]);
        }
        lemma_settings_object(layers.drop_last());
    }
}

} // verus!
