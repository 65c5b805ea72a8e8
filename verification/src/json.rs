//! The JSON document model, its mathematical view, and the map
//! operations that the passes use on objects.

use vstd::prelude::*;
use crate::text::lex_le;

verus! {

/// A JSON number, held as plain integers.
///
/// Non-negative integers are `PosInt`, negative ones `NegInt`; any other
/// number is `Float`, carrying the IEEE-754 bit pattern of its `f64` value.
#[derive(Clone, Copy, PartialEq, Eq, Structural, Debug)]
pub enum JsonNumber {
    PosInt(u64),
    NegInt(i64),
    Float(u64),
}

/// A JSON document: the value model every transformation works on.
///
/// An object is the sequence of its `(key, value)` entries. In a
/// well-formed document (see [`well_formed`]) every object holds each key
/// once, in sorted order, which is how a JSON map (`serde_json::Map`)
/// stores and walks its entries; every operation of the library keeps a
/// well-formed document well-formed.
#[derive(PartialEq, Debug)]
pub enum Json {
    Null,
    Bool(bool),
    Number(JsonNumber),
    Str(String),
    Array(Vec<Json>),
    Object(Vec<(String, Json)>),
}

/// The mathematical value of a [`Json`] document.
pub enum JsonView {
    Null,
    Bool(bool),
    Number(JsonNumber),
    Str(Seq<char>),
    Array(Seq<JsonView>),
    Object(Seq<(Seq<char>, JsonView)>),
}

/// One object entry, seen as a key and a value.
pub type EntryView = (Seq<char>, JsonView);

pub open spec fn view_json(j: Json) -> JsonView
    decreases j,
{
    match j {
        Json::Null => JsonView::Null,
        Json::Bool(b) => JsonView::Bool(b),
        Json::Number(n) => JsonView::Number(n),
        Json::Str(s) => JsonView::Str(s@),
        Json::Array(items) => JsonView::Array(
            Seq::new(
                items@.len(),
                |i: int|
                    if 0 <= i < items@.len() {
                        view_json(items@[i])
                    } else {
                        JsonView::Null
                    },
            ),
        ),
        Json::Object(entries) => JsonView::Object(
            Seq::new(
                entries@.len(),
                |i: int|
                    if 0 <= i < entries@.len() {
                        (entries@[i].0@, view_json(entries@[i].1))
                    } else {
                        (Seq::empty(), JsonView::Null)
                    },
            ),
        ),
    }
}

impl View for Json {
    type V = JsonView;

    open spec fn view(&self) -> JsonView {
        view_json(*self)
    }
}

/// The value of the first entry of `es` whose key is `k`, as serde_json's
/// `Map::get` finds it.
pub open spec fn field(es: Seq<EntryView>, k: Seq<char>) -> Option<JsonView>
    decreases es.len(),
{
    if es.len() == 0 {
        None
    } else if es[0].0 == k {
        Some(es[0].1)
    } else {
        field(es.drop_first(), k)
    }
}

/// `Value::get(key)`: the field of an object, `None` for any other value.
pub open spec fn get_field(j: JsonView, k: Seq<char>) -> Option<JsonView> {
    match j {
        JsonView::Object(es) => field(es, k),
        _ => None,
    }
}

/// `Value::as_u64`: the value as an unsigned integer, when it is a
/// `PosInt` (a `NegInt` stands for a negative integer).
pub open spec fn json_as_u64(j: JsonView) -> Option<u64> {
    match j {
        JsonView::Number(JsonNumber::PosInt(n)) => Some(n),
        _ => None,
    }
}

/// Whether an object has an entry with key `k`.
pub open spec fn has_key(es: Seq<EntryView>, k: Seq<char>) -> bool {
    exists|i: int| 0 <= i < es.len() && #[trigger] es[i].0 == k
}

/// The keys of `es` are in strictly increasing order (so also distinct).
pub open spec fn keys_sorted(es: Seq<EntryView>) -> bool {
    forall|i: int, k: int| 0 <= i < k < es.len() ==> key_before(#[trigger] es[i].0, #[trigger] es[k].0)
}

/// Every object of the document holds its keys once each, in sorted
/// order, as a JSON map (`serde_json::Map`) does.
pub open spec fn well_formed(j: JsonView) -> bool
    decreases j,
{
    match j {
        JsonView::Array(items) => forall|i: int|
            0 <= i < items.len() ==> well_formed(#[trigger] items[i]),
        JsonView::Object(es) => {
            &&& keys_sorted(es)
            &&& forall|i: int| 0 <= i < es.len() ==> well_formed(#[trigger] es[i].1)
        },
        _ => true,
    }
}

pub proof fn lemma_array_view(a: Vec<Json>, s: Seq<JsonView>)
    requires
        a@.len() == s.len(),
        forall|k: int| 0 <= k < a@.len() ==> #[trigger] a@[k]@ == s[k],
    ensures
        Json::Array(a)@ == JsonView::Array(s),
{
    let va = view_json(Json::Array(a));
    assert forall|k: int| 0 <= k < a@.len() implies va->Array_0[k] == s[k] by {
        assert(a@[k]@ == s[k]);
    }
    assert(va->Array_0 =~= s);
}

pub proof fn lemma_object_view(a: Vec<(String, Json)>, s: Seq<EntryView>)
    requires
        a@.len() == s.len(),
        forall|k: int| 0 <= k < a@.len() ==> (#[trigger] a@[k]).0@ == s[k].0 && a@[k].1@ == s[k].1,
    ensures
        Json::Object(a)@ == JsonView::Object(s),
{
    let va = view_json(Json::Object(a));
    assert forall|k: int| 0 <= k < a@.len() implies va->Object_0[k] == s[k] by {
        assert(a@[k].0@ == s[k].0 && a@[k].1@ == s[k].1);
    }
    assert(va->Object_0 =~= s);
}

/// The entries of an object, each seen as its key and value.
pub open spec fn entries_view(es: Seq<(String, Json)>) -> Seq<EntryView> {
    Seq::new(es.len(), |i: int| (es[i].0@, es[i].1@))
}

pub proof fn lemma_object_entries_view(a: Vec<(String, Json)>)
    ensures
        Json::Object(a)@ == JsonView::Object(entries_view(a@)),
{
    lemma_object_view(a, entries_view(a@));
}

/// The position of the first entry with key `k`, or -1.
pub open spec fn key_position(es: Seq<EntryView>, k: Seq<char>) -> int
    decreases es.len(),
{
    if es.len() == 0 {
        -1
    } else if es[0].0 == k {
        0
    } else {
        let p = key_position(es.drop_first(), k);
        if p < 0 {
            -1
        } else {
            p + 1
        }
    }
}

/// `es` without its entries with key `k` (`Map::remove`).
pub open spec fn remove_key(es: Seq<EntryView>, k: Seq<char>) -> Seq<EntryView>
    decreases es.len(),
{
    if es.len() == 0 {
        es
    } else if es[0].0 == k {
        remove_key(es.drop_first(), k)
    } else {
        seq![es[0]] + remove_key(es.drop_first(), k)
    }
}

/// Key `a` sorts strictly before key `b`.
pub open spec fn key_before(a: Seq<char>, b: Seq<char>) -> bool {
    lex_le(a, b) && a != b
}

/// Where a new key `k` goes: before the first entry whose key sorts after
/// `k`, or at the end.
pub open spec fn insert_index(es: Seq<EntryView>, k: Seq<char>) -> int
    decreases es.len(),
{
    if es.len() == 0 {
        0
    } else if key_before(k, es[0].0) {
        0
    } else {
        1 + insert_index(es.drop_first(), k)
    }
}

/// `es` with `k` bound to `v` (`Map::insert`): the first entry with key
/// `k` takes the new value; otherwise a new entry goes in at its place in
/// key order, so that an object with sorted keys stays sorted.
pub open spec fn set_field(es: Seq<EntryView>, k: Seq<char>, v: JsonView) -> Seq<EntryView> {
    let p = key_position(es, k);
    if p >= 0 {
        es.update(p, (k, v))
    } else {
        es.insert(insert_index(es, k), (k, v))
    }
}

pub proof fn lemma_key_before_transitive(a: Seq<char>, b: Seq<char>, c: Seq<char>)
    requires
        key_before(a, b),
        key_before(b, c),
    ensures
        key_before(a, c),
{
    crate::text::lemma_lex_le_transitive(a, b, c);
    if a == c {
        crate::text::lemma_lex_le_antisymmetric(a, b);
    }
}

/// A key that does not sort after `b` and differs from it sorts before it.
pub proof fn lemma_key_before_total(a: Seq<char>, b: Seq<char>)
    requires
        a != b,
        !key_before(b, a),
    ensures
        key_before(a, b),
{
    crate::text::lemma_lex_le_total(a, b);
}

/// Binding a key keeps the keys of an object sorted.
pub proof fn lemma_set_field_sorted(es: Seq<EntryView>, k: Seq<char>, v: JsonView)
    requires
        keys_sorted(es),
    ensures
        keys_sorted(set_field(es, k, v)),
{
    lemma_key_position(es, k);
    lemma_insert_index(es, k);
    let s = set_field(es, k, v);
    let p = key_position(es, k);
    let q = insert_index(es, k);
    if p >= 0 {
        assert forall|i: int, m: int| 0 <= i < m < s.len() implies key_before(#[trigger] s[i].0, #[trigger] s[m].0) by {
            assert(s[i].0 == es[i].0 && s[m].0 == es[m].0);
        }
    } else {
        es.insert_ensures(q, (k, v));
        assert forall|i: int| 0 <= i < q implies key_before(#[trigger] es[i].0, k) by {
            lemma_key_before_total(es[i].0, k);
        }
        assert forall|m: int| q <= m < es.len() implies key_before(k, #[trigger] es[m].0) by {
            if m > q {
                lemma_key_before_transitive(k, es[q].0, es[m].0);
            }
        }
        assert forall|i: int, m: int| 0 <= i < m < s.len() implies key_before(#[trigger] s[i].0, #[trigger] s[m].0) by {
            if m < q {
                assert(s[i] == es[i] && s[m] == es[m]);
            } else if m == q {
                assert(s[i] == es[i]);
            } else if i < q {
                assert(s[i] == es[i] && s[m] == es[m - 1]);
                lemma_key_before_transitive(es[i].0, k, es[m - 1].0);
            } else if i == q {
                assert(s[m] == es[m - 1]);
            } else {
                assert(s[i] == es[i - 1] && s[m] == es[m - 1]);
            }
        }
    }
}

pub proof fn lemma_insert_index(es: Seq<EntryView>, k: Seq<char>)
    ensures
        0 <= insert_index(es, k) <= es.len(),
        forall|m: int| 0 <= m < insert_index(es, k) ==> !key_before(k, #[trigger] es[m].0),
        insert_index(es, k) < es.len() ==> key_before(k, es[insert_index(es, k)].0),
    decreases es.len(),
{
    if es.len() > 0 && !key_before(k, es[0].0) {
        let t = es.drop_first();
        lemma_insert_index(t, k);
        assert forall|m: int| 0 <= m < insert_index(es, k) implies !key_before(k, #[trigger] es[m].0) by {
            if m > 0 {
                assert(es[m] == t[m - 1]);
            }
        }
        if insert_index(es, k) < es.len() {
            assert(es[insert_index(es, k)] == t[insert_index(t, k)]);
        }
    }
}

/// The place of a new key is the first entry whose key sorts after it.
pub proof fn lemma_insert_index_at(es: Seq<EntryView>, k: Seq<char>, i: int)
    requires
        0 <= i <= es.len(),
        forall|m: int| 0 <= m < i ==> !key_before(k, #[trigger] es[m].0),
        i < es.len() ==> key_before(k, es[i].0),
    ensures
        insert_index(es, k) == i,
{
    lemma_insert_index(es, k);
    let q = insert_index(es, k);
    if q < i {
        assert(!key_before(k, es[q].0));
    } else if q > i {
        assert(!key_before(k, es[i].0));
    }
}

/// Every entry after `set_field(es, k, v)` is the new binding or an entry
/// of `es`.
pub proof fn lemma_set_field_entries(es: Seq<EntryView>, k: Seq<char>, v: JsonView)
    ensures
        forall|i: int|
            0 <= i < set_field(es, k, v).len() ==> #[trigger] set_field(es, k, v)[i] == (k, v)
                || es.contains(set_field(es, k, v)[i]),
{
    lemma_key_position(es, k);
    lemma_insert_index(es, k);
    let s = set_field(es, k, v);
    let p = key_position(es, k);
    let q = insert_index(es, k);
    if p < 0 {
        es.insert_ensures(q, (k, v));
    }
    assert forall|i: int| 0 <= i < s.len() implies #[trigger] s[i] == (k, v) || es.contains(s[i]) by {
        if p >= 0 {
            if i != p {
                assert(s[i] == es[i]);
            }
        } else if i < q {
            assert(s[i] == es[i]);
        } else if i > q {
            assert(s[i] == es[i - 1]);
        }
    }
}

pub proof fn lemma_key_position(es: Seq<EntryView>, k: Seq<char>)
    ensures
        -1 <= key_position(es, k) < es.len(),
        key_position(es, k) >= 0 ==> es[key_position(es, k)].0 == k,
        forall|i: int| 0 <= i < key_position(es, k) ==> #[trigger] es[i].0 != k,
        key_position(es, k) < 0 ==> forall|i: int| 0 <= i < es.len() ==> #[trigger] es[i].0 != k,
        field(es, k) == if key_position(es, k) >= 0 {
            Some(es[key_position(es, k)].1)
        } else {
            None
        },
    decreases es.len(),
{
    if es.len() > 0 && es[0].0 != k {
        let t = es.drop_first();
        lemma_key_position(t, k);
        assert forall|i: int| 0 <= i < key_position(es, k) implies #[trigger] es[i].0 != k by {
            if i > 0 {
                assert(es[i] == t[i - 1]);
            }
        }
        if key_position(es, k) < 0 {
            assert forall|i: int| 0 <= i < es.len() implies #[trigger] es[i].0 != k by {
                if i > 0 {
                    assert(es[i] == t[i - 1]);
                }
            }
        }
    }
}

pub proof fn lemma_key_position_skip(es: Seq<EntryView>, k: Seq<char>, i: int)
    requires
        0 <= i < es.len(),
        forall|m: int| 0 <= m < i ==> #[trigger] es[m].0 != k,
    ensures
        key_position(es, k) == if es[i].0 == k {
            i
        } else {
            let p = key_position(es.skip(i + 1), k);
            if p < 0 {
                -1
            } else {
                p + i + 1
            }
        },
    decreases i,
{
    if i > 0 {
        let t = es.drop_first();
        assert forall|m: int| 0 <= m < i - 1 implies #[trigger] t[m].0 != k by {
            assert(t[m] == es[m + 1]);
        }
        lemma_key_position_skip(t, k, i - 1);
        assert(t.skip(i) =~= es.skip(i + 1));
    } else {
        assert(es.skip(1) =~= es.drop_first());
    }
}

/// The first entry with key `k` is the one `field` finds.
pub proof fn lemma_field_first(es: Seq<EntryView>, k: Seq<char>, i: int)
    requires
        0 <= i < es.len(),
        es[i].0 == k,
        forall|m: int| 0 <= m < i ==> #[trigger] es[m].0 != k,
    ensures
        field(es, k) == Some(es[i].1),
{
    lemma_key_position(es, k);
    let p = key_position(es, k);
    if p < 0 {
        assert(es[i].0 != k);
    } else if p < i {
        assert(es[p].0 != k);
    } else if p > i {
        assert(es[i].0 != k);
    }
}

/// An object without an entry `k` has no field `k`.
pub proof fn lemma_field_absent(es: Seq<EntryView>, k: Seq<char>)
    requires
        forall|m: int| 0 <= m < es.len() ==> #[trigger] es[m].0 != k,
    ensures
        field(es, k) is None,
{
    lemma_key_position(es, k);
    if key_position(es, k) >= 0 {
        assert(es[key_position(es, k)].0 != k);
    }
}

/// After `set_field(es, k, v)` the field `k` is `v` and every other field
/// is unchanged.
pub proof fn lemma_field_set_field(es: Seq<EntryView>, k: Seq<char>, v: JsonView, k2: Seq<char>)
    ensures
        field(set_field(es, k, v), k2) == if k2 == k {
            Some(v)
        } else {
            field(es, k2)
        },
{
    lemma_key_position(es, k);
    lemma_key_position(es, k2);
    lemma_insert_index(es, k);
    let p = key_position(es, k);
    let q = insert_index(es, k);
    let s = set_field(es, k, v);
    if p >= 0 {
        assert forall|m: int| 0 <= m < es.len() implies #[trigger] s[m].0 == es[m].0 by {}
        if k2 == k {
            lemma_field_first(s, k, p);
        } else {
            let r = key_position(es, k2);
            if r >= 0 {
                assert(r != p);
                assert(s[r] == es[r]);
                assert forall|m: int| 0 <= m < r implies #[trigger] s[m].0 != k2 by {
                    assert(s[m].0 == es[m].0);
                }
                lemma_field_first(s, k2, r);
            } else {
                assert forall|m: int| 0 <= m < s.len() implies #[trigger] s[m].0 != k2 by {
                    assert(s[m].0 == es[m].0);
                }
                lemma_field_absent(s, k2);
            }
        }
    } else {
        es.insert_ensures(q, (k, v));
        if k2 == k {
            assert forall|m: int| 0 <= m < q implies #[trigger] s[m].0 != k by {
                assert(s[m] == es[m]);
            }
            lemma_field_first(s, k, q);
        } else {
            let r = key_position(es, k2);
            if r >= 0 {
                let r2 = if r < q { r } else { r + 1 };
                assert(s[r2] == es[r]);
                assert forall|m: int| 0 <= m < r2 implies #[trigger] s[m].0 != k2 by {
                    if m < q {
                        assert(s[m] == es[m]);
                    } else if m > q {
                        assert(s[m] == es[m - 1]);
                    }
                }
                lemma_field_first(s, k2, r2);
            } else {
                assert forall|m: int| 0 <= m < s.len() implies #[trigger] s[m].0 != k2 by {
                    if m < q {
                        assert(s[m] == es[m]);
                    } else if m > q {
                        assert(s[m] == es[m - 1]);
                    }
                }
                lemma_field_absent(s, k2);
            }
        }
    }
}

/// The field `k` of `a` with one more entry `e` at the end.
pub proof fn lemma_field_push(a: Seq<EntryView>, e: EntryView, k: Seq<char>)
    ensures
        field(a.push(e), k) == match field(a, k) {
            Some(v) => Some(v),
            None => if e.0 == k {
                Some(e.1)
            } else {
                None
            },
        },
{
    let b = a.push(e);
    lemma_key_position(a, k);
    let p = key_position(a, k);
    if p >= 0 {
        assert forall|m: int| 0 <= m < p implies #[trigger] b[m].0 != k by {
            assert(b[m] == a[m]);
        }
        assert(b[p] == a[p]);
        lemma_field_first(b, k, p);
    } else if e.0 == k {
        assert forall|m: int| 0 <= m < a.len() implies #[trigger] b[m].0 != k by {
            assert(b[m] == a[m]);
        }
        lemma_field_first(b, k, a.len() as int);
    } else {
        assert forall|m: int| 0 <= m < b.len() implies #[trigger] b[m].0 != k by {
            if m < a.len() {
                assert(b[m] == a[m]);
            }
        }
        lemma_field_absent(b, k);
    }
}

/// The field `k` of two objects' entries put together: the first
/// object's, or else the second's.
pub proof fn lemma_field_concat(a: Seq<EntryView>, b: Seq<EntryView>, k: Seq<char>)
    ensures
        field(a + b, k) == match field(a, k) {
            Some(v) => Some(v),
            None => field(b, k),
        },
    decreases b.len(),
{
    if b.len() == 0 {
        assert(a + b =~= a);
    } else {
        let d = b.drop_last();
        let e = b.last();
        lemma_field_concat(a, d, k);
        assert(a + b =~= (a + d).push(e));
        assert(b =~= d.push(e));
        lemma_field_push(a + d, e, k);
        lemma_field_push(d, e, k);
    }
}

/// The index of the first entry with key `k`.
pub fn find_key(es: &Vec<(String, Json)>, k: &str) -> (r: Option<usize>)
    ensures
        match r {
            Some(i) => key_position(entries_view(es@), k@) == i as int,
            None => key_position(entries_view(es@), k@) < 0,
        },
{
    let ghost ev = entries_view(es@);
    let mut i: usize = 0;
    while i < es.len()
        invariant
            i <= es@.len(),
            ev == entries_view(es@),
            forall|m: int| 0 <= m < i ==> #[trigger] ev[m].0 != k@,
        decreases es@.len() - i,
    {
        if crate::text::str_eq(es[i].0.as_str(), k) {
            proof { lemma_key_position_skip(ev, k@, i as int); }
            return Some(i);
        }
        i += 1;
    }
    proof { lemma_key_position(ev, k@); }
    None
}

/// Looks up the first entry with key `k`, as `Map::get` does.
pub fn find_field<'a>(es: &'a Vec<(String, Json)>, k: &str) -> (r: Option<&'a Json>)
    ensures
        match r {
            Some(x) => field(entries_view(es@), k@) == Some(x@),
            None => field(entries_view(es@), k@) is None,
        },
{
    proof { lemma_key_position(entries_view(es@), k@); }
    match find_key(es, k) {
        Some(i) => Some(&es[i].1),
        None => None,
    }
}

pub proof fn lemma_remove_key_absent(es: Seq<EntryView>, k: Seq<char>)
    requires
        forall|i: int| 0 <= i < es.len() ==> #[trigger] es[i].0 != k,
    ensures
        remove_key(es, k) == es,
    decreases es.len(),
{
    if es.len() > 0 {
        let t = es.drop_first();
        assert forall|i: int| 0 <= i < t.len() implies #[trigger] t[i].0 != k by {
            assert(t[i] == es[i + 1]);
        }
        lemma_remove_key_absent(t, k);
        assert(seq![es[0]] + t =~= es);
    }
}

/// No entry `k` is left after removing the entries `k`.
pub proof fn lemma_remove_key_gone(es: Seq<EntryView>, k: Seq<char>)
    ensures
        forall|i: int| 0 <= i < remove_key(es, k).len() ==> (#[trigger] remove_key(es, k)[i]).0 != k,
    decreases es.len(),
{
    if es.len() > 0 {
        let t = es.drop_first();
        lemma_remove_key_gone(t, k);
        if es[0].0 != k {
            let r = remove_key(es, k);
            assert(r =~= seq![es[0]] + remove_key(t, k));
            assert forall|i: int| 0 <= i < r.len() implies (#[trigger] r[i]).0 != k by {
                if i > 0 {
                    assert(r[i] == remove_key(t, k)[i - 1]);
                }
            }
        }
    }
}

/// Removing the entries `k` keeps the remaining ones, in order.
pub proof fn lemma_remove_key_sorted(es: Seq<EntryView>, k: Seq<char>)
    ensures
        forall|i: int|
            0 <= i < remove_key(es, k).len() ==> es.contains(#[trigger] remove_key(es, k)[i]),
        keys_sorted(es) ==> keys_sorted(remove_key(es, k)),
    decreases es.len(),
{
    if es.len() > 0 {
        let t = es.drop_first();
        lemma_remove_key_sorted(t, k);
        let rt = remove_key(t, k);
        let r = remove_key(es, k);
        assert forall|i: int| 0 <= i < rt.len() implies es.contains(#[trigger] rt[i]) by {
            let j = choose|j: int| 0 <= j < t.len() && t[j] == rt[i];
            assert(es[j + 1] == t[j]);
        }
        if es[0].0 != k {
            assert(r =~= seq![es[0]] + rt);
            assert forall|i: int| 0 <= i < r.len() implies es.contains(#[trigger] r[i]) by {
                if i > 0 {
                    assert(r[i] == rt[i - 1]);
                }
            }
        }
        if keys_sorted(es) {
            assert(keys_sorted(t)) by {
                assert forall|i: int, m: int| 0 <= i < m < t.len() implies key_before(#[trigger] t[i].0, #[trigger] t[m].0) by {
                    assert(t[i] == es[i + 1] && t[m] == es[m + 1]);
                }
            }
            if es[0].0 != k {
                assert forall|i: int, m: int| 0 <= i < m < r.len() implies key_before(#[trigger] r[i].0, #[trigger] r[m].0) by {
                    if i == 0 {
                        assert(r[m] == rt[m - 1]);
                        let j = choose|j: int| 0 <= j < t.len() && t[j] == rt[m - 1];
                        assert(es[j + 1] == t[j]);
                    } else {
                        assert(r[i] == rt[i - 1] && r[m] == rt[m - 1]);
                    }
                }
            }
        }
    }
}

/// Removing the entries `k` leaves every other field as it was.
pub proof fn lemma_field_remove_key(es: Seq<EntryView>, k: Seq<char>, k2: Seq<char>)
    requires
        k2 != k,
    ensures
        field(remove_key(es, k), k2) == field(es, k2),
    decreases es.len(),
{
    if es.len() > 0 {
        let t = es.drop_first();
        lemma_field_remove_key(t, k, k2);
        if es[0].0 != k {
            let r = seq![es[0]] + remove_key(t, k);
            assert(r[0] == es[0]);
            assert(r.drop_first() =~= remove_key(t, k));
        }
    }
}

pub proof fn lemma_remove_key_remove(es: Seq<EntryView>, k: Seq<char>, p: int)
    requires
        0 <= p < es.len(),
        es[p].0 == k,
    ensures
        remove_key(es.remove(p), k) == remove_key(es, k),
    decreases p,
{
    if p == 0 {
        assert(es.remove(0) =~= es.drop_first());
    } else {
        let r = es.remove(p);
        assert(r[0] == es[0]);
        assert(r.drop_first() =~= es.drop_first().remove(p - 1));
        lemma_remove_key_remove(es.drop_first(), k, p - 1);
    }
}

/// Removes every entry with key `k` (`Map::remove`), returning the value
/// of the first one.
pub fn remove_entry(es: &mut Vec<(String, Json)>, k: &str) -> (r: Option<Json>)
    ensures
        entries_view(final(es)@) == remove_key(entries_view(old(es)@), k@),
        match r {
            Some(x) => field(entries_view(old(es)@), k@) == Some(x@),
            None => field(entries_view(old(es)@), k@) is None,
        },
{
    let ghost ov = entries_view(es@);
    proof { lemma_key_position(ov, k@); }
    let mut found: Option<Json> = None;
    let mut pos = find_key(es, k);
    while pos.is_some()
        invariant
            ov == entries_view(old(es)@),
            remove_key(entries_view(es@), k@) == remove_key(ov, k@),
            match pos {
                Some(i) => key_position(entries_view(es@), k@) == i as int,
                None => key_position(entries_view(es@), k@) < 0,
            },
            match found {
                Some(x) => field(ov, k@) == Some(x@),
                None => es@ == old(es)@,
            },
        decreases es@.len(),
    {
        let i = pos.unwrap();
        let ghost cur = entries_view(es@);
        proof {
            lemma_key_position(cur, k@);
        }
        let e = es.remove(i);
        proof {
            assert(entries_view(es@) =~= cur.remove(i as int));
            lemma_remove_key_remove(cur, k@, i as int);
        }
        if found.is_none() {
            assert(cur[i as int].1 == e.1@);
            found = Some(e.1);
        }
        pos = find_key(es, k);
    }
    proof {
        let cur = entries_view(es@);
        lemma_key_position(cur, k@);
        lemma_remove_key_absent(cur, k@);
    }
    found
}

/// Whether key `a` sorts strictly before key `b`.
pub fn key_before_exec(a: &str, b: &str) -> (r: bool)
    ensures
        r == key_before(a@, b@),
{
    crate::text::str_le(a, b) && !crate::text::str_eq(a, b)
}

/// Binds `k` to `v` (`Map::insert`): the first entry with key `k` takes the
/// new value, or a new entry goes in at its place in key order.
pub fn set_entry(es: &mut Vec<(String, Json)>, k: String, v: Json)
    ensures
        entries_view(final(es)@) == set_field(entries_view(old(es)@), k@, v@),
{
    let ghost ov = entries_view(es@);
    proof { lemma_key_position(ov, k@); }
    match find_key(es, k.as_str()) {
        Some(i) => {
            es.set(i, (k, v));
            assert(entries_view(es@) =~= ov.update(i as int, (k@, v@)));
        },
        None => {
            let mut i: usize = 0;
            while i < es.len() && !key_before_exec(k.as_str(), es[i].0.as_str())
                invariant
                    i <= es@.len(),
                    ov == entries_view(es@),
                    forall|m: int| 0 <= m < i ==> !key_before(k@, #[trigger] ov[m].0),
                decreases es@.len() - i,
            {
                i += 1;
            }
            proof { lemma_insert_index_at(ov, k@, i as int); }
            es.insert(i, (k, v));
            proof { ov.insert_ensures(i as int, (k@, v@)); }
            assert(entries_view(es@) =~= ov.insert(i as int, (k@, v@)));
        },
    }
}

/// A copy of an object's entries.
pub fn copy_entries(es: &Vec<(String, Json)>) -> (r: Vec<(String, Json)>)
    ensures
        entries_view(r@) == entries_view(es@),
{
    let mut out: Vec<(String, Json)> = Vec::new();
    let mut i: usize = 0;
    while i < es.len()
        invariant
            i <= es@.len(),
            out@.len() == i,
            forall|k: int|
                0 <= k < i ==> (#[trigger] out@[k]).0@ == es@[k].0@ && out@[k].1@ == es@[k].1@,
        decreases es@.len() - i,
    {
        out.push((es[i].0.clone(), es[i].1.deep_copy()));
        i += 1;
    }
    assert(entries_view(out@) =~= entries_view(es@));
    out
}

impl Json {
    /// `Value::as_str`: the text of a string.
    pub fn as_str(&self) -> (r: Option<&str>)
        ensures
            match self@ {
                JsonView::Str(t) => r matches Some(x) && x@ == t,
                _ => r is None,
            },
    {
        match self {
            Json::Str(s) => Some(s.as_str()),
            _ => None,
        }
    }

    /// `Value::as_bool`.
    pub fn as_bool(&self) -> (r: Option<bool>)
        ensures
            r == match self@ {
                JsonView::Bool(b) => Some(b),
                _ => None,
            },
    {
        match self {
            Json::Bool(b) => Some(*b),
            _ => None,
        }
    }

    /// `Value::is_object`.
    pub fn is_object(&self) -> (r: bool)
        ensures
            r == (self@ is Object),
    {
        match self {
            Json::Object(_) => true,
            _ => false,
        }
    }

    /// `Value::is_array`.
    pub fn is_array(&self) -> (r: bool)
        ensures
            r == (self@ is Array),
    {
        match self {
            Json::Array(_) => true,
            _ => false,
        }
    }

    /// `Value::is_string`.
    pub fn is_string(&self) -> (r: bool)
        ensures
            r == (self@ is Str),
    {
        match self {
            Json::Str(_) => true,
            _ => false,
        }
    }

    /// `Value::is_null`.
    pub fn is_null(&self) -> (r: bool)
        ensures
            r == (self@ is Null),
    {
        match self {
            Json::Null => true,
            _ => false,
        }
    }

    /// `Value::as_i64`: the value as a signed integer, when it is an
    /// integer that fits.
    pub fn as_i64(&self) -> (r: Option<i64>)
        ensures
            r == match self@ {
                JsonView::Number(JsonNumber::PosInt(n)) => if n <= i64::MAX {
                    Some(n as i64)
                } else {
                    None
                },
                JsonView::Number(JsonNumber::NegInt(n)) => Some(n),
                _ => None,
            },
    {
        match self {
            Json::Number(JsonNumber::PosInt(n)) => if *n <= i64::MAX as u64 {
                Some(*n as i64)
            } else {
                None
            },
            Json::Number(JsonNumber::NegInt(n)) => Some(*n),
            _ => None,
        }
    }

    /// `Value::as_array`: the elements of an array.
    pub fn as_array(&self) -> (r: Option<&Vec<Json>>)
        ensures
            match self@ {
                JsonView::Array(items) => r matches Some(v) && Json::Array(*v)@ == self@,
                _ => r is None,
            },
    {
        match self {
            Json::Array(v) => Some(v),
            _ => None,
        }
    }

    /// `Value::as_object`: the entries of an object.
    pub fn as_object(&self) -> (r: Option<&Vec<(String, Json)>>)
        ensures
            match self@ {
                JsonView::Object(es) => r matches Some(v) && entries_view(v@) == es,
                _ => r is None,
            },
    {
        match self {
            Json::Object(v) => {
                proof { lemma_object_entries_view(*v); }
                Some(v)
            },
            _ => None,
        }
    }

    /// `Value::as_u64`.
    pub fn as_u64(&self) -> (r: Option<u64>)
        ensures
            r == json_as_u64(self@),
    {
        match self {
            Json::Number(JsonNumber::PosInt(n)) => Some(*n),
            _ => None,
        }
    }

    /// A copy of the whole document.
    #[verifier::loop_isolation(false)]
    pub fn deep_copy(&self) -> (r: Json)
        ensures
            r@ == self@,
        decreases self,
    {
        broadcast use vstd::std_specs::vec::axiom_vec_index_decreases;

        match self {
            Json::Null => Json::Null,
            Json::Bool(b) => Json::Bool(*b),
            Json::Number(n) => Json::Number(*n),
            Json::Str(s) => Json::Str(s.clone()),
            Json::Array(items) => {
                let mut out: Vec<Json> = Vec::new();
                let mut i: usize = 0;
                while i < items.len()
                    invariant
                        i <= items@.len(),
                        out@.len() == i,
                        forall|k: int| 0 <= k < i ==> #[trigger] out@[k]@ == items@[k]@,
                    decreases items@.len() - i,
                {
                    let c = items[i].deep_copy();
                    out.push(c);
                    i += 1;
                }
                proof {
                    lemma_array_view(out, self@->Array_0);
                }
                Json::Array(out)
            },
            Json::Object(entries) => {
                let mut out: Vec<(String, Json)> = Vec::new();
                let mut i: usize = 0;
                while i < entries.len()
                    invariant
                        i <= entries@.len(),
                        out@.len() == i,
                        forall|k: int|
                            0 <= k < i ==> (#[trigger] out@[k]).0@ == entries@[k].0@ && out@[k].1@
                                == entries@[k].1@,
                    decreases entries@.len() - i,
                {
                    let c = entries[i].1.deep_copy();
                    out.push((entries[i].0.clone(), c));
                    i += 1;
                }
                proof {
                    lemma_object_entries_view(*entries);
                    lemma_object_view(out, entries_view(entries@));
                }
                Json::Object(out)
            },
        }
    }

    /// `Value::get(key)`: the value under `key` when `self` is an object
    /// that has it.
    pub fn get(&self, key: &str) -> (r: Option<&Json>)
        ensures
            match r {
                Some(x) => get_field(self@, key@) == Some(x@),
                None => get_field(self@, key@) is None,
            },
    {
        match self {
            Json::Object(es) => {
                proof { lemma_object_entries_view(*es); }
                find_field(es, key)
            },
            _ => None,
        }
    }
}

pub proof fn lemma_view_array_index(a: Vec<Json>, k: int)
    requires
        0 <= k < a@.len(),
    ensures
        Json::Array(a)@->Array_0[k] == a@[k]@,
        Json::Array(a)@->Array_0.len() == a@.len(),
{
}

} // verus!
