//! The schema-less document value: a recursive sum over null, booleans,
//! numbers, text, arrays and objects.
//!
//! Objects are association lists that keep insertion order and hold each key
//! at most once (`wf`). Integer-precision numbers are kept exactly in `Int`;
//! any other numeric literal is carried as its canonical text in `Num`.

use vstd::prelude::*;

verus! {

broadcast use vstd::std_specs::vec::group_vec_axioms;

/// A document value.
pub enum DocValue {
    Null,
    Bool(bool),
    Int(i64),
    /// A numeric literal that is not an `i64`, kept as its canonical text.
    Num(String),
    Text(String),
    Array(Vec<DocValue>),
    Object(Vec<(String, DocValue)>),
}

/// The mathematical model of a document value.
#[verifier::ext_equal]
pub enum SpecValue {
    Null,
    Bool(bool),
    Int(int),
    Num(Seq<char>),
    Text(Seq<char>),
    Array(Seq<SpecValue>),
    Object(Seq<(Seq<char>, SpecValue)>),
}

/// The model of a value.
pub open spec fn value_view(v: DocValue) -> SpecValue
    decreases v,
{
    match v {
        DocValue::Null => SpecValue::Null,
        DocValue::Bool(b) => SpecValue::Bool(b),
        DocValue::Int(n) => SpecValue::Int(n as int),
        DocValue::Num(s) => SpecValue::Num(s@),
        DocValue::Text(s) => SpecValue::Text(s@),
        DocValue::Array(a) => SpecValue::Array(arr_view(a@)),
        DocValue::Object(o) => SpecValue::Object(obj_entries_view(o@)),
    }
}

/// The models of an array's elements, in order.
pub open spec fn arr_view(a: Seq<DocValue>) -> Seq<SpecValue>
    decreases a,
{
    if a.len() == 0 {
        Seq::empty()
    } else {
        seq![value_view(a[0])] + arr_view(a.drop_first())
    }
}

/// The models of an object's entries, in order.
pub open spec fn obj_entries_view(o: Seq<(String, DocValue)>) -> Seq<(Seq<char>, SpecValue)>
    decreases o,
{
    if o.len() == 0 {
        Seq::empty()
    } else {
        seq![(o[0].0@, value_view(o[0].1))] + obj_entries_view(o.drop_first())
    }
}

impl View for DocValue {
    type V = SpecValue;

    open spec fn view(&self) -> SpecValue {
        value_view(*self)
    }
}

pub broadcast proof fn lemma_arr_view(a: Seq<DocValue>)
    ensures
        (#[trigger] arr_view(a)).len() == a.len(),
        forall|i: int| 0 <= i < a.len() ==> arr_view(a)[i] == value_view(a[i]),
    decreases a,
{
    if a.len() > 0 {
        lemma_arr_view(a.drop_first());
    }
}

pub broadcast proof fn lemma_obj_entries_view(o: Seq<(String, DocValue)>)
    ensures
        (#[trigger] obj_entries_view(o)).len() == o.len(),
        forall|i: int|
            0 <= i < o.len() ==> obj_entries_view(o)[i] == (o[i].0@, value_view(o[i].1)),
    decreases o,
{
    if o.len() > 0 {
        lemma_obj_entries_view(o.drop_first());
    }
}

/// Entry views distribute over concatenation.
pub proof fn lemma_obj_entries_view_concat(a: Seq<(String, DocValue)>, b: Seq<(String, DocValue)>)
    ensures
        obj_entries_view(a + b) =~= obj_entries_view(a) + obj_entries_view(b),
    decreases a.len(),
{
    lemma_obj_entries_view(a);
    lemma_obj_entries_view(b);
    lemma_obj_entries_view(a + b);
    assert(obj_entries_view(a + b).len() == obj_entries_view(a).len() + obj_entries_view(b).len());
    assert forall|u: int| 0 <= u < a.len() + b.len() implies obj_entries_view(a + b)[u] == (
    obj_entries_view(a) + obj_entries_view(b))[u] by {
        if u < a.len() {
            assert((a + b)[u] == a[u]);
        } else {
            assert((a + b)[u] == b[u - a.len()]);
        }
    }
}

/// Whether the object holds an entry for `k`.
pub open spec fn obj_has(o: Seq<(Seq<char>, SpecValue)>, k: Seq<char>) -> bool
    decreases o.len(),
{
    o.len() > 0 && (o[0].0 == k || obj_has(o.drop_first(), k))
}

/// The value at key `k`, or null if absent.
pub open spec fn obj_get(o: Seq<(Seq<char>, SpecValue)>, k: Seq<char>) -> SpecValue
    decreases o.len(),
{
    if o.len() == 0 {
        SpecValue::Null
    } else if o[0].0 == k {
        o[0].1
    } else {
        obj_get(o.drop_first(), k)
    }
}

/// The object with key `k` bound to `x`: replaced in place if present,
/// appended at the end if not.
pub open spec fn obj_put(
    o: Seq<(Seq<char>, SpecValue)>,
    k: Seq<char>,
    x: SpecValue,
) -> Seq<(Seq<char>, SpecValue)>
    decreases o.len(),
{
    if o.len() == 0 {
        seq![(k, x)]
    } else if o[0].0 == k {
        seq![(k, x)] + o.drop_first()
    } else {
        seq![o[0]] + obj_put(o.drop_first(), k, x)
    }
}

/// The object with every entry for key `k` removed.
pub open spec fn obj_remove(o: Seq<(Seq<char>, SpecValue)>, k: Seq<char>) -> Seq<
    (Seq<char>, SpecValue),
>
    decreases o.len(),
{
    if o.len() == 0 {
        Seq::empty()
    } else if o[0].0 == k {
        obj_remove(o.drop_first(), k)
    } else {
        seq![o[0]] + obj_remove(o.drop_first(), k)
    }
}

/// Whether the object binds each key at most once.
pub open spec fn keys_unique(o: Seq<(Seq<char>, SpecValue)>) -> bool {
    forall|i: int, j: int| 0 <= i < j < o.len() ==> o[i].0 != o[j].0
}

/// Well-formedness: every object in the tree binds each key at most once.
pub open spec fn wf(v: SpecValue) -> bool
    decreases v,
{
    match v {
        SpecValue::Array(a) => wf_arr(a),
        SpecValue::Object(o) => keys_unique(o) && wf_entries(o),
        _ => true,
    }
}

pub open spec fn wf_arr(a: Seq<SpecValue>) -> bool
    decreases a,
{
    a.len() == 0 || (wf(a[0]) && wf_arr(a.drop_first()))
}

pub open spec fn wf_entries(o: Seq<(Seq<char>, SpecValue)>) -> bool
    decreases o,
{
    o.len() == 0 || (wf(o[0].1) && wf_entries(o.drop_first()))
}

pub broadcast proof fn lemma_wf_arr(a: Seq<SpecValue>)
    requires
        #[trigger] wf_arr(a),
    ensures
        forall|i: int| 0 <= i < a.len() ==> wf(#[trigger] a[i]),
    decreases a,
{
    if a.len() > 0 {
        lemma_wf_arr(a.drop_first());
        assert(forall|i: int| 1 <= i < a.len() ==> a[i] == a.drop_first()[i - 1]);
    }
}

pub broadcast proof fn lemma_wf_entries(o: Seq<(Seq<char>, SpecValue)>)
    requires
        #[trigger] wf_entries(o),
    ensures
        forall|i: int| 0 <= i < o.len() ==> wf(#[trigger] o[i].1),
    decreases o,
{
    if o.len() > 0 {
        lemma_wf_entries(o.drop_first());
        assert(forall|i: int| 1 <= i < o.len() ==> o[i] == o.drop_first()[i - 1]);
    }
}

/// `obj_get` under `obj_has` names an actual entry, and absence means no
/// entry carries the key.
pub broadcast proof fn lemma_obj_index(o: Seq<(Seq<char>, SpecValue)>, k: Seq<char>)
    ensures
        #[trigger] obj_has(o, k) <==> exists|i: int| 0 <= i < o.len() && o[i].0 == k,
        obj_has(o, k) ==> exists|i: int| 0 <= i < o.len() && o[i].0 == k && o[i].1 == obj_get(o, k),
    decreases o.len(),
{
    if o.len() > 0 {
        lemma_obj_index(o.drop_first(), k);
        if o[0].0 == k {
        } else {
            if obj_has(o.drop_first(), k) {
                let i = choose|i: int|
                    0 <= i < o.drop_first().len() && o.drop_first()[i].0 == k && o.drop_first()[i].1
                        == obj_get(o.drop_first(), k);
                assert(o[i + 1].0 == k && o[i + 1].1 == obj_get(o, k));
            } else {
                assert(forall|i: int| 1 <= i < o.len() ==> o[i] == o.drop_first()[i - 1]);
            }
        }
    }
}

/// Keys of the tail of a list with a unique-key head stay unique and avoid
/// the head's key.
pub proof fn lemma_unique_tail(o: Seq<(Seq<char>, SpecValue)>)
    requires
        keys_unique(o),
        o.len() > 0,
    ensures
        keys_unique(o.drop_first()),
        !obj_has(o.drop_first(), o[0].0),
{
    assert(forall|i: int| 1 <= i < o.len() ==> o[i] == o.drop_first()[i - 1]);
    lemma_obj_index(o.drop_first(), o[0].0);
}

/// A unique-keyed list whose head key is absent from the tail.
proof fn lemma_unique_cons(e: (Seq<char>, SpecValue), t: Seq<(Seq<char>, SpecValue)>)
    requires
        keys_unique(t),
        !obj_has(t, e.0),
    ensures
        keys_unique(seq![e] + t),
{
    let r = seq![e] + t;
    lemma_obj_index(t, e.0);
    assert forall|i: int, j: int| 0 <= i < j < r.len() implies r[i].0 != r[j].0 by {
        if i == 0 {
            assert(r[j] == t[j - 1]);
        } else {
            assert(r[i] == t[i - 1] && r[j] == t[j - 1]);
        }
    }
}

/// What `obj_put` does at one key.
pub proof fn lemma_obj_put_at(
    o: Seq<(Seq<char>, SpecValue)>,
    k: Seq<char>,
    x: SpecValue,
    k2: Seq<char>,
)
    ensures
        obj_has(obj_put(o, k, x), k2) == (k2 == k || obj_has(o, k2)),
        obj_get(obj_put(o, k, x), k2) == if k2 == k {
            x
        } else {
            obj_get(o, k2)
        },
    decreases o.len(),
{
    let r = obj_put(o, k, x);
    if o.len() == 0 {
        assert(r =~= seq![(k, x)]);
        assert(r.drop_first() =~= Seq::<(Seq<char>, SpecValue)>::empty());
        assert(!obj_has(r.drop_first(), k2));
        assert(obj_get(r.drop_first(), k2) == SpecValue::Null);
        assert(!obj_has(o, k2));
        assert(obj_get(o, k2) == SpecValue::Null);
    } else if o[0].0 == k {
        assert(r =~= seq![(k, x)] + o.drop_first());
        assert(r.drop_first() =~= o.drop_first());
        assert(obj_has(r, k2) == (r[0].0 == k2 || obj_has(o.drop_first(), k2)));
        assert(obj_has(o, k2) == (o[0].0 == k2 || obj_has(o.drop_first(), k2)));
    } else {
        lemma_obj_put_at(o.drop_first(), k, x, k2);
        assert(r =~= seq![o[0]] + obj_put(o.drop_first(), k, x));
        assert(r.drop_first() =~= obj_put(o.drop_first(), k, x));
        assert(obj_has(o, k2) == (o[0].0 == k2 || obj_has(o.drop_first(), k2)));
    }
}

/// `obj_put` keeps keys unique; it replaces in place or appends at the end.
pub proof fn lemma_obj_put_struct(o: Seq<(Seq<char>, SpecValue)>, k: Seq<char>, x: SpecValue)
    requires
        keys_unique(o),
    ensures
        keys_unique(obj_put(o, k, x)),
        obj_has(o, k) ==> obj_put(o, k, x).len() == o.len(),
        !obj_has(o, k) ==> obj_put(o, k, x) == o + seq![(k, x)],
    decreases o.len(),
{
    let r = obj_put(o, k, x);
    if o.len() == 0 {
        assert(r =~= seq![(k, x)]);
        assert(r =~= o + seq![(k, x)]);
        assert(keys_unique(r));
    } else if o[0].0 == k {
        lemma_unique_tail(o);
        assert(r =~= seq![(k, x)] + o.drop_first());
        lemma_unique_cons((k, x), o.drop_first());
    } else {
        lemma_unique_tail(o);
        lemma_obj_put_struct(o.drop_first(), k, x);
        let t = obj_put(o.drop_first(), k, x);
        assert(r =~= seq![o[0]] + t);
        if !obj_has(o, k) {
            assert(r =~= o + seq![(k, x)]) by {
                assert(t =~= o.drop_first() + seq![(k, x)]);
                assert(forall|i: int| 1 <= i < o.len() ==> o[i] == o.drop_first()[i - 1]);
            }
        }
        assert(!obj_has(t, o[0].0)) by {
            lemma_obj_put_at(o.drop_first(), k, x, o[0].0);
        }
        lemma_unique_cons(o[0], t);
    }
}

/// What `obj_put` does, all keys at once.
pub proof fn lemma_obj_put(o: Seq<(Seq<char>, SpecValue)>, k: Seq<char>, x: SpecValue)
    requires
        keys_unique(o),
    ensures
        obj_has(obj_put(o, k, x), k),
        obj_get(obj_put(o, k, x), k) == x,
        forall|k2: Seq<char>|
            k2 != k ==> #[trigger] obj_has(obj_put(o, k, x), k2) == obj_has(o, k2),
        forall|k2: Seq<char>|
            k2 != k ==> #[trigger] obj_get(obj_put(o, k, x), k2) == obj_get(o, k2),
        keys_unique(obj_put(o, k, x)),
        obj_has(o, k) ==> obj_put(o, k, x).len() == o.len(),
        !obj_has(o, k) ==> obj_put(o, k, x) == o + seq![(k, x)],
{
    lemma_obj_put_struct(o, k, x);
    lemma_obj_put_at(o, k, x, k);
    assert forall|k2: Seq<char>| k2 != k implies #[trigger] obj_has(obj_put(o, k, x), k2)
        == obj_has(o, k2) by {
        lemma_obj_put_at(o, k, x, k2);
    }
    assert forall|k2: Seq<char>| k2 != k implies #[trigger] obj_get(obj_put(o, k, x), k2)
        == obj_get(o, k2) by {
        lemma_obj_put_at(o, k, x, k2);
    }
}

/// What `obj_remove` does at one key.
pub proof fn lemma_obj_remove_at(o: Seq<(Seq<char>, SpecValue)>, k: Seq<char>, k2: Seq<char>)
    ensures
        obj_has(obj_remove(o, k), k2) == (k2 != k && obj_has(o, k2)),
        obj_get(obj_remove(o, k), k2) == if k2 == k {
            SpecValue::Null
        } else {
            obj_get(o, k2)
        },
    decreases o.len(),
{
    let r = obj_remove(o, k);
    if o.len() == 0 {
        assert(r =~= Seq::<(Seq<char>, SpecValue)>::empty());
        assert(!obj_has(o, k2));
        assert(obj_get(o, k2) == SpecValue::Null);
        assert(!obj_has(r, k2));
        assert(obj_get(r, k2) == SpecValue::Null);
    } else {
        lemma_obj_remove_at(o.drop_first(), k, k2);
        assert(obj_has(o, k2) == (o[0].0 == k2 || obj_has(o.drop_first(), k2)));
        if o[0].0 == k {
        } else {
            assert(r =~= seq![o[0]] + obj_remove(o.drop_first(), k));
            assert(r.drop_first() =~= obj_remove(o.drop_first(), k));
        }
    }
}

/// `obj_remove` keeps keys unique; removing an absent key changes nothing.
pub proof fn lemma_obj_remove_struct(o: Seq<(Seq<char>, SpecValue)>, k: Seq<char>)
    requires
        keys_unique(o),
    ensures
        keys_unique(obj_remove(o, k)),
        !obj_has(o, k) ==> obj_remove(o, k) == o,
    decreases o.len(),
{
    let r = obj_remove(o, k);
    if o.len() == 0 {
        assert(r =~= o);
    } else {
        lemma_unique_tail(o);
        lemma_obj_remove_struct(o.drop_first(), k);
        if o[0].0 == k {
        } else {
            let t = obj_remove(o.drop_first(), k);
            assert(r =~= seq![o[0]] + t);
            if !obj_has(o, k) {
                assert(r =~= o) by {
                    assert(forall|i: int| 1 <= i < o.len() ==> o[i] == o.drop_first()[i - 1]);
                }
            }
            assert(!obj_has(t, o[0].0)) by {
                lemma_obj_remove_at(o.drop_first(), k, o[0].0);
            }
            lemma_unique_cons(o[0], t);
        }
    }
}

/// What `obj_remove` does, all keys at once.
pub proof fn lemma_obj_remove(o: Seq<(Seq<char>, SpecValue)>, k: Seq<char>)
    requires
        keys_unique(o),
    ensures
        !obj_has(obj_remove(o, k), k),
        forall|k2: Seq<char>|
            k2 != k ==> #[trigger] obj_has(obj_remove(o, k), k2) == obj_has(o, k2),
        forall|k2: Seq<char>|
            k2 != k ==> #[trigger] obj_get(obj_remove(o, k), k2) == obj_get(o, k2),
        keys_unique(obj_remove(o, k)),
        !obj_has(o, k) ==> obj_remove(o, k) == o,
{
    lemma_obj_remove_struct(o, k);
    lemma_obj_remove_at(o, k, k);
    assert forall|k2: Seq<char>| k2 != k implies #[trigger] obj_has(obj_remove(o, k), k2)
        == obj_has(o, k2) by {
        lemma_obj_remove_at(o, k, k2);
    }
    assert forall|k2: Seq<char>| k2 != k implies #[trigger] obj_get(obj_remove(o, k), k2)
        == obj_get(o, k2) by {
        lemma_obj_remove_at(o, k, k2);
    }
}

/// The first index carrying key `k` witnesses `obj_has` and `obj_get`.
pub proof fn lemma_obj_first_index(o: Seq<(Seq<char>, SpecValue)>, k: Seq<char>, i: int)
    requires
        0 <= i < o.len(),
        o[i].0 == k,
        forall|j: int| 0 <= j < i ==> o[j].0 != k,
    ensures
        obj_has(o, k),
        obj_get(o, k) == o[i].1,
    decreases i,
{
    if i > 0 {
        assert(forall|j: int| 0 <= j < o.drop_first().len() ==> o.drop_first()[j] == o[j + 1]);
        lemma_obj_first_index(o.drop_first(), k, i - 1);
    }
}

/// Replacing at the first index carrying `k` is exactly `obj_put`.
pub proof fn lemma_obj_put_update(o: Seq<(Seq<char>, SpecValue)>, k: Seq<char>, x: SpecValue, i: int)
    requires
        0 <= i < o.len(),
        o[i].0 == k,
        forall|j: int| 0 <= j < i ==> o[j].0 != k,
    ensures
        obj_put(o, k, x) =~= o.update(i, (k, x)),
    decreases i,
{
    if i == 0 {
        assert(obj_put(o, k, x) == seq![(k, x)] + o.drop_first());
        assert(seq![(k, x)] + o.drop_first() =~= o.update(0, (k, x)));
    } else {
        assert(forall|j: int| 0 <= j < o.drop_first().len() ==> o.drop_first()[j] == o[j + 1]);
        lemma_obj_put_update(o.drop_first(), k, x, i - 1);
        assert(obj_put(o, k, x) == seq![o[0]] + obj_put(o.drop_first(), k, x));
        assert(seq![o[0]] + o.drop_first().update(i - 1, (k, x)) =~= o.update(i, (k, x)));
    }
}

/// Removing a key distributes over concatenation.
pub proof fn lemma_obj_remove_concat(
    a: Seq<(Seq<char>, SpecValue)>,
    b: Seq<(Seq<char>, SpecValue)>,
    k: Seq<char>,
)
    ensures
        obj_remove(a + b, k) =~= obj_remove(a, k) + obj_remove(b, k),
    decreases a.len(),
{
    if a.len() == 0 {
        assert(a + b =~= b);
        assert(obj_remove(a, k) =~= Seq::<(Seq<char>, SpecValue)>::empty());
        assert(obj_remove(a, k) + obj_remove(b, k) =~= obj_remove(b, k));
    } else {
        lemma_obj_remove_concat(a.drop_first(), b, k);
        assert((a + b).drop_first() =~= a.drop_first() + b);
        assert((a + b)[0] == a[0]);
        if a[0].0 == k {
        } else {
            assert(obj_remove(a + b, k) == seq![a[0]] + obj_remove(a.drop_first() + b, k));
            assert(seq![a[0]] + (obj_remove(a.drop_first(), k) + obj_remove(b, k)) =~= (seq![a[0]]
                + obj_remove(a.drop_first(), k)) + obj_remove(b, k));
        }
    }
}

/// The value behind a present key of well-formed entries is well-formed.
pub proof fn lemma_obj_get_wf(o: Seq<(Seq<char>, SpecValue)>, k: Seq<char>)
    requires
        wf_entries(o),
        obj_has(o, k),
    ensures
        wf(obj_get(o, k)),
{
    lemma_obj_index(o, k);
    lemma_wf_entries(o);
    let i = choose|i: int| 0 <= i < o.len() && o[i].0 == k && o[i].1 == obj_get(o, k);
    assert(wf(o[i].1));
}

/// Binding the same key twice keeps only the second value.
pub proof fn lemma_obj_put_put(
    o: Seq<(Seq<char>, SpecValue)>,
    k: Seq<char>,
    x1: SpecValue,
    x2: SpecValue,
)
    ensures
        obj_put(obj_put(o, k, x1), k, x2) =~= obj_put(o, k, x2),
    decreases o.len(),
{
    let r1 = obj_put(o, k, x1);
    if o.len() == 0 {
        assert(r1 =~= seq![(k, x1)]);
        assert(r1[0].0 == k);
        assert(obj_put(r1, k, x2) == seq![(k, x2)] + r1.drop_first());
        assert(r1.drop_first() =~= Seq::<(Seq<char>, SpecValue)>::empty());
        assert(obj_put(r1, k, x2) =~= seq![(k, x2)]);
    } else if o[0].0 == k {
        assert(r1 =~= seq![(k, x1)] + o.drop_first());
        assert(r1[0].0 == k);
        assert(obj_put(r1, k, x2) == seq![(k, x2)] + r1.drop_first());
        assert(r1.drop_first() =~= o.drop_first());
    } else {
        lemma_obj_put_put(o.drop_first(), k, x1, x2);
        assert(r1 =~= seq![o[0]] + obj_put(o.drop_first(), k, x1));
        assert(r1[0] == o[0]);
        assert(obj_put(r1, k, x2) == seq![r1[0]] + obj_put(r1.drop_first(), k, x2));
        assert(r1.drop_first() =~= obj_put(o.drop_first(), k, x1));
        assert(obj_put(r1, k, x2) =~= seq![o[0]] + obj_put(o.drop_first(), k, x2));
    }
}

/// Binding an absent key appends the entry at the end.
pub proof fn lemma_obj_put_absent(o: Seq<(Seq<char>, SpecValue)>, k: Seq<char>, x: SpecValue)
    requires
        !obj_has(o, k),
    ensures
        obj_put(o, k, x) =~= o + seq![(k, x)],
    decreases o.len(),
{
    if o.len() == 0 {
        assert(obj_put(o, k, x) =~= seq![(k, x)]);
        assert(o + seq![(k, x)] =~= seq![(k, x)]);
    } else {
        assert(o[0].0 != k);
        assert(!obj_has(o.drop_first(), k));
        lemma_obj_put_absent(o.drop_first(), k, x);
        assert(obj_put(o, k, x) == seq![o[0]] + obj_put(o.drop_first(), k, x));
        assert(seq![o[0]] + (o.drop_first() + seq![(k, x)]) =~= o + seq![(k, x)]);
    }
}

/// `obj_put` with a well-formed value keeps the entries well-formed.
pub proof fn lemma_obj_put_wf(o: Seq<(Seq<char>, SpecValue)>, k: Seq<char>, x: SpecValue)
    requires
        wf_entries(o),
        wf(x),
    ensures
        wf_entries(obj_put(o, k, x)),
    decreases o.len(),
{
    let r = obj_put(o, k, x);
    if o.len() == 0 {
        assert(r =~= seq![(k, x)]);
        assert(r.drop_first() =~= Seq::<(Seq<char>, SpecValue)>::empty());
        assert(wf_entries(r.drop_first()));
    } else if o[0].0 == k {
        assert(r =~= seq![(k, x)] + o.drop_first());
        assert(r.drop_first() =~= o.drop_first());
    } else {
        lemma_obj_put_wf(o.drop_first(), k, x);
        assert(r =~= seq![o[0]] + obj_put(o.drop_first(), k, x));
        assert(r.drop_first() =~= obj_put(o.drop_first(), k, x));
    }
}

/// `obj_remove` keeps the entries well-formed.
pub proof fn lemma_obj_remove_wf(o: Seq<(Seq<char>, SpecValue)>, k: Seq<char>)
    requires
        wf_entries(o),
    ensures
        wf_entries(obj_remove(o, k)),
    decreases o.len(),
{
    let r = obj_remove(o, k);
    if o.len() == 0 {
        assert(r =~= Seq::<(Seq<char>, SpecValue)>::empty());
    } else {
        lemma_obj_remove_wf(o.drop_first(), k);
        if o[0].0 == k {
        } else {
            assert(r =~= seq![o[0]] + obj_remove(o.drop_first(), k));
            assert(r.drop_first() =~= obj_remove(o.drop_first(), k));
        }
    }
}

impl DocValue {
    /// Whether this value is an object.
    pub fn is_object(&self) -> (r: bool)
        ensures
            r == (self@ is Object),
    {
        match self {
            DocValue::Object(_) => true,
            _ => false,
        }
    }

    /// Whether this value is null.
    pub fn is_null(&self) -> (r: bool)
        ensures
            r == (self@ is Null),
    {
        match self {
            DocValue::Null => true,
            _ => false,
        }
    }
}

/// A deep copy of a value.
pub fn value_clone(v: &DocValue) -> (r: DocValue)
    ensures
        r@ == v@,
    decreases v,
{
    match v {
        DocValue::Null => DocValue::Null,
        DocValue::Bool(b) => DocValue::Bool(*b),
        DocValue::Int(n) => DocValue::Int(*n),
        DocValue::Num(s) => DocValue::Num(s.clone()),
        DocValue::Text(s) => DocValue::Text(s.clone()),
        DocValue::Array(a) => {
            let mut out: Vec<DocValue> = Vec::new();
            let mut i: usize = 0;
            while i < a.len()
                invariant
                    0 <= i <= a.len(),
                    *v == DocValue::Array(*a),
                    out@.len() == i,
                    forall|j: int| 0 <= j < i ==> value_view(out@[j]) == value_view(a@[j]),
                decreases a.len() - i,
            {
                proof {
                    assert(decreases_to!(*v => v->Array_0));
                    assert(decreases_to!(*a => a@));
                    assert(decreases_to!(a@ => a@[i as int]));
                    assert(decreases_to!(*v => a@[i as int]));
                }
                let c = value_clone(&a[i]);
                out.push(c);
                i = i + 1;
            }
            proof {
                lemma_arr_view(out@);
                lemma_arr_view(a@);
                assert(arr_view(out@) =~= arr_view(a@));
            }
            DocValue::Array(out)
        },
        DocValue::Object(o) => {
            let mut out: Vec<(String, DocValue)> = Vec::new();
            let mut i: usize = 0;
            while i < o.len()
                invariant
                    0 <= i <= o.len(),
                    *v == DocValue::Object(*o),
                    out@.len() == i,
                    forall|j: int|
                        0 <= j < i ==> out@[j].0@ == o@[j].0@ && value_view(out@[j].1)
                            == value_view(o@[j].1),
                decreases o.len() - i,
            {
                proof {
                    assert(decreases_to!(*v => v->Object_0));
                    assert(decreases_to!(*o => o@));
                    assert(decreases_to!(o@ => o@[i as int]));
                    assert(decreases_to!(o@[i as int] => o@[i as int].1));
                    assert(decreases_to!(*v => o@[i as int].1));
                }
                let k = o[i].0.clone();
                let c = value_clone(&o[i].1);
                out.push((k, c));
                i = i + 1;
            }
            proof {
                lemma_obj_entries_view(out@);
                lemma_obj_entries_view(o@);
                assert(obj_entries_view(out@) =~= obj_entries_view(o@));
            }
            DocValue::Object(out)
        },
    }
}

/// Structural equality of two values.
pub fn value_eq(a: &DocValue, b: &DocValue) -> (r: bool)
    ensures
        r == (a@ == b@),
    decreases a,
{
    match a {
        DocValue::Null => match b {
            DocValue::Null => true,
            _ => false,
        },
        DocValue::Bool(x) => match b {
            DocValue::Bool(y) => x == y,
            _ => false,
        },
        DocValue::Int(x) => match b {
            DocValue::Int(y) => x == y,
            _ => false,
        },
        DocValue::Num(x) => match b {
            DocValue::Num(y) => x.eq(y),
            _ => false,
        },
        DocValue::Text(x) => match b {
            DocValue::Text(y) => x.eq(y),
            _ => false,
        },
        DocValue::Array(x) => match b {
            DocValue::Array(y) => {
                proof {
                    lemma_arr_view(x@);
                    lemma_arr_view(y@);
                }
                if x.len() != y.len() {
                    return false;
                }
                let n = x.len();
                let mut i: usize = 0;
                while i < n
                    invariant
                        0 <= i <= n,
                        n == x@.len() == y@.len(),
                        *a == DocValue::Array(*x),
                        *b == DocValue::Array(*y),
                        a@ == SpecValue::Array(arr_view(x@)),
                        b@ == SpecValue::Array(arr_view(y@)),
                        arr_view(x@).len() == n,
                        arr_view(y@).len() == n,
                        forall|j: int| 0 <= j < n ==> arr_view(x@)[j] == value_view(x@[j]),
                        forall|j: int| 0 <= j < n ==> arr_view(y@)[j] == value_view(y@[j]),
                        forall|j: int| 0 <= j < i ==> value_view(x@[j]) == value_view(y@[j]),
                    decreases n - i,
                {
                    proof {
                        assert(decreases_to!(*a => a->Array_0));
                        assert(decreases_to!(*x => x@));
                        assert(decreases_to!(x@ => x@[i as int]));
                        assert(decreases_to!(*a => x@[i as int]));
                    }
                    if !value_eq(&x[i], &y[i]) {
                        assert(arr_view(x@)[i as int] != arr_view(y@)[i as int]);
                        return false;
                    }
                    i = i + 1;
                }
                proof {
                    assert(arr_view(x@) =~= arr_view(y@));
                }
                true
            },
            _ => false,
        },
        DocValue::Object(x) => match b {
            DocValue::Object(y) => {
                proof {
                    lemma_obj_entries_view(x@);
                    lemma_obj_entries_view(y@);
                }
                if x.len() != y.len() {
                    return false;
                }
                let n = x.len();
                let mut i: usize = 0;
                while i < n
                    invariant
                        0 <= i <= n,
                        n == x@.len() == y@.len(),
                        *a == DocValue::Object(*x),
                        *b == DocValue::Object(*y),
                        a@ == SpecValue::Object(obj_entries_view(x@)),
                        b@ == SpecValue::Object(obj_entries_view(y@)),
                        obj_entries_view(x@).len() == n,
                        obj_entries_view(y@).len() == n,
                        forall|j: int|
                            0 <= j < n ==> obj_entries_view(x@)[j] == (
                            x@[j].0@,
                            value_view(x@[j].1),
                            ),
                        forall|j: int|
                            0 <= j < n ==> obj_entries_view(y@)[j] == (
                            y@[j].0@,
                            value_view(y@[j].1),
                            ),
                        forall|j: int|
                            0 <= j < i ==> x@[j].0@ == y@[j].0@ && value_view(x@[j].1)
                                == value_view(y@[j].1),
                    decreases n - i,
                {
                    proof {
                        assert(decreases_to!(*a => a->Object_0));
                        assert(decreases_to!(*x => x@));
                        assert(decreases_to!(x@ => x@[i as int]));
                        assert(decreases_to!(x@[i as int] => x@[i as int].1));
                        assert(decreases_to!(*a => x@[i as int].1));
                    }
                    if !(x[i].0 == y[i].0) {
                        assert(obj_entries_view(x@)[i as int] != obj_entries_view(y@)[i as int]);
                        return false;
                    }
                    if !value_eq(&x[i].1, &y[i].1) {
                        assert(obj_entries_view(x@)[i as int] != obj_entries_view(y@)[i as int]);
                        return false;
                    }
                    i = i + 1;
                }
                proof {
                    assert(obj_entries_view(x@) =~= obj_entries_view(y@));
                }
                true
            },
            _ => false,
        },
    }
}


/// Decide well-formedness of a value: every object in the tree must bind
/// each key at most once.
pub fn check_wf(v: &DocValue) -> (r: bool)
    ensures
        r == wf(v@),
    decreases v,
{
    match v {
        DocValue::Array(a) => {
            proof {
                lemma_arr_view(a@);
            }
            let n = a.len();
            let mut i: usize = 0;
            while i < n
                invariant
                    0 <= i <= n,
                    n == a@.len(),
                    *v == DocValue::Array(*a),
                    arr_view(a@).len() == n,
                    forall|j: int| 0 <= j < n ==> arr_view(a@)[j] == value_view(a@[j]),
                    forall|j: int| 0 <= j < i ==> wf(#[trigger] arr_view(a@)[j]),
                decreases n - i,
            {
                proof {
                    assert(decreases_to!(*v => v->Array_0));
                    assert(decreases_to!(*a => a@));
                    assert(decreases_to!(a@ => a@[i as int]));
                }
                if !check_wf(&a[i]) {
                    proof {
                        if wf_arr(arr_view(a@)) {
                            lemma_wf_arr(arr_view(a@));
                            assert(wf(arr_view(a@)[i as int]));
                        }
                    }
                    return false;
                }
                i = i + 1;
            }
            proof {
                lemma_wf_arr_all(arr_view(a@));
            }
            true
        },
        DocValue::Object(o) => {
            proof {
                lemma_obj_entries_view(o@);
            }
            let n = o.len();
            let mut i: usize = 0;
            while i < n
                invariant
                    0 <= i <= n,
                    n == o@.len(),
                    *v == DocValue::Object(*o),
                    obj_entries_view(o@).len() == n,
                    forall|j: int|
                        0 <= j < n ==> obj_entries_view(o@)[j] == (
                        o@[j].0@,
                        value_view(o@[j].1),
                        ),
                    forall|j: int, t: int|
                        0 <= j < t < n && t < i ==> obj_entries_view(o@)[j].0 != obj_entries_view(
                            o@,
                        )[t].0,
                    forall|j: int| 0 <= j < i ==> wf(#[trigger] obj_entries_view(o@)[j].1),
                decreases n - i,
            {
                let mut j: usize = 0;
                while j < i
                    invariant
                        0 <= j <= i < n,
                        n == o@.len(),
                        *v == DocValue::Object(*o),
                        obj_entries_view(o@).len() == n,
                        forall|t: int|
                            0 <= t < n ==> obj_entries_view(o@)[t] == (
                            o@[t].0@,
                            value_view(o@[t].1),
                            ),
                        forall|t: int| 0 <= t < j ==> o@[t].0@ != o@[i as int].0@,
                    decreases i - j,
                {
                    if o[j].0 == o[i].0 {
                        proof {
                            assert(obj_entries_view(o@)[j as int].0 == obj_entries_view(
                                o@,
                            )[i as int].0);
                            assert(!keys_unique(obj_entries_view(o@)));
                        }
                        return false;
                    }
                    j = j + 1;
                }
                proof {
                    assert(decreases_to!(*v => v->Object_0));
                    assert(decreases_to!(*o => o@));
                    assert(decreases_to!(o@ => o@[i as int]));
                    assert(decreases_to!(o@[i as int] => o@[i as int].1));
                }
                if !check_wf(&o[i].1) {
                    proof {
                        if wf_entries(obj_entries_view(o@)) {
                            lemma_wf_entries(obj_entries_view(o@));
                            assert(wf(obj_entries_view(o@)[i as int].1));
                        }
                    }
                    return false;
                }
                i = i + 1;
            }
            proof {
                lemma_wf_entries_all(obj_entries_view(o@));
                assert(keys_unique(obj_entries_view(o@)));
            }
            true
        },
        _ => true,
    }
}

/// Elementwise well-formedness makes an array well-formed.
pub proof fn lemma_wf_arr_all(a: Seq<SpecValue>)
    requires
        forall|i: int| 0 <= i < a.len() ==> wf(#[trigger] a[i]),
    ensures
        wf_arr(a),
    decreases a,
{
    if a.len() > 0 {
        assert(forall|i: int| 0 <= i < a.drop_first().len() ==> a.drop_first()[i] == a[i + 1]);
        lemma_wf_arr_all(a.drop_first());
    }
}

/// Elementwise well-formedness makes an entry list well-formed.
pub proof fn lemma_wf_entries_all(o: Seq<(Seq<char>, SpecValue)>)
    requires
        forall|i: int| 0 <= i < o.len() ==> wf((#[trigger] o[i]).1),
    ensures
        wf_entries(o),
    decreases o,
{
    if o.len() > 0 {
        assert(forall|i: int| 0 <= i < o.drop_first().len() ==> o.drop_first()[i] == o[i + 1]);
        lemma_wf_entries_all(o.drop_first());
    }
}

} // verus!
