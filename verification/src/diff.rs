//! The structural differ: the ordered list of leaf-level differences between
//! two documents.
//!
//! Equal subtrees are skipped. Where both sides are objects, every key of the
//! new side is visited in order (new-only keys surface with no old value),
//! then keys the old side lost are emitted as removals. Any other shape
//! mismatch, arrays included, is one leaf change.

use vstd::prelude::*;
use crate::value::DocValue;
use crate::value::SpecValue;
use crate::value::lemma_obj_entries_view;
use crate::value::lemma_obj_first_index;
use crate::value::lemma_obj_index;
use crate::value::obj_entries_view;
use crate::value::obj_get;
use crate::value::obj_has;
use crate::value::value_clone;
use crate::value::value_eq;
use crate::value::value_view;

verus! {

broadcast use vstd::std_specs::vec::group_vec_axioms;

/// One difference: the path to the leaf (as key segments), the value that
/// stood there (`None` when it was null or absent on a changed leaf), and
/// the new value (null for a removal).
pub type SpecChange = (Seq<Seq<char>>, Option<SpecValue>, SpecValue);

/// What a leaf change records as the old value: null reads as `None`.
pub open spec fn old_of(v: SpecValue) -> Option<SpecValue> {
    if v is Null {
        None
    } else {
        Some(v)
    }
}

/// The differences between two documents, in emission order.
pub open spec fn spec_diff(old: SpecValue, new: SpecValue) -> Seq<SpecChange>
    decreases new,
{
    if old == new {
        Seq::empty()
    } else if old is Object && new is Object {
        diff_adds(old->Object_0, new->Object_0) + diff_removes(old->Object_0, new->Object_0)
    } else {
        seq![(Seq::<Seq<char>>::empty(), old_of(old), new)]
    }
}

/// Changes for the keys of the new side, in its order: a key the old side
/// has is diffed recursively under that key; a new-only key surfaces whole.
pub open spec fn diff_adds(
    oo: Seq<(Seq<char>, SpecValue)>,
    no: Seq<(Seq<char>, SpecValue)>,
) -> Seq<SpecChange>
    decreases no,
{
    if no.len() == 0 {
        Seq::empty()
    } else {
        let k = no[0].0;
        let v = no[0].1;
        let head = if obj_has(oo, k) {
            prefix_all(k, spec_diff(obj_get(oo, k), v))
        } else {
            seq![(seq![k], None::<SpecValue>, v)]
        };
        head + diff_adds(oo, no.drop_first())
    }
}

/// Removals for the keys of the old side that the new side lost, in the old
/// side's order.
pub open spec fn diff_removes(
    oo: Seq<(Seq<char>, SpecValue)>,
    no: Seq<(Seq<char>, SpecValue)>,
) -> Seq<SpecChange>
    decreases oo.len(),
{
    if oo.len() == 0 {
        Seq::empty()
    } else {
        let head = if obj_has(no, oo[0].0) {
            Seq::<SpecChange>::empty()
        } else {
            seq![(seq![oo[0].0], Some(oo[0].1), SpecValue::Null)]
        };
        head + diff_removes(oo.drop_first(), no)
    }
}

/// The changes with one more leading key segment.
pub open spec fn prefix_all(k: Seq<char>, cs: Seq<SpecChange>) -> Seq<SpecChange> {
    cs.map_values(|c: SpecChange| (seq![k] + c.0, c.1, c.2))
}

/// The changes with all of `pseg` prepended to their paths.
pub open spec fn prefix_each(pseg: Seq<Seq<char>>, cs: Seq<SpecChange>) -> Seq<SpecChange> {
    cs.map_values(|c: SpecChange| (pseg + c.0, c.1, c.2))
}

/// A path rendered with dots, the way the differ builds it: extending the
/// empty prefix is the bare key, extending anything else inserts a dot.
pub open spec fn dot_extend(p: Seq<char>, k: Seq<char>) -> Seq<char> {
    if p.len() == 0 {
        k
    } else {
        p + seq!['.'] + k
    }
}

/// The dotted rendering of a segment path.
pub open spec fn render_path(pseg: Seq<Seq<char>>) -> Seq<char>
    decreases pseg.len(),
{
    if pseg.len() == 0 {
        Seq::empty()
    } else {
        dot_extend(render_path(pseg.drop_last()), pseg.last())
    }
}

pub proof fn lemma_render_push(pseg: Seq<Seq<char>>, k: Seq<char>)
    ensures
        render_path(pseg.push(k)) == dot_extend(render_path(pseg), k),
{
    assert(pseg.push(k).drop_last() =~= pseg);
    assert(pseg.push(k).last() == k);
}

/// An emitted difference as the exec differ hands it out.
pub open spec fn change_model(e: (String, Option<DocValue>, DocValue), c: SpecChange) -> bool {
    &&& e.0@ == render_path(c.0)
    &&& (match e.1 {
        Some(ov) => c.1 == Some(ov@),
        None => c.1 is None,
    })
    &&& e.2@ == c.2
}

/// The emitted list as a whole.
pub open spec fn changes_model(
    es: Seq<(String, Option<DocValue>, DocValue)>,
    cs: Seq<SpecChange>,
) -> bool {
    es.len() == cs.len() && forall|i: int| 0 <= i < es.len() ==> change_model(es[i], cs[i])
}

proof fn lemma_diff_adds_concat(
    oo: Seq<(Seq<char>, SpecValue)>,
    a: Seq<(Seq<char>, SpecValue)>,
    b: Seq<(Seq<char>, SpecValue)>,
)
    ensures
        diff_adds(oo, a + b) =~= diff_adds(oo, a) + diff_adds(oo, b),
    decreases a.len(),
{
    if a.len() == 0 {
        assert(a + b =~= b);
        assert(diff_adds(oo, a) =~= Seq::<SpecChange>::empty());
        assert(diff_adds(oo, a) + diff_adds(oo, b) =~= diff_adds(oo, b));
    } else {
        lemma_diff_adds_concat(oo, a.drop_first(), b);
        assert((a + b).drop_first() =~= a.drop_first() + b);
        assert((a + b)[0] == a[0]);
        assert(diff_adds(oo, a + b) =~= (if obj_has(oo, a[0].0) {
            prefix_all(a[0].0, spec_diff(obj_get(oo, a[0].0), a[0].1))
        } else {
            seq![(seq![a[0].0], None::<SpecValue>, a[0].1)]
        }) + (diff_adds(oo, a.drop_first()) + diff_adds(oo, b)));
    }
}

proof fn lemma_diff_removes_concat(
    a: Seq<(Seq<char>, SpecValue)>,
    b: Seq<(Seq<char>, SpecValue)>,
    no: Seq<(Seq<char>, SpecValue)>,
)
    ensures
        diff_removes(a + b, no) =~= diff_removes(a, no) + diff_removes(b, no),
    decreases a.len(),
{
    if a.len() == 0 {
        assert(a + b =~= b);
        assert(diff_removes(a, no) =~= Seq::<SpecChange>::empty());
        assert(diff_removes(a, no) + diff_removes(b, no) =~= diff_removes(b, no));
    } else {
        lemma_diff_removes_concat(a.drop_first(), b, no);
        assert((a + b).drop_first() =~= a.drop_first() + b);
        assert((a + b)[0] == a[0]);
        assert(diff_removes(a + b, no) =~= (if obj_has(no, a[0].0) {
            Seq::<SpecChange>::empty()
        } else {
            seq![(seq![a[0].0], Some(a[0].1), SpecValue::Null)]
        }) + (diff_removes(a.drop_first(), no) + diff_removes(b, no)));
    }
}

/// `prefix` extended by one key, with a dot where the prefix is not empty.
fn extend_path(prefix: &String, k: &String) -> (r: String)
    ensures
        r@ == dot_extend(prefix@, k@),
{
    if prefix.as_str().is_empty() {
        k.clone()
    } else {
        let mut s = prefix.clone();
        s.append(".");
        s.append(k.as_str());
        proof {
            reveal_strlit(".");
            assert(s@ =~= prefix@ + seq!['.'] + k@);
        }
        s
    }
}

/// Emit the differences between `old` and `new` under `prefix` onto the end
/// of `out`.
fn diff_rec(
    before: &DocValue,
    after: &DocValue,
    prefix: &String,
    out: &mut Vec<(String, Option<DocValue>, DocValue)>,
    Ghost(pseg): Ghost<Seq<Seq<char>>>,
)
    requires
        prefix@ == render_path(pseg),
    ensures
        final(out)@.len() == old(out)@.len() + spec_diff(before@, after@).len(),
        forall|u: int| 0 <= u < old(out)@.len() ==> final(out)@[u] == old(out)@[u],
        changes_model(
            final(out)@.subrange(old(out)@.len() as int, final(out)@.len() as int),
            prefix_each(pseg, spec_diff(before@, after@)),
        ),
    decreases *after,
{
    let ghost base = out@.len();
    if value_eq(before, after) {
        proof {
            assert(spec_diff(before@, after@) =~= Seq::<SpecChange>::empty());
            assert(out@.subrange(base as int, out@.len() as int) =~= Seq::<(
                String,
                Option<DocValue>,
                DocValue,
            )>::empty());
        }
        return ;
    }
    let old_is_obj = before.is_object();
    let new_is_obj = after.is_object();
    if !(old_is_obj && new_is_obj) {
        let old_val = if before.is_null() {
            None
        } else {
            Some(value_clone(before))
        };
        let entry = (prefix.clone(), old_val, value_clone(after));
        out.push(entry);
        proof {
            let c = (Seq::<Seq<char>>::empty(), old_of(before@), after@);
            assert(spec_diff(before@, after@) =~= seq![c]);
            assert(pseg + Seq::<Seq<char>>::empty() =~= pseg);
            assert(prefix_each(pseg, seq![c]) =~= seq![(pseg, old_of(before@), after@)]);
            assert(out@.subrange(base as int, out@.len() as int) =~= seq![entry]);
        }
        return ;
    }
    match before {
        DocValue::Object(oo) => match after {
            DocValue::Object(no) => {
                proof {
                    lemma_obj_entries_view(oo@);
                    lemma_obj_entries_view(no@);
                }
                let ghost oov = obj_entries_view(oo@);
                let ghost nov = obj_entries_view(no@);
                let n = no.len();
                proof {
                    assert(nov.subrange(0, 0) =~= Seq::<(Seq<char>, SpecValue)>::empty());
                    assert(diff_adds(oov, nov.subrange(0, 0)) =~= Seq::<SpecChange>::empty());
                    assert(out@.subrange(base as int, out@.len() as int) =~= Seq::<(
                        String,
                        Option<DocValue>,
                        DocValue,
                    )>::empty());
                }
                let mut idx: usize = 0;
                while idx < n
                    invariant
                        0 <= idx <= n,
                        n == no@.len(),
                        *before == DocValue::Object(*oo),
                        *after == DocValue::Object(*no),
                        prefix@ == render_path(pseg),
                        oov == obj_entries_view(oo@),
                        nov == obj_entries_view(no@),
                        nov.len() == n,
                        forall|u: int| 0 <= u < n ==> nov[u] == (no@[u].0@, value_view(no@[u].1)),
                        oov.len() == oo@.len(),
                        forall|u: int|
                            0 <= u < oo@.len() ==> oov[u] == (oo@[u].0@, value_view(oo@[u].1)),
                        out@.len() == base + prefix_each(
                            pseg,
                            diff_adds(oov, nov.subrange(0, idx as int)),
                        ).len(),
                        forall|u: int| 0 <= u < base ==> out@[u] == old(out)@[u],
                        base <= out@.len(),
                        changes_model(
                            out@.subrange(base as int, out@.len() as int),
                            prefix_each(pseg, diff_adds(oov, nov.subrange(0, idx as int))),
                        ),
                    decreases n - idx,
                {
                    let ghost seen = out@;
                    let ghost done = diff_adds(oov, nov.subrange(0, idx as int));
                    proof {
                        assert(nov.subrange(0, idx + 1) =~= nov.subrange(0, idx as int) + seq![
                            nov[idx as int],
                        ]);
                        lemma_diff_adds_concat(
                            oov,
                            nov.subrange(0, idx as int),
                            seq![nov[idx as int]],
                        );
                        assert(seq![nov[idx as int]].drop_first() =~= Seq::<(
                            Seq<char>,
                            SpecValue,
                        )>::empty());
                        assert(diff_adds(oov, seq![nov[idx as int]].drop_first()) =~= Seq::<
                            SpecChange,
                        >::empty());
                    }
                    let key = &no[idx].0;
                    let ghost kv = key@;
                    let ghost step = diff_adds(oov, seq![nov[idx as int]]);
                    let found = obj_find_entries(oo, key);
                    match found {
                        Some(j) => {
                            proof {
                                lemma_obj_first_index(oov, kv, j as int);
                                assert(decreases_to!(*after => after->Object_0));
                                assert(decreases_to!(*no => no@));
                                assert(decreases_to!(no@ => no@[idx as int]));
                                assert(decreases_to!(no@[idx as int] => no@[idx as int].1));
                                assert(decreases_to!(*after => no@[idx as int].1));
                                lemma_render_push(pseg, kv);
                            }
                            let child_prefix = extend_path(prefix, key);
                            diff_rec(
                                &oo[j].1,
                                &no[idx].1,
                                &child_prefix,
                                out,
                                Ghost(pseg.push(kv)),
                            );
                            proof {
                                let cs = spec_diff(obj_get(oov, kv), nov[idx as int].1);
                                assert(step =~= prefix_all(kv, cs) + Seq::<SpecChange>::empty());
                                assert(step =~= prefix_all(kv, cs));
                                assert forall|u: int| 0 <= u < cs.len() implies prefix_each(
                                    pseg,
                                    prefix_all(kv, cs),
                                )[u] == prefix_each(pseg.push(kv), cs)[u] by {
                                    assert(pseg + (seq![kv] + cs[u].0) =~= pseg.push(kv)
                                        + cs[u].0);
                                }
                                assert(prefix_each(pseg, step) =~= prefix_each(
                                    pseg.push(kv),
                                    cs,
                                ));
                                assert(prefix_each(pseg, diff_adds(oov, nov.subrange(0, idx + 1)))
                                    =~= prefix_each(pseg, done) + prefix_each(pseg, step));
                                assert(out@.subrange(base as int, out@.len() as int) =~= seen.subrange(
                                    base as int,
                                    seen.len() as int,
                                ) + out@.subrange(seen.len() as int, out@.len() as int));
                            }
                        },
                        None => {
                            proof {
                                lemma_obj_index(oov, kv);
                                lemma_render_push(pseg, kv);
                            }
                            let path_s = extend_path(prefix, key);
                            let entry = (path_s, None, value_clone(&no[idx].1));
                            out.push(entry);
                            proof {
                                let c = (seq![kv], None::<SpecValue>, nov[idx as int].1);
                                assert(step =~= seq![c] + Seq::<SpecChange>::empty());
                                assert(step =~= seq![c]);
                                assert(pseg + seq![kv] =~= pseg.push(kv));
                                assert(prefix_each(pseg, seq![c]) =~= seq![
                                    (pseg.push(kv), None::<SpecValue>, nov[idx as int].1),
                                ]);
                                assert(prefix_each(pseg, diff_adds(oov, nov.subrange(0, idx + 1)))
                                    =~= prefix_each(pseg, done) + prefix_each(pseg, step));
                                assert(out@.subrange(base as int, out@.len() as int) =~= seen.subrange(
                                    base as int,
                                    seen.len() as int,
                                ) + seq![entry]);
                            }
                        },
                    }
                    idx = idx + 1;
                }
                proof {
                    assert(nov.subrange(0, n as int) =~= nov);
                }
                // removals: keys of the before side that the after side lost
                let m = oo.len();
                let ghost base2 = out@.len();
                let ghost adds_full = prefix_each(pseg, diff_adds(oov, nov));
                proof {
                    assert(oov.subrange(0, 0) =~= Seq::<(Seq<char>, SpecValue)>::empty());
                    assert(diff_removes(oov.subrange(0, 0), nov) =~= Seq::<SpecChange>::empty());
                    assert(out@.subrange(base2 as int, out@.len() as int) =~= Seq::<(
                        String,
                        Option<DocValue>,
                        DocValue,
                    )>::empty());
                }
                let mut t: usize = 0;
                while t < m
                    invariant
                        0 <= t <= m,
                        m == oo@.len(),
                        *before == DocValue::Object(*oo),
                        *after == DocValue::Object(*no),
                        prefix@ == render_path(pseg),
                        oov == obj_entries_view(oo@),
                        nov == obj_entries_view(no@),
                        oov.len() == m,
                        forall|u: int| 0 <= u < m ==> oov[u] == (oo@[u].0@, value_view(oo@[u].1)),
                        nov.len() == no@.len(),
                        forall|u: int|
                            0 <= u < no@.len() ==> nov[u] == (no@[u].0@, value_view(no@[u].1)),
                        base + adds_full.len() == base2 <= out@.len(),
                        forall|u: int| 0 <= u < base ==> out@[u] == old(out)@[u],
                        changes_model(out@.subrange(base as int, base2 as int), adds_full),
                        out@.len() == base2 + prefix_each(
                            pseg,
                            diff_removes(oov.subrange(0, t as int), nov),
                        ).len(),
                        changes_model(
                            out@.subrange(base2 as int, out@.len() as int),
                            prefix_each(pseg, diff_removes(oov.subrange(0, t as int), nov)),
                        ),
                    decreases m - t,
                {
                    let ghost seen = out@;
                    let ghost done = diff_removes(oov.subrange(0, t as int), nov);
                    proof {
                        assert(oov.subrange(0, t + 1) =~= oov.subrange(0, t as int) + seq![
                            oov[t as int],
                        ]);
                        lemma_diff_removes_concat(
                            oov.subrange(0, t as int),
                            seq![oov[t as int]],
                            nov,
                        );
                        assert(seq![oov[t as int]].drop_first() =~= Seq::<(
                            Seq<char>,
                            SpecValue,
                        )>::empty());
                        assert(diff_removes(seq![oov[t as int]].drop_first(), nov) =~= Seq::<
                            SpecChange,
                        >::empty());
                    }
                    let key = &oo[t].0;
                    let ghost kv = key@;
                    let ghost step = diff_removes(seq![oov[t as int]], nov);
                    let found = obj_find_entries(no, key);
                    match found {
                        Some(_) => {
                            proof {
                                lemma_obj_first_index(nov, kv, found->Some_0 as int);
                                assert(obj_has(nov, kv));
                                assert(step =~= Seq::<SpecChange>::empty());
                                assert(out@.subrange(base2 as int, out@.len() as int)
                                    =~= seen.subrange(base2 as int, seen.len() as int));
                            }
                        },
                        None => {
                            proof {
                                lemma_obj_index(nov, kv);
                                lemma_render_push(pseg, kv);
                            }
                            let path_s = extend_path(prefix, key);
                            let entry = (path_s, Some(value_clone(&oo[t].1)), DocValue::Null);
                            out.push(entry);
                            proof {
                                let c = (seq![kv], Some(oov[t as int].1), SpecValue::Null);
                                assert(step =~= seq![c] + Seq::<SpecChange>::empty());
                                assert(step =~= seq![c]);
                                assert(pseg + seq![kv] =~= pseg.push(kv));
                                assert(prefix_each(pseg, seq![c]) =~= seq![
                                    (pseg.push(kv), Some(oov[t as int].1), SpecValue::Null),
                                ]);
                                assert(out@.subrange(base2 as int, out@.len() as int)
                                    =~= seen.subrange(base2 as int, seen.len() as int) + seq![
                                    entry,
                                ]);
                            }
                        },
                    }
                    proof {
                        assert(prefix_each(pseg, diff_removes(oov.subrange(0, t + 1), nov))
                            =~= prefix_each(pseg, done) + prefix_each(pseg, step));
                    }
                    t = t + 1;
                }
                proof {
                    assert(oov.subrange(0, m as int) =~= oov);
                    let full = spec_diff(before@, after@);
                    assert(before@ is Object && after@ is Object);
                    assert(before@ != after@);
                    assert(full =~= diff_adds(oov, nov) + diff_removes(oov, nov));
                    assert(prefix_each(pseg, full) =~= adds_full + prefix_each(
                        pseg,
                        diff_removes(oov, nov),
                    ));
                    assert(out@.subrange(base as int, out@.len() as int) =~= out@.subrange(
                        base as int,
                        base2 as int,
                    ) + out@.subrange(base2 as int, out@.len() as int));
                }
            },
            _ => {
                proof {
                    assert(false);
                }
            },
        },
        _ => {
            proof {
                assert(false);
            }
        },
    }
}

/// The index of the first entry whose key is `k`, if any.
fn obj_find_entries(entries: &Vec<(String, DocValue)>, k: &String) -> (r: Option<usize>)
    ensures
        match r {
            Some(j) => j < entries@.len() && entries@[j as int].0@ == k@ && (forall|t: int|
                0 <= t < j ==> entries@[t].0@ != k@),
            None => forall|t: int| 0 <= t < entries@.len() ==> entries@[t].0@ != k@,
        },
{
    let n = entries.len();
    let mut j: usize = 0;
    while j < n
        invariant
            0 <= j <= n,
            n == entries@.len(),
            forall|t: int| 0 <= t < j ==> entries@[t].0@ != k@,
        decreases n - j,
    {
        if entries[j].0 == *k {
            return Some(j);
        }
        j = j + 1;
    }
    None
}

/// The leaf-level differences between two documents, with dotted paths,
/// every difference of the new side first (in its key order), removals of
/// lost keys after (in the old side's key order).
pub fn diff_values(old: &DocValue, new: &DocValue) -> (r: Vec<(String, Option<DocValue>, DocValue)>)
    ensures
        changes_model(r@, spec_diff(old@, new@)),
{
    let mut out: Vec<(String, Option<DocValue>, DocValue)> = Vec::new();
    let prefix = String::new();
    proof {
        assert(render_path(Seq::<Seq<char>>::empty()) =~= Seq::<char>::empty());
    }
    diff_rec(old, new, &prefix, &mut out, Ghost(Seq::empty()));
    proof {
        let cs = spec_diff(old@, new@);
        assert(out@.subrange(0, out@.len() as int) =~= out@);
        assert forall|u: int| 0 <= u < cs.len() implies prefix_each(
            Seq::<Seq<char>>::empty(),
            cs,
        )[u] == cs[u] by {
            assert(Seq::<Seq<char>>::empty() + cs[u].0 =~= cs[u].0);
            assert(prefix_each(Seq::<Seq<char>>::empty(), cs)[u] == (
                Seq::<Seq<char>>::empty() + cs[u].0,
                cs[u].1,
                cs[u].2,
            ));
        }
        assert(prefix_each(Seq::<Seq<char>>::empty(), cs) =~= cs);
    }
    out
}


/// The canonical form of a document: object entries become a map, with
/// null-valued entries dropped — the view under which a null value and an
/// absent key read the same, and object key order does not matter.
#[verifier::ext_equal]
pub enum CanonValue {
    Null,
    Bool(bool),
    Int(int),
    Num(Seq<char>),
    Text(Seq<char>),
    Array(Seq<CanonValue>),
    Object(Map<Seq<char>, CanonValue>),
}

/// The canonical form of a document.
pub open spec fn canon(v: SpecValue) -> CanonValue
    decreases v,
{
    match v {
        SpecValue::Null => CanonValue::Null,
        SpecValue::Bool(b) => CanonValue::Bool(b),
        SpecValue::Int(n) => CanonValue::Int(n),
        SpecValue::Num(s) => CanonValue::Num(s),
        SpecValue::Text(s) => CanonValue::Text(s),
        SpecValue::Array(a) => CanonValue::Array(canon_arr(a)),
        SpecValue::Object(o) => CanonValue::Object(canon_obj(o)),
    }
}

pub open spec fn canon_arr(a: Seq<SpecValue>) -> Seq<CanonValue>
    decreases a,
{
    if a.len() == 0 {
        Seq::empty()
    } else {
        seq![canon(a[0])] + canon_arr(a.drop_first())
    }
}

pub open spec fn canon_obj(o: Seq<(Seq<char>, SpecValue)>) -> Map<Seq<char>, CanonValue>
    decreases o,
{
    if o.len() == 0 {
        Map::empty()
    } else {
        let m = canon_obj(o.drop_first());
        if o[0].1 is Null {
            m.remove(o[0].0)
        } else {
            m.insert(o[0].0, canon(o[0].1))
        }
    }
}

/// What the canonical object map holds at one key: the first entry's value,
/// unless it is null or absent.
pub proof fn lemma_canon_obj_at(o: Seq<(Seq<char>, SpecValue)>, k: Seq<char>)
    ensures
        canon_obj(o).contains_key(k) == (obj_has(o, k) && !(obj_get(o, k) is Null)),
        canon_obj(o).contains_key(k) ==> canon_obj(o)[k] == canon(obj_get(o, k)),
    decreases o.len(),
{
    if o.len() > 0 {
        lemma_canon_obj_at(o.drop_first(), k);
    }
}

/// The document after applying a list of changes as set operations, in
/// order; `None` when one of them cannot resolve its path.
pub open spec fn replay(v: SpecValue, cs: Seq<SpecChange>) -> Option<SpecValue>
    decreases cs.len(),
{
    if cs.len() == 0 {
        Some(v)
    } else {
        match crate::patch::spec_set(v, cs[0].0, cs[0].2) {
            Some(v2) => replay(v2, cs.drop_first()),
            None => None,
        }
    }
}

proof fn lemma_replay_concat(v: SpecValue, c1: Seq<SpecChange>, c2: Seq<SpecChange>)
    ensures
        replay(v, c1 + c2) == (match replay(v, c1) {
            Some(v1) => replay(v1, c2),
            None => None::<SpecValue>,
        }),
    decreases c1.len(),
{
    if c1.len() == 0 {
        assert(c1 + c2 =~= c2);
    } else {
        assert((c1 + c2)[0] == c1[0]);
        assert((c1 + c2).drop_first() =~= c1.drop_first() + c2);
        match crate::patch::spec_set(v, c1[0].0, c1[0].2) {
            Some(v2) => {
                lemma_replay_concat(v2, c1.drop_first(), c2);
            },
            None => {},
        }
    }
}

/// Rebinding the first entry of a key to the value it already holds changes
/// nothing.
proof fn lemma_obj_put_get_identity(o: Seq<(Seq<char>, SpecValue)>, k: Seq<char>)
    requires
        obj_has(o, k),
    ensures
        crate::value::obj_put(o, k, obj_get(o, k)) =~= o,
    decreases o.len(),
{
    if o[0].0 == k {
        assert(crate::value::obj_put(o, k, obj_get(o, k)) =~= seq![(k, o[0].1)] + o.drop_first());
        assert(seq![(k, o[0].1)] + o.drop_first() =~= o);
    } else {
        lemma_obj_put_get_identity(o.drop_first(), k);
        assert(crate::value::obj_put(o, k, obj_get(o, k)) =~= seq![o[0]] + crate::value::obj_put(
            o.drop_first(),
            k,
            obj_get(o.drop_first(), k),
        ));
    }
}

/// Replaying changes that all live under one present key rewrites exactly
/// that key's value, by replaying the unprefixed changes on it.
proof fn lemma_replay_prefixed(
    ow: Seq<(Seq<char>, SpecValue)>,
    k: Seq<char>,
    cs: Seq<SpecChange>,
)
    requires
        obj_has(ow, k),
    ensures
        replay(SpecValue::Object(ow), prefix_all(k, cs)) == (match replay(obj_get(ow, k), cs) {
            Some(c2) => Some(SpecValue::Object(crate::value::obj_put(ow, k, c2))),
            None => None::<SpecValue>,
        }),
    decreases cs.len(),
{
    let pcs = prefix_all(k, cs);
    if cs.len() == 0 {
        lemma_obj_put_get_identity(ow, k);
        assert(pcs =~= Seq::<SpecChange>::empty());
    } else {
        assert(pcs.len() == cs.len());
        assert(pcs[0] == (seq![k] + cs[0].0, cs[0].1, cs[0].2));
        let p0 = seq![k] + cs[0].0;
        assert(p0[0] == k);
        assert(p0.drop_first() =~= cs[0].0);
        assert(p0.len() >= 1);
        let child = obj_get(ow, k);
        match crate::patch::spec_set(child, cs[0].0, cs[0].2) {
            Some(c1) => {
                assert(crate::patch::spec_set(SpecValue::Object(ow), p0, cs[0].2) == Some(
                    SpecValue::Object(crate::value::obj_put(ow, k, c1)),
                )) by {
                    if p0.len() == 1 {
                        assert(cs[0].0.len() == 0);
                        assert(crate::patch::spec_set(child, cs[0].0, cs[0].2) == Some(cs[0].2));
                    }
                }
                let ow1 = crate::value::obj_put(ow, k, c1);
                crate::value::lemma_obj_put_at(ow, k, c1, k);
                lemma_replay_prefixed(ow1, k, cs.drop_first());
                assert(pcs.drop_first() =~= prefix_all(k, cs.drop_first())) by {
                    assert(forall|i: int|
                        0 <= i < cs.drop_first().len() ==> cs.drop_first()[i] == cs[i + 1]);
                    assert(forall|i: int|
                        0 <= i < pcs.drop_first().len() ==> pcs.drop_first()[i] == pcs[i + 1]);
                }
                assert(obj_get(ow1, k) == c1);
                match replay(c1, cs.drop_first()) {
                    Some(c2) => {
                        crate::value::lemma_obj_put_put(ow, k, c1, c2);
                    },
                    None => {},
                }
            },
            None => {
                assert(crate::patch::spec_set(SpecValue::Object(ow), p0, cs[0].2)
                    is None) by {
                    if p0.len() == 1 {
                        assert(cs[0].0.len() == 0);
                    }
                }
            },
        }
    }
}

/// Whether some entry carries the key.
pub open spec fn key_of(es: Seq<(Seq<char>, SpecValue)>, k: Seq<char>) -> bool {
    exists|i: int| 0 <= i < es.len() && (#[trigger] es[i]).0 == k
}

/// Replaying the additions and nested differences for the keys of `obs`
/// succeeds, leaves every other key alone, and lands each key of `obs` at a
/// value canonically equal to its new value.
proof fn lemma_replay_adds(
    oa: Seq<(Seq<char>, SpecValue)>,
    ow: Seq<(Seq<char>, SpecValue)>,
    obs: Seq<(Seq<char>, SpecValue)>,
)
    requires
        crate::value::keys_unique(ow),
        crate::value::keys_unique(oa),
        crate::value::wf_entries(oa),
        crate::value::keys_unique(obs),
        crate::value::wf_entries(obs),
        forall|i: int|
            0 <= i < obs.len() ==> obj_has(ow, (#[trigger] obs[i]).0) == obj_has(oa, obs[i].0)
                && obj_get(ow, obs[i].0) == obj_get(oa, obs[i].0),
    ensures
        replay(SpecValue::Object(ow), diff_adds(oa, obs)) matches Some(w) && w is Object && ({
            let ow2 = w->Object_0;
            &&& crate::value::keys_unique(ow2)
            &&& (forall|k: Seq<char>|
                !key_of(obs, k) ==> obj_has(ow2, k) == obj_has(ow, k) && obj_get(ow2, k)
                    == obj_get(ow, k))
            &&& (forall|i: int|
                0 <= i < obs.len() ==> obj_has(ow2, (#[trigger] obs[i]).0) && canon(
                    obj_get(ow2, obs[i].0),
                ) == canon(obs[i].1))
        }),
    decreases obs,
{
    if obs.len() == 0 {
        assert(diff_adds(oa, obs) =~= Seq::<SpecChange>::empty());
    } else {
        let k = obs[0].0;
        let v = obs[0].1;
        let rest = obs.drop_first();
        assert(forall|i: int| 0 <= i < rest.len() ==> rest[i] == obs[i + 1]);
        let head = if obj_has(oa, k) {
            prefix_all(k, spec_diff(obj_get(oa, k), v))
        } else {
            seq![(seq![k], None::<SpecValue>, v)]
        };
        assert(diff_adds(oa, obs) == head + diff_adds(oa, rest));
        let c2: SpecValue = if obj_has(oa, k) {
            replay(obj_get(ow, k), spec_diff(obj_get(oa, k), v))->Some_0
        } else {
            v
        };
        if obj_has(oa, k) {
            crate::value::lemma_obj_get_wf(oa, k);
            assert(crate::value::wf(v));
            lemma_diff_replay(obj_get(oa, k), v);
            lemma_replay_prefixed(ow, k, spec_diff(obj_get(oa, k), v));
            assert(replay(SpecValue::Object(ow), head) == Some(
                SpecValue::Object(crate::value::obj_put(ow, k, c2)),
            ));
            assert(canon(c2) == canon(v));
        } else {
            assert(head[0].0 =~= seq![k]);
            assert(head[0].0.len() == 1);
            assert(crate::patch::spec_set(SpecValue::Object(ow), head[0].0, v) == Some(
                SpecValue::Object(crate::value::obj_put(ow, k, v)),
            ));
            assert(head.drop_first() =~= Seq::<SpecChange>::empty());
            assert(replay(SpecValue::Object(crate::value::obj_put(ow, k, v)), head.drop_first())
                == Some(SpecValue::Object(crate::value::obj_put(ow, k, v))));
            assert(head[0].2 == v);
            assert(replay(SpecValue::Object(ow), head) == Some(
                SpecValue::Object(crate::value::obj_put(ow, k, c2)),
            ));
        }
        let ow1 = crate::value::obj_put(ow, k, c2);
        crate::value::lemma_obj_put(ow, k, c2);
        assert(forall|i: int|
            0 <= i < rest.len() ==> obj_has(ow1, (#[trigger] rest[i]).0) == obj_has(
                oa,
                rest[i].0,
            ) && obj_get(ow1, rest[i].0) == obj_get(oa, rest[i].0)) by {
            assert(forall|i: int| 0 <= i < rest.len() ==> rest[i].0 != k);
        }
        assert(crate::value::wf_entries(rest));
        lemma_replay_adds(oa, ow1, rest);
        lemma_replay_concat(SpecValue::Object(ow), head, diff_adds(oa, rest));
        let w = replay(SpecValue::Object(ow1), diff_adds(oa, rest))->Some_0;
        let ow2 = w->Object_0;
        assert forall|kk: Seq<char>| !key_of(obs, kk) implies obj_has(ow2, kk) == obj_has(ow, kk)
            && obj_get(ow2, kk) == obj_get(ow, kk) by {
            assert(!key_of(rest, kk));
            assert(kk != k) by {
                if kk == k {
                    assert(obs[0].0 == kk);
                }
            }
        }
        assert forall|i: int| 0 <= i < obs.len() implies obj_has(ow2, (#[trigger] obs[i]).0)
            && canon(obj_get(ow2, obs[i].0)) == canon(obs[i].1) by {
            if i == 0 {
                assert(!key_of(rest, k));
                assert(obj_has(ow2, k) == obj_has(ow1, k));
                assert(obj_get(ow2, k) == obj_get(ow1, k));
            } else {
                assert(obs[i] == rest[i - 1]);
            }
        }
    }
}

/// Replaying the removals nulls out exactly the keys the new side lost and
/// leaves every other key alone.
proof fn lemma_replay_removes(
    oa: Seq<(Seq<char>, SpecValue)>,
    no: Seq<(Seq<char>, SpecValue)>,
    ow: Seq<(Seq<char>, SpecValue)>,
)
    requires
        crate::value::keys_unique(ow),
    ensures
        replay(SpecValue::Object(ow), diff_removes(oa, no)) matches Some(w) && w is Object && ({
            let ow2 = w->Object_0;
            &&& crate::value::keys_unique(ow2)
            &&& (forall|k: Seq<char>|
                !(key_of(oa, k) && !obj_has(no, k)) ==> obj_has(ow2, k) == obj_has(ow, k)
                    && obj_get(ow2, k) == obj_get(ow, k))
            &&& (forall|k: Seq<char>|
                key_of(oa, k) && !obj_has(no, k) ==> obj_has(ow2, k) && obj_get(ow2, k)
                    is Null)
        }),
    decreases oa.len(),
{
    if oa.len() == 0 {
        assert(diff_removes(oa, no) =~= Seq::<SpecChange>::empty());
        assert forall|k: Seq<char>| !key_of(oa, k) implies true by {}
    } else {
        let k = oa[0].0;
        let rest = oa.drop_first();
        assert(forall|i: int| 0 <= i < rest.len() ==> rest[i] == oa[i + 1]);
        let head = if obj_has(no, k) {
            Seq::<SpecChange>::empty()
        } else {
            seq![(seq![k], Some(oa[0].1), SpecValue::Null)]
        };
        assert(diff_removes(oa, no) == head + diff_removes(rest, no));
        let ow1: Seq<(Seq<char>, SpecValue)> = if obj_has(no, k) {
            ow
        } else {
            crate::value::obj_put(ow, k, SpecValue::Null)
        };
        if obj_has(no, k) {
            assert(replay(SpecValue::Object(ow), head) == Some(SpecValue::Object(ow1)));
        } else {
            assert(head[0].0 =~= seq![k]);
            assert(head[0].0.len() == 1);
            assert(crate::patch::spec_set(SpecValue::Object(ow), head[0].0, SpecValue::Null)
                == Some(SpecValue::Object(ow1)));
            assert(head.drop_first() =~= Seq::<SpecChange>::empty());
            assert(replay(SpecValue::Object(ow1), head.drop_first()) == Some(
                SpecValue::Object(ow1),
            ));
            assert(head[0].2 == SpecValue::Null);
            assert(replay(SpecValue::Object(ow), head) == Some(SpecValue::Object(ow1)));
            crate::value::lemma_obj_put(ow, k, SpecValue::Null);
        }
        lemma_replay_removes(rest, no, ow1);
        lemma_replay_concat(SpecValue::Object(ow), head, diff_removes(rest, no));
        let w = replay(SpecValue::Object(ow1), diff_removes(rest, no))->Some_0;
        let ow2 = w->Object_0;
        assert forall|kk: Seq<char>| !(key_of(oa, kk) && !obj_has(no, kk)) implies obj_has(
            ow2,
            kk,
        ) == obj_has(ow, kk) && obj_get(ow2, kk) == obj_get(ow, kk) by {
            assert(!(key_of(rest, kk) && !obj_has(no, kk))) by {
                if key_of(rest, kk) {
                    let i = choose|i: int| 0 <= i < rest.len() && rest[i].0 == kk;
                    assert(oa[i + 1].0 == kk);
                }
            }
            assert(kk != k || obj_has(no, kk)) by {
                if kk == k && !obj_has(no, kk) {
                    assert(oa[0].0 == kk);
                }
            }
        }
        assert forall|kk: Seq<char>| key_of(oa, kk) && !obj_has(no, kk) implies obj_has(ow2, kk)
            && obj_get(ow2, kk) is Null by {
            if kk == k {
                assert(!(key_of(rest, kk) && !obj_has(no, kk)) ==> obj_get(ow2, kk) == obj_get(
                    ow1,
                    kk,
                ));
                if key_of(rest, kk) {
                } else {
                    assert(obj_has(ow2, kk) == obj_has(ow1, kk));
                    assert(obj_get(ow2, kk) == obj_get(ow1, kk));
                }
            } else {
                let i = choose|i: int| 0 <= i < oa.len() && oa[i].0 == kk;
                assert(i >= 1);
                assert(rest[i - 1].0 == kk);
                assert(key_of(rest, kk));
            }
        }
    }
}

/// The round trip of the differ through the patch engine: replaying the
/// changes `spec_diff(a, b)` emits onto `a` always succeeds, and the result
/// reads back as `b` in canonical form — null entries and object key order
/// aside, the replayed document is `b` exactly.
pub proof fn lemma_diff_replay(a: SpecValue, b: SpecValue)
    requires
        crate::value::wf(a),
        crate::value::wf(b),
    ensures
        replay(a, spec_diff(a, b)) matches Some(r) && canon(r) == canon(b),
    decreases b,
{
    if a == b {
        assert(spec_diff(a, b) =~= Seq::<SpecChange>::empty());
    } else if a is Object && b is Object {
        let oa = a->Object_0;
        let ob = b->Object_0;
        assert(crate::value::keys_unique(oa) && crate::value::wf_entries(oa));
        assert(crate::value::keys_unique(ob) && crate::value::wf_entries(ob));
        lemma_replay_adds(oa, oa, ob);
        let w1 = replay(SpecValue::Object(oa), diff_adds(oa, ob))->Some_0;
        let ow1 = w1->Object_0;
        lemma_replay_removes(oa, ob, ow1);
        lemma_replay_concat(a, diff_adds(oa, ob), diff_removes(oa, ob));
        let w2 = replay(w1, diff_removes(oa, ob))->Some_0;
        let ow2 = w2->Object_0;
        assert(canon(w2) == canon(b)) by {
            assert forall|k: Seq<char>| #![trigger canon_obj(ow2).contains_key(k)]
                canon_obj(ow2).contains_key(k) == canon_obj(ob).contains_key(k) && (canon_obj(
                ow2,
            ).contains_key(k) ==> canon_obj(ow2)[k] == canon_obj(ob)[k]) by {
                    lemma_canon_obj_at(ow2, k);
                    lemma_canon_obj_at(ob, k);
                    lemma_canon_obj_at(oa, k);
                    crate::value::lemma_obj_index(ob, k);
                    crate::value::lemma_obj_index(oa, k);
                    if obj_has(ob, k) {
                        let i = choose|i: int| 0 <= i < ob.len() && ob[i].0 == k;
                        assert(crate::value::keys_unique(ob));
                        assert(obj_get(ob, k) == ob[i].1) by {
                            crate::value::lemma_obj_index(ob, k);
                            let j = choose|j: int|
                                0 <= j < ob.len() && ob[j].0 == k && ob[j].1 == obj_get(ob, k);
                            assert(i == j) by {
                                if i < j {
                                    assert(ob[i].0 != ob[j].0);
                                } else if j < i {
                                    assert(ob[j].0 != ob[i].0);
                                }
                            }
                        }
                        assert(obj_has(ow1, ob[i].0) && canon(obj_get(ow1, ob[i].0)) == canon(
                            ob[i].1,
                        ));
                        assert(!(key_of(oa, k) && !obj_has(ob, k)));
                        assert(obj_has(ow2, k) == obj_has(ow1, k));
                        assert(obj_get(ow2, k) == obj_get(ow1, k));
                        assert(canon(obj_get(ow2, k)) == canon(obj_get(ob, k)));
                        assert((obj_get(ow2, k) is Null) == (obj_get(ob, k) is Null));
                    } else {
                        if key_of(oa, k) {
                            assert(obj_has(ow2, k) && obj_get(ow2, k) is Null);
                        } else {
                            assert(!key_of(ob, k)) by {
                                if key_of(ob, k) {
                                    let i = choose|i: int| 0 <= i < ob.len() && ob[i].0 == k;
                                    assert(obj_has(ob, k)) by {
                                        crate::value::lemma_obj_index(ob, k);
                                    }
                                }
                            }
                            assert(obj_has(ow2, k) == obj_has(ow1, k));
                            assert(obj_get(ow2, k) == obj_get(ow1, k));
                            assert(obj_has(ow1, k) == obj_has(oa, k));
                            assert(!obj_has(oa, k)) by {
                                crate::value::lemma_obj_index(oa, k);
                                if obj_has(oa, k) {
                                    let i = choose|i: int| 0 <= i < oa.len() && oa[i].0 == k;
                                    assert(key_of(oa, k));
                                }
                            }
                        }
                    }
            }
            assert forall|k: Seq<char>|
                canon_obj(ow2).dom().contains(k) == canon_obj(ob).dom().contains(k) by {
                assert(canon_obj(ow2).contains_key(k) == canon_obj(ob).contains_key(k)
                    && (canon_obj(ow2).contains_key(k) ==> canon_obj(ow2)[k] == canon_obj(
                    ob,
                )[k]));
            }
            assert(canon_obj(ow2).dom() =~= canon_obj(ob).dom());
            assert forall|k: Seq<char>| canon_obj(ow2).dom().contains(k) implies canon_obj(
                ow2,
            )[k] == canon_obj(ob)[k] by {
                assert(canon_obj(ow2).contains_key(k));
            }
            assert(canon_obj(ow2) =~= canon_obj(ob));
        }
    } else {
        let cs = spec_diff(a, b);
        assert(cs =~= seq![(Seq::<Seq<char>>::empty(), old_of(a), b)]);
        assert(cs[0].0.len() == 0);
        assert(crate::patch::spec_set(a, cs[0].0, cs[0].2) == Some(b));
        assert(cs.drop_first() =~= Seq::<SpecChange>::empty());
        assert(replay(a, cs) == replay(b, cs.drop_first()));
    }
}


/// Whether `p` starts with `q`.
pub open spec fn starts_with(p: Seq<char>, q: Seq<char>) -> bool {
    p.len() >= q.len() && p.subrange(0, q.len() as int) == q
}

/// A rendered path starts with its first segment, and only a one-segment
/// path renders to the segment itself.
pub proof fn lemma_render_prefix(p: Seq<Seq<char>>)
    requires
        p.len() >= 1,
    ensures
        starts_with(render_path(p), p[0]),
        p.len() >= 2 && p[0].len() >= 1 ==> render_path(p).len() > p[0].len(),
        p.len() == 1 ==> render_path(p) == p[0],
    decreases p.len(),
{
    if p.len() == 1 {
        assert(p.drop_last() =~= Seq::<Seq<char>>::empty());
        assert(render_path(p) == dot_extend(Seq::empty(), p.last()));
        assert(render_path(p).subrange(0, p[0].len() as int) =~= p[0]);
    } else {
        lemma_render_prefix(p.drop_last());
        assert(p.drop_last()[0] == p[0]);
        let q = render_path(p.drop_last());
        assert(starts_with(q, p[0]));
        let r = render_path(p);
        if q.len() == 0 {
            assert(p[0].len() == 0);
            assert(r == p.last());
            assert(r.subrange(0, 0) =~= p[0]);
        } else {
            assert(r == q + seq!['.'] + p.last());
            assert(r.subrange(0, p[0].len() as int) =~= q.subrange(0, p[0].len() as int));
        }
    }
}


/// A key usable in the dotted text form of a path: nonempty and free of
/// dots.
pub open spec fn clean_key(k: Seq<char>) -> bool {
    k.len() >= 1 && forall|i: int| 0 <= i < k.len() ==> k[i] != '.'
}

/// Whether every object key along the document's object spine is usable in
/// a dotted path. Values inside arrays never contribute path segments, so
/// arrays need nothing.
pub open spec fn clean_keys(v: SpecValue) -> bool
    decreases v,
{
    match v {
        SpecValue::Object(o) => (forall|i: int|
            0 <= i < o.len() ==> clean_key((#[trigger] o[i]).0)) && clean_entries(o),
        _ => true,
    }
}

pub open spec fn clean_entries(o: Seq<(Seq<char>, SpecValue)>) -> bool
    decreases o,
{
    o.len() == 0 || (clean_keys(o[0].1) && clean_entries(o.drop_first()))
}

/// A path whose segments are all usable keys.
pub open spec fn clean_path(p: Seq<Seq<char>>) -> bool {
    forall|i: int| 0 <= i < p.len() ==> clean_key(#[trigger] p[i])
}

/// A clean path renders as its dot-join.
pub proof fn lemma_render_join(p: Seq<Seq<char>>)
    requires
        p.len() >= 1,
        clean_path(p),
    ensures
        render_path(p) == crate::text::join_with(p, '.'),
    decreases p.len(),
{
    if p.len() == 1 {
        lemma_render_prefix(p);
    } else {
        assert(forall|i: int| 0 <= i < p.drop_last().len() ==> p.drop_last()[i] == p[i]);
        lemma_render_join(p.drop_last());
        crate::text::lemma_join_first_len(p.drop_last(), '.');
        assert(crate::text::join_with(p.drop_last(), '.').len() >= 1);
        crate::text::lemma_join_push(p.drop_last(), p.last(), '.');
        assert(p.drop_last().push(p.last()) =~= p);
    }
}

/// Splitting the dotted rendering of a clean path restores its segments.
pub proof fn lemma_path_roundtrip(p: Seq<Seq<char>>)
    requires
        clean_path(p),
    ensures
        crate::patch::path_segments(render_path(p)) == p,
{
    if p.len() == 0 {
        assert(render_path(p).len() == 0);
        assert(crate::patch::path_segments(render_path(p)) =~= p);
    } else {
        lemma_render_join(p);
        crate::text::lemma_join_first_len(p, '.');
        assert(render_path(p).len() >= p[0].len() >= 1);
        assert(forall|i: int, j: int|
            0 <= i < p.len() && 0 <= j < p[i].len() ==> #[trigger] p[i][j] != '.');
        crate::text::lemma_split_join(p, '.');
    }
}

/// Every path the differ emits is clean when both documents have clean
/// keys.
pub proof fn lemma_diff_paths_clean(a: SpecValue, b: SpecValue)
    requires
        clean_keys(a),
        clean_keys(b),
    ensures
        forall|t: int|
            0 <= t < spec_diff(a, b).len() ==> clean_path((#[trigger] spec_diff(a, b)[t]).0),
    decreases b,
{
    let cs = spec_diff(a, b);
    if a == b {
        assert(cs =~= Seq::<SpecChange>::empty());
    } else if a is Object && b is Object {
        lemma_adds_paths_clean(a->Object_0, b->Object_0);
        lemma_removes_paths_clean(a->Object_0, b->Object_0);
        let adds = diff_adds(a->Object_0, b->Object_0);
        let removes = diff_removes(a->Object_0, b->Object_0);
        assert forall|t: int| 0 <= t < cs.len() implies clean_path((#[trigger] cs[t]).0) by {
            if t < adds.len() {
                assert(cs[t] == adds[t]);
            } else {
                assert(cs[t] == removes[t - adds.len()]);
            }
        }
    } else {
        assert(cs =~= seq![(Seq::<Seq<char>>::empty(), old_of(a), b)]);
        assert(clean_path(cs[0].0));
    }
}

proof fn lemma_adds_paths_clean(oa: Seq<(Seq<char>, SpecValue)>, obs: Seq<(Seq<char>, SpecValue)>)
    requires
        clean_keys(SpecValue::Object(oa)),
        forall|i: int| 0 <= i < obs.len() ==> clean_key((#[trigger] obs[i]).0),
        clean_entries(obs),
    ensures
        forall|t: int|
            0 <= t < diff_adds(oa, obs).len() ==> clean_path(
                (#[trigger] diff_adds(oa, obs)[t]).0,
            ),
    decreases obs,
{
    let cs = diff_adds(oa, obs);
    if obs.len() == 0 {
        assert(cs =~= Seq::<SpecChange>::empty());
    } else {
        let k = obs[0].0;
        let v = obs[0].1;
        let rest = obs.drop_first();
        assert(forall|i: int| 0 <= i < rest.len() ==> rest[i] == obs[i + 1]);
        assert(clean_entries(rest) && clean_keys(v));
        lemma_adds_paths_clean(oa, rest);
        let head = if obj_has(oa, k) {
            prefix_all(k, spec_diff(obj_get(oa, k), v))
        } else {
            seq![(seq![k], None::<SpecValue>, v)]
        };
        assert(cs == head + diff_adds(oa, rest));
        assert forall|t: int| 0 <= t < head.len() implies clean_path((#[trigger] head[t]).0) by {
            if obj_has(oa, k) {
                assert(clean_keys(obj_get(oa, k))) by {
                    lemma_clean_obj_get(oa, k);
                }
                lemma_diff_paths_clean(obj_get(oa, k), v);
                let inner = spec_diff(obj_get(oa, k), v);
                assert(head[t] == (seq![k] + inner[t].0, inner[t].1, inner[t].2));
                assert(clean_path(inner[t].0));
                assert forall|i: int| 0 <= i < head[t].0.len() implies clean_key(
                    #[trigger] head[t].0[i],
                ) by {
                    if i == 0 {
                        assert(head[t].0[0] == k);
                    } else {
                        assert(head[t].0[i] == inner[t].0[i - 1]);
                    }
                }
            } else {
                assert(head[t].0 =~= seq![k]);
            }
        }
    }
}

proof fn lemma_removes_paths_clean(
    oa: Seq<(Seq<char>, SpecValue)>,
    no: Seq<(Seq<char>, SpecValue)>,
)
    requires
        forall|i: int| 0 <= i < oa.len() ==> clean_key((#[trigger] oa[i]).0),
    ensures
        forall|t: int|
            0 <= t < diff_removes(oa, no).len() ==> clean_path(
                (#[trigger] diff_removes(oa, no)[t]).0,
            ),
    decreases oa.len(),
{
    let cs = diff_removes(oa, no);
    if oa.len() == 0 {
        assert(cs =~= Seq::<SpecChange>::empty());
    } else {
        assert(forall|i: int| 0 <= i < oa.drop_first().len() ==> oa.drop_first()[i] == oa[i + 1]);
        lemma_removes_paths_clean(oa.drop_first(), no);
        let head = if obj_has(no, oa[0].0) {
            Seq::<SpecChange>::empty()
        } else {
            seq![(seq![oa[0].0], Some(oa[0].1), SpecValue::Null)]
        };
        assert(cs == head + diff_removes(oa.drop_first(), no));
        assert forall|t: int| 0 <= t < head.len() implies clean_path((#[trigger] head[t]).0) by {
            assert(head[t].0 =~= seq![oa[0].0]);
        }
    }
}

/// A present key of a clean object holds a clean value.
proof fn lemma_clean_obj_get(o: Seq<(Seq<char>, SpecValue)>, k: Seq<char>)
    requires
        clean_entries(o),
        obj_has(o, k),
    ensures
        clean_keys(obj_get(o, k)),
    decreases o.len(),
{
    if o[0].0 == k {
    } else {
        lemma_clean_obj_get(o.drop_first(), k);
    }
}

/// The document after applying a list of changes through the dotted text
/// form, the way emitted paths travel as set operations.
pub open spec fn replay_as_ops(v: SpecValue, cs: Seq<SpecChange>) -> Option<SpecValue>
    decreases cs.len(),
{
    if cs.len() == 0 {
        Some(v)
    } else {
        match crate::patch::spec_set(
            v,
            crate::patch::path_segments(render_path(cs[0].0)),
            cs[0].2,
        ) {
            Some(v2) => replay_as_ops(v2, cs.drop_first()),
            None => None,
        }
    }
}

proof fn lemma_replay_as_ops_same(v: SpecValue, cs: Seq<SpecChange>)
    requires
        forall|t: int| 0 <= t < cs.len() ==> clean_path((#[trigger] cs[t]).0),
    ensures
        replay_as_ops(v, cs) == replay(v, cs),
    decreases cs.len(),
{
    if cs.len() > 0 {
        lemma_path_roundtrip(cs[0].0);
        assert(forall|t: int| 0 <= t < cs.drop_first().len() ==> cs.drop_first()[t] == cs[t + 1]);
        match crate::patch::spec_set(v, cs[0].0, cs[0].2) {
            Some(v2) => {
                lemma_replay_as_ops_same(v2, cs.drop_first());
            },
            None => {},
        }
    }
}

/// The round trip in the shared path grammar: for documents whose object
/// keys are nonempty and dot-free, applying the differ's output as dotted
/// set operations onto the old document always succeeds and reproduces the
/// new one in canonical form.
pub proof fn lemma_diff_replay_as_ops(a: SpecValue, b: SpecValue)
    requires
        crate::value::wf(a),
        crate::value::wf(b),
        clean_keys(a),
        clean_keys(b),
    ensures
        replay_as_ops(a, spec_diff(a, b)) matches Some(r) && canon(r) == canon(b),
{
    lemma_diff_paths_clean(a, b);
    lemma_replay_as_ops_same(a, spec_diff(a, b));
    lemma_diff_replay(a, b);
}


/// A document with its object spines read as maps: the view under which the
/// differ skips equal subtrees. Object entry order is disregarded along
/// object spines; everything else — arrays included — is compared exactly,
/// because the differ treats arrays as opaque leaves.
#[verifier::ext_equal]
pub enum UnorderedValue {
    Exact(SpecValue),
    Object(Map<Seq<char>, UnorderedValue>),
}

/// The order-insensitive reading of a document.
pub open spec fn unordered(v: SpecValue) -> UnorderedValue
    decreases v,
{
    match v {
        SpecValue::Object(o) => UnorderedValue::Object(unordered_obj(o)),
        _ => UnorderedValue::Exact(v),
    }
}

pub open spec fn unordered_obj(o: Seq<(Seq<char>, SpecValue)>) -> Map<Seq<char>, UnorderedValue>
    decreases o,
{
    if o.len() == 0 {
        Map::empty()
    } else {
        unordered_obj(o.drop_first()).insert(o[0].0, unordered(o[0].1))
    }
}

/// What the order-insensitive object map holds at one key: the first
/// entry's value, for every present key.
pub proof fn lemma_unordered_obj_at(o: Seq<(Seq<char>, SpecValue)>, k: Seq<char>)
    ensures
        unordered_obj(o).contains_key(k) == obj_has(o, k),
        obj_has(o, k) ==> unordered_obj(o)[k] == unordered(obj_get(o, k)),
    decreases o.len(),
{
    if o.len() > 0 {
        lemma_unordered_obj_at(o.drop_first(), k);
    }
}

/// The value the first entry of a key carries is what `obj_get` reads, when
/// keys are unique.
proof fn lemma_obj_get_entry(o: Seq<(Seq<char>, SpecValue)>, i: int)
    requires
        crate::value::keys_unique(o),
        0 <= i < o.len(),
    ensures
        obj_has(o, o[i].0),
        obj_get(o, o[i].0) == o[i].1,
{
    crate::value::lemma_obj_first_index(o, o[i].0, i);
}

/// The additions for `obs` are empty exactly when every key of `obs` is
/// present on the old side with an equivalent value.
proof fn lemma_adds_empty_iff(oa: Seq<(Seq<char>, SpecValue)>, obs: Seq<(Seq<char>, SpecValue)>)
    requires
        crate::value::keys_unique(oa),
        crate::value::wf_entries(oa),
        crate::value::wf_entries(obs),
    ensures
        (diff_adds(oa, obs).len() == 0) <==> (forall|i: int|
            0 <= i < obs.len() ==> obj_has(oa, (#[trigger] obs[i]).0) && unordered(
                obj_get(oa, obs[i].0),
            ) == unordered(obs[i].1)),
    decreases obs,
{
    if obs.len() == 0 {
        assert(diff_adds(oa, obs) =~= Seq::<SpecChange>::empty());
    } else {
        let k = obs[0].0;
        let v = obs[0].1;
        let rest = obs.drop_first();
        assert(forall|i: int| 0 <= i < rest.len() ==> rest[i] == obs[i + 1]);
        assert(crate::value::wf_entries(rest) && crate::value::wf(v));
        lemma_adds_empty_iff(oa, rest);
        let head = if obj_has(oa, k) {
            prefix_all(k, spec_diff(obj_get(oa, k), v))
        } else {
            seq![(seq![k], None::<SpecValue>, v)]
        };
        assert(diff_adds(oa, obs) == head + diff_adds(oa, rest));
        if obj_has(oa, k) {
            crate::value::lemma_obj_get_wf(oa, k);
            lemma_diff_empty_iff_unordered(obj_get(oa, k), v);
            assert(head.len() == spec_diff(obj_get(oa, k), v).len());
        }
        if diff_adds(oa, obs).len() == 0 {
            assert(head.len() == 0 && diff_adds(oa, rest).len() == 0);
            assert(obj_has(oa, k) && unordered(obj_get(oa, k)) == unordered(v));
            assert forall|i: int| 0 <= i < obs.len() implies obj_has(oa, (#[trigger] obs[i]).0)
                && unordered(obj_get(oa, obs[i].0)) == unordered(obs[i].1) by {
                if i > 0 {
                    assert(obs[i] == rest[i - 1]);
                }
            }
        }
        if forall|i: int|
            0 <= i < obs.len() ==> obj_has(oa, (#[trigger] obs[i]).0) && unordered(
                obj_get(oa, obs[i].0),
            ) == unordered(obs[i].1) {
            assert(obj_has(oa, obs[0].0) && unordered(obj_get(oa, k)) == unordered(v));
            assert(head.len() == 0);
            assert(forall|i: int|
                0 <= i < rest.len() ==> obj_has(oa, (#[trigger] rest[i]).0) && unordered(
                    obj_get(oa, rest[i].0),
                ) == unordered(rest[i].1));
            assert(diff_adds(oa, rest).len() == 0);
        }
    }
}

/// The removals are empty exactly when every key of the old side survives
/// on the new side.
proof fn lemma_removes_empty_iff(
    oa: Seq<(Seq<char>, SpecValue)>,
    no: Seq<(Seq<char>, SpecValue)>,
)
    ensures
        (diff_removes(oa, no).len() == 0) <==> (forall|i: int|
            0 <= i < oa.len() ==> obj_has(no, (#[trigger] oa[i]).0)),
    decreases oa.len(),
{
    if oa.len() == 0 {
        assert(diff_removes(oa, no) =~= Seq::<SpecChange>::empty());
    } else {
        assert(forall|i: int| 0 <= i < oa.drop_first().len() ==> oa.drop_first()[i] == oa[i + 1]);
        lemma_removes_empty_iff(oa.drop_first(), no);
        let head = if obj_has(no, oa[0].0) {
            Seq::<SpecChange>::empty()
        } else {
            seq![(seq![oa[0].0], Some(oa[0].1), SpecValue::Null)]
        };
        assert(diff_removes(oa, no) == head + diff_removes(oa.drop_first(), no));
        if diff_removes(oa, no).len() == 0 {
            assert forall|i: int| 0 <= i < oa.len() implies obj_has(
                no,
                (#[trigger] oa[i]).0,
            ) by {
                if i > 0 {
                    assert(oa[i] == oa.drop_first()[i - 1]);
                }
            }
        }
    }
}

/// The differ emits nothing exactly when the two documents are the same up
/// to object entry order: equal subtrees are skipped entirely, and any
/// difference — a changed leaf, a new key, a lost key — surfaces at least
/// one change.
pub proof fn lemma_diff_empty_iff_unordered(a: SpecValue, b: SpecValue)
    requires
        crate::value::wf(a),
        crate::value::wf(b),
    ensures
        (spec_diff(a, b).len() == 0) <==> (unordered(a) == unordered(b)),
    decreases b,
{
    let cs = spec_diff(a, b);
    if a == b {
        assert(cs =~= Seq::<SpecChange>::empty());
    } else if a is Object && b is Object {
        let oa = a->Object_0;
        let ob = b->Object_0;
        assert(crate::value::keys_unique(oa) && crate::value::wf_entries(oa));
        assert(crate::value::keys_unique(ob) && crate::value::wf_entries(ob));
        lemma_adds_empty_iff(oa, ob);
        lemma_removes_empty_iff(oa, ob);
        assert(cs == diff_adds(oa, ob) + diff_removes(oa, ob));
        if cs.len() == 0 {
            assert(diff_adds(oa, ob).len() == 0 && diff_removes(oa, ob).len() == 0);
            assert forall|k: Seq<char>| #![trigger unordered_obj(oa).contains_key(k)]
                unordered_obj(oa).contains_key(k) == unordered_obj(ob).contains_key(k)
                && (unordered_obj(oa).contains_key(k) ==> unordered_obj(oa)[k] == unordered_obj(
                ob,
            )[k]) by {
                lemma_unordered_obj_at(oa, k);
                lemma_unordered_obj_at(ob, k);
                crate::value::lemma_obj_index(oa, k);
                crate::value::lemma_obj_index(ob, k);
                if obj_has(ob, k) {
                    let i = choose|i: int| 0 <= i < ob.len() && ob[i].0 == k;
                    lemma_obj_get_entry(ob, i);
                    assert(obj_has(oa, k) && unordered(obj_get(oa, k)) == unordered(ob[i].1));
                } else {
                    if obj_has(oa, k) {
                        let i = choose|i: int| 0 <= i < oa.len() && oa[i].0 == k;
                        assert(obj_has(ob, oa[i].0));
                    }
                }
            }
            assert forall|k: Seq<char>|
                unordered_obj(oa).dom().contains(k) == unordered_obj(ob).dom().contains(k) by {
                assert(unordered_obj(oa).contains_key(k) == unordered_obj(ob).contains_key(k));
            }
            assert(unordered_obj(oa).dom() =~= unordered_obj(ob).dom());
            assert forall|k: Seq<char>| unordered_obj(oa).dom().contains(k) implies unordered_obj(
                oa,
            )[k] == unordered_obj(ob)[k] by {
                assert(unordered_obj(oa).contains_key(k));
            }
            assert(unordered_obj(oa) =~= unordered_obj(ob));
        }
        if unordered(a) == unordered(b) {
            assert(unordered_obj(oa) == unordered_obj(ob));
            assert forall|i: int| 0 <= i < ob.len() implies obj_has(oa, (#[trigger] ob[i]).0)
                && unordered(obj_get(oa, ob[i].0)) == unordered(ob[i].1) by {
                let k = ob[i].0;
                lemma_obj_get_entry(ob, i);
                lemma_unordered_obj_at(oa, k);
                lemma_unordered_obj_at(ob, k);
                assert(unordered_obj(ob).contains_key(k));
                assert(unordered_obj(oa).contains_key(k));
            }
            assert forall|i: int| 0 <= i < oa.len() implies obj_has(
                ob,
                (#[trigger] oa[i]).0,
            ) by {
                let k = oa[i].0;
                lemma_obj_get_entry(oa, i);
                lemma_unordered_obj_at(oa, k);
                lemma_unordered_obj_at(ob, k);
                assert(unordered_obj(oa).contains_key(k));
                assert(unordered_obj(ob).contains_key(k));
            }
            assert(diff_adds(oa, ob).len() == 0);
            assert(diff_removes(oa, ob).len() == 0);
        }
    } else {
        assert(cs =~= seq![(Seq::<Seq<char>>::empty(), old_of(a), b)]);
        assert(cs.len() == 1);
        if unordered(a) == unordered(b) {
            if a is Object || b is Object {
            } else {
                assert(unordered(a) == UnorderedValue::Exact(a));
                assert(unordered(b) == UnorderedValue::Exact(b));
            }
        }
    }
}

} // verus!
