//! The patch engine: discrete path/value set operations and RFC 7396 merge
//! patches, both over in-memory documents.
//!
//! A path is a dot-separated list of object keys. Setting a path creates the
//! intermediate objects it names; it fails only where an existing non-object
//! value stands in the way.

use vstd::prelude::*;
use crate::error::CoreError;
use crate::text::find_char;
use crate::text::lemma_find_char;
use crate::text::lemma_find_char_at;
use crate::text::lemma_find_char_none;
use crate::text::split_chars;
use crate::text::split_on;
use crate::text::str_chars;
use crate::text::chars_string;
use crate::text::sub_vec;
use crate::text::trim;
use crate::text::trim_chars;
use crate::json::json_parse;
use crate::json::parse_json;
use crate::value::SpecValue;
use crate::value::DocValue;
use crate::value::lemma_obj_entries_view;
use crate::value::lemma_obj_first_index;
use crate::value::lemma_obj_index;
use crate::value::lemma_obj_put_update;
use crate::value::obj_entries_view;
use crate::value::obj_get;
use crate::value::obj_has;
use crate::value::obj_put;
use crate::value::obj_remove;
use crate::value::keys_unique;
use crate::value::wf;
use crate::value::wf_entries;
use crate::value::value_clone;
use crate::value::value_view;

verus! {

/// The views of a list of strings.
pub open spec fn strs_view(v: Seq<String>) -> Seq<Seq<char>> {
    v.map_values(|s: String| s@)
}

/// The key segments a path string names: none for the empty path (the
/// document root), otherwise the pieces between dots.
pub open spec fn path_segments(s: Seq<char>) -> Seq<Seq<char>> {
    if s.len() == 0 {
        Seq::empty()
    } else {
        split_on(s, '.')
    }
}

/// The document after binding the location named by `path` to `x`, creating
/// intermediate objects along the way; `None` when an existing non-object
/// value stands on the path.
pub open spec fn spec_set(v: SpecValue, path: Seq<Seq<char>>, x: SpecValue) -> Option<SpecValue>
    decreases path.len(),
{
    if path.len() == 0 {
        Some(x)
    } else {
        match v {
            SpecValue::Object(o) => {
                if path.len() == 1 {
                    Some(SpecValue::Object(obj_put(o, path[0], x)))
                } else {
                    let child = if obj_has(o, path[0]) {
                        obj_get(o, path[0])
                    } else {
                        SpecValue::Object(Seq::empty())
                    };
                    match spec_set(child, path.drop_first(), x) {
                        Some(c2) => Some(SpecValue::Object(obj_put(o, path[0], c2))),
                        None => None,
                    }
                }
            },
            _ => None,
        }
    }
}

/// The value previously at the location named by `path`, with null and
/// absent both reading as `None`; meaningful where `spec_set` succeeds.
pub open spec fn spec_old_at(v: SpecValue, path: Seq<Seq<char>>) -> Option<SpecValue>
    decreases path.len(),
{
    if path.len() == 0 {
        if v is Null {
            None
        } else {
            Some(v)
        }
    } else {
        match v {
            SpecValue::Object(o) => {
                if path.len() == 1 {
                    if obj_has(o, path[0]) && !(obj_get(o, path[0]) is Null) {
                        Some(obj_get(o, path[0]))
                    } else {
                        None
                    }
                } else {
                    if obj_has(o, path[0]) {
                        spec_old_at(obj_get(o, path[0]), path.drop_first())
                    } else {
                        spec_old_at(SpecValue::Object(Seq::empty()), path.drop_first())
                    }
                }
            },
            _ => None,
        }
    }
}

/// A single `path = value` assignment.
pub struct SetOperation {
    /// Dot-separated path, such as `state` or `fields.priority`.
    pub path: String,
    /// The value to bind there.
    pub value: DocValue,
}

impl SetOperation {
    /// Pair a path with a value.
    pub fn new(path: String, value: DocValue) -> (r: Self)
        ensures
            r.path == path,
            r.value == value,
    {
        SetOperation { path, value }
    }
}

/// Translate a dot-separated field path into JSON-pointer form: the empty
/// path stays empty, otherwise each dot becomes a slash behind a leading
/// slash.
pub open spec fn pointer_of(p: Seq<char>) -> Seq<char> {
    if p.len() == 0 {
        Seq::empty()
    } else {
        seq!['/'] + p.map_values(|c: char| if c == '.' {
            '/'
        } else {
            c
        })
    }
}

/// Translate a dot-separated field path into JSON-pointer form.
pub fn resolve_path(path: &str) -> (r: String)
    ensures
        r@ == pointer_of(path@),
{
    let cs = str_chars(path);
    let n = cs.len();
    if n == 0 {
        let empty = String::new();
        return empty;
    }
    let mut out: Vec<char> = Vec::new();
    out.push('/');
    let mut i: usize = 0;
    while i < n
        invariant
            0 <= i <= n,
            n == cs@.len(),
            cs@ == path@,
            out@.len() == i + 1,
            out@[0] == '/',
            forall|j: int|
                0 <= j < i ==> out@[j + 1] == (if path@[j] == '.' {
                    '/'
                } else {
                    path@[j]
                }),
        decreases n - i,
    {
        let c = cs[i];
        if c == '.' {
            out.push('/');
        } else {
            out.push(c);
        }
        i = i + 1;
    }
    proof {
        let m = path@.map_values(|c: char| if c == '.' {
            '/'
        } else {
            c
        });
        assert(out@ =~= seq!['/'] + m);
    }
    chars_string(&out)
}

/// Append clones of the entries in positions `from .. to`.
fn push_clones(
    out: &mut Vec<(String, DocValue)>,
    entries: &Vec<(String, DocValue)>,
    from: usize,
    to: usize,
)
    requires
        from <= to <= entries@.len(),
    ensures
        final(out)@.len() == old(out)@.len() + (to - from),
        obj_entries_view(final(out)@) =~= obj_entries_view(old(out)@) + obj_entries_view(
            entries@.subrange(from as int, to as int),
        ),
{
    let mut t: usize = from;
    proof {
        assert(entries@.subrange(from as int, from as int)
            =~= Seq::<(String, DocValue)>::empty());
        assert(obj_entries_view(entries@.subrange(from as int, from as int))
            =~= Seq::<(Seq<char>, SpecValue)>::empty());
    }
    while t < to
        invariant
            from <= t <= to <= entries@.len(),
            out@.len() == old(out)@.len() + (t - from),
            obj_entries_view(out@) =~= obj_entries_view(old(out)@) + obj_entries_view(
                entries@.subrange(from as int, t as int),
            ),
        decreases to - t,
    {
        let k = entries[t].0.clone();
        let c = value_clone(&entries[t].1);
        let ghost before = out@;
        out.push((k, c));
        proof {
            assert(out@ =~= before + seq![(k, c)]);
            crate::value::lemma_obj_entries_view_concat(before, seq![(k, c)]);
            assert(obj_entries_view(seq![(k, c)]) =~= seq![(k@, value_view(c))]) by {
                crate::value::lemma_obj_entries_view(seq![(k, c)]);
            }
            assert(entries@.subrange(from as int, t + 1) =~= entries@.subrange(from as int, t as int)
                + seq![entries@[t as int]]);
            crate::value::lemma_obj_entries_view_concat(
                entries@.subrange(from as int, t as int),
                seq![entries@[t as int]],
            );
            assert(obj_entries_view(seq![entries@[t as int]]) =~= seq![
                (entries@[t as int].0@, value_view(entries@[t as int].1)),
            ]) by {
                crate::value::lemma_obj_entries_view(seq![entries@[t as int]]);
            }
        }
        t = t + 1;
    }
}

/// The index of the first entry whose key is `k`, if any.
pub(crate) fn obj_find(entries: &Vec<(String, DocValue)>, k: &String) -> (r: Option<usize>)
    ensures
        match r {
            Some(j) => j < entries@.len() && entries@[j as int].0@ == k@ && (forall|t: int|
                0 <= t < j ==> entries@[t].0@ != k@),
            None => forall|t: int| 0 <= t < entries@.len() ==> entries@[t].0@ != k@,
        },
{
    let n = entries.len();
    let mut j: usize = 0;
    while j < n
        invariant
            0 <= j <= n,
            n == entries@.len(),
            forall|t: int| 0 <= t < j ==> entries@[t].0@ != k@,
        decreases n - j,
    {
        if entries[j].0 == *k {
            return Some(j);
        }
        j = j + 1;
    }
    None
}

/// Rebuild an object's entry list with the entry at `j` replaced by `(k, x)`.
fn entries_with_replaced(
    entries: &Vec<(String, DocValue)>,
    j: usize,
    k: &String,
    x: DocValue,
) -> (out: Vec<(String, DocValue)>)
    requires
        j < entries@.len(),
    ensures
        obj_entries_view(out@) =~= obj_entries_view(entries@).update(j as int, (k@, x@)),
{
    let n = entries.len();
    let ghost xv = x@;
    let mut out: Vec<(String, DocValue)> = Vec::new();
    proof {
        assert(obj_entries_view(out@) =~= Seq::<(Seq<char>, SpecValue)>::empty());
    }
    push_clones(&mut out, entries, 0, j);
    let kc = k.clone();
    let ghost mid = out@;
    out.push((kc, x));
    proof {
        assert(out@ =~= mid + seq![(kc, x)]);
        crate::value::lemma_obj_entries_view_concat(mid, seq![(kc, x)]);
        assert(obj_entries_view(seq![(kc, x)]) =~= seq![(k@, xv)]) by {
            crate::value::lemma_obj_entries_view(seq![(kc, x)]);
        }
    }
    push_clones(&mut out, entries, j + 1, n);
    proof {
        let eo = obj_entries_view(entries@);
        lemma_obj_entries_view(entries@);
        let a = obj_entries_view(entries@.subrange(0, j as int));
        let c = obj_entries_view(entries@.subrange(j + 1, n as int));
        lemma_obj_entries_view(entries@.subrange(0, j as int));
        lemma_obj_entries_view(entries@.subrange(j + 1, n as int));
        assert(obj_entries_view(out@).len() == n);
        assert forall|u: int| 0 <= u < n implies obj_entries_view(out@)[u] == eo.update(
            j as int,
            (k@, xv),
        )[u] by {
            assert(obj_entries_view(out@) =~= a + seq![(k@, xv)] + c);
            if u < j {
                assert(entries@.subrange(0, j as int)[u] == entries@[u]);
                assert((a + seq![(k@, xv)] + c)[u] == a[u]);
            } else if u == j {
            } else {
                assert(entries@.subrange(j + 1, n as int)[u - j - 1] == entries@[u]);
                assert((a + seq![(k@, xv)] + c)[u] == c[u - j - 1]);
            }
        }
        assert(obj_entries_view(out@) =~= eo.update(j as int, (k@, xv)));
    }
    out
}

/// Rebuild an object's entry list with `(k, x)` appended at the end.
fn entries_with_appended(entries: &Vec<(String, DocValue)>, k: &String, x: DocValue) -> (out: Vec<
    (String, DocValue),
>)
    ensures
        obj_entries_view(out@) =~= obj_entries_view(entries@) + seq![(k@, x@)],
{
    let n = entries.len();
    let ghost xv = x@;
    let mut out: Vec<(String, DocValue)> = Vec::new();
    proof {
        assert(obj_entries_view(out@) =~= Seq::<(Seq<char>, SpecValue)>::empty());
    }
    push_clones(&mut out, entries, 0, n);
    let kc = k.clone();
    let ghost mid = out@;
    out.push((kc, x));
    proof {
        assert(out@ =~= mid + seq![(kc, x)]);
        crate::value::lemma_obj_entries_view_concat(mid, seq![(kc, x)]);
        assert(obj_entries_view(seq![(kc, x)]) =~= seq![(k@, xv)]) by {
            crate::value::lemma_obj_entries_view(seq![(kc, x)]);
        }
        assert(entries@.subrange(0, n as int) =~= entries@);
    }
    out
}

/// Apply one segment-level assignment, rebuilding the spine of the document
/// and leaving the original untouched.
fn set_at(v: &DocValue, segs: &Vec<String>, i: usize, x: DocValue) -> (r: Result<
    (DocValue, Option<DocValue>),
    CoreError,
>)
    requires
        i < segs@.len(),
    ensures
        ({
            let p = strs_view(segs@).subrange(i as int, segs@.len() as int);
            match r {
                Ok(pair) => {
                    &&& spec_set(v@, p, x@) == Some(pair.0@)
                    &&& (match pair.1 {
                        Some(ov) => spec_old_at(v@, p) == Some(ov@),
                        None => spec_old_at(v@, p) is None,
                    })
                },
                Err(e) => spec_set(v@, p, x@) is None && e is InvalidPath,
            }
        }),
    decreases segs@.len() - i,
{
    let ghost p = strs_view(segs@).subrange(i as int, segs@.len() as int);
    proof {
        assert(p.len() == segs@.len() - i);
        assert(p[0] == segs@[i as int]@);
    }
    match v {
        DocValue::Object(entries) => {
            proof {
                lemma_obj_entries_view(entries@);
            }
            let ghost eo = obj_entries_view(entries@);
            let n = entries.len();
            let found = obj_find(entries, &segs[i]);
            let ghost key = segs@[i as int]@;
            let m = segs.len();
            if i + 1 == m {
                match found {
                    Some(j) => {
                        proof {
                            lemma_obj_first_index(eo, key, j as int);
                            lemma_obj_put_update(eo, key, x@, j as int);
                        }
                        let old_val = if entries[j].1.is_null() {
                            None
                        } else {
                            Some(value_clone(&entries[j].1))
                        };
                        let key_s = segs[i].clone();
                        let out = entries_with_replaced(entries, j, &key_s, x);
                        Ok((DocValue::Object(out), old_val))
                    },
                    None => {
                        proof {
                            lemma_obj_index(eo, key);
                            crate::value::lemma_obj_put_absent(eo, key, x@);
                        }
                        let key_s = segs[i].clone();
                        let out = entries_with_appended(entries, &key_s, x);
                        Ok((DocValue::Object(out), None))
                    },
                }
            } else {
                proof {
                    assert(p.drop_first() =~= strs_view(segs@).subrange(
                        i + 1,
                        segs@.len() as int,
                    ));
                }
                match found {
                    Some(j) => {
                        proof {
                            lemma_obj_first_index(eo, key, j as int);
                        }
                        match set_at(&entries[j].1, segs, i + 1, x) {
                            Ok(pair) => {
                                let (nv, ov) = pair;
                                proof {
                                    lemma_obj_put_update(eo, key, nv@, j as int);
                                }
                                let key_s = segs[i].clone();
                                let out = entries_with_replaced(entries, j, &key_s, nv);
                                Ok((DocValue::Object(out), ov))
                            },
                            Err(e) => Err(e),
                        }
                    },
                    None => {
                        proof {
                            lemma_obj_index(eo, key);
                        }
                        let fresh = DocValue::Object(Vec::new());
                        proof {
                            assert(obj_entries_view(Seq::<(String, DocValue)>::empty())
                                =~= Seq::<(Seq<char>, SpecValue)>::empty());
                            assert(fresh@ == SpecValue::Object(Seq::empty()));
                        }
                        match set_at(&fresh, segs, i + 1, x) {
                            Ok(pair) => {
                                let (nv, ov) = pair;
                                proof {
                                    crate::value::lemma_obj_put_absent(eo, key, nv@);
                                }
                                let key_s = segs[i].clone();
                                let out = entries_with_appended(entries, &key_s, nv);
                                Ok((DocValue::Object(out), ov))
                            },
                            Err(e) => Err(e),
                        }
                    },
                }
            }
        },
        _ => {
            let msg = String::from_str("cannot traverse into non-object");
            Err(CoreError::InvalidPath(msg))
        },
    }
}

/// Apply a set operation: bind the value at the operation's path, creating
/// intermediate objects, and hand back what stood there (`None` for null or
/// absent). On failure the document is unchanged.
pub fn apply_set_operation(root: &mut DocValue, op: &SetOperation) -> (r: Result<
    Option<DocValue>,
    CoreError,
>)
    ensures
        ({
            let p = path_segments(op.path@);
            match r {
                Ok(old_val) => {
                    &&& spec_set(old(root)@, p, op.value@) == Some(final(root)@)
                    &&& (match old_val {
                        Some(ov) => spec_old_at(old(root)@, p) == Some(ov@),
                        None => spec_old_at(old(root)@, p) is None,
                    })
                },
                Err(e) => {
                    &&& final(root)@ == old(root)@
                    &&& spec_set(old(root)@, p, op.value@) is None
                    &&& e is InvalidPath
                },
            }
        }),
{
    let cs = str_chars(op.path.as_str());
    if cs.len() == 0 {
        let old_val = if root.is_null() {
            None
        } else {
            Some(value_clone(root))
        };
        *root = value_clone(&op.value);
        proof {
            assert(path_segments(op.path@) =~= Seq::<Seq<char>>::empty());
        }
        return Ok(old_val);
    }
    let segs = split_chars(&cs, '.');
    proof {
        crate::text::lemma_split_nonempty(op.path@, '.');
        assert(strs_view(segs@) =~= split_on(op.path@, '.'));
        assert(strs_view(segs@).subrange(0, segs@.len() as int) =~= path_segments(op.path@));
    }
    match set_at(root, &segs, 0, value_clone(&op.value)) {
        Ok(pair) => {
            let (nv, ov) = pair;
            *root = nv;
            Ok(ov)
        },
        Err(e) => Err(e),
    }
}


impl SetOperation {
    /// Parse a `key=value` assignment: the text around the first `=` is
    /// trimmed of ASCII whitespace; the value text is taken as JSON when it
    /// parses as JSON, and as a literal string otherwise.
    pub fn parse(input: &str) -> (r: Result<SetOperation, CoreError>)
        ensures
            ({
                let eq = find_char(input@, '=');
                match r {
                    Ok(op) => {
                        &&& eq < input@.len()
                        &&& op.path@ == trim(input@.subrange(0, eq))
                        &&& ({
                            let vt = trim(input@.subrange(eq + 1, input@.len() as int));
                            match json_parse(vt) {
                                Some(jv) => op.value@ == jv,
                                None => op.value@ == SpecValue::Text(vt),
                            }
                        })
                    },
                    Err(e) => eq == input@.len() && e is InvalidPath,
                }
            }),
    {
        let cs = str_chars(input);
        let n = cs.len();
        let mut i: usize = 0;
        while i < n && cs[i] != '='
            invariant
                0 <= i <= n,
                n == cs@.len(),
                cs@ == input@,
                forall|j: int| 0 <= j < i ==> input@[j] != '=',
            decreases n - i,
        {
            i = i + 1;
        }
        if i == n {
            proof {
                lemma_find_char_none(input@, '=');
            }
            let msg = String::from_str("expected a 'key=value' assignment");
            return Err(CoreError::InvalidPath(msg));
        }
        proof {
            lemma_find_char_at(input@, '=', i as int);
        }
        let head = sub_vec(&cs, 0, i);
        let tail = sub_vec(&cs, i + 1, n);
        let head_t = trim_chars(&head);
        let tail_t = trim_chars(&tail);
        let path_s = chars_string(&head_t);
        let vtext = chars_string(&tail_t);
        let value = match parse_json(vtext.as_str()) {
            Some(v) => v,
            None => DocValue::Text(vtext),
        };
        Ok(SetOperation { path: path_s, value })
    }
}

/// The target after an RFC 7396 merge patch: a non-object patch replaces the
/// target wholesale; an object patch coerces the target to an object and
/// works through its entries, null values removing keys, object values
/// merging recursively, anything else replacing.
pub open spec fn spec_merge(t: SpecValue, p: SpecValue) -> SpecValue
    decreases p,
{
    match p {
        SpecValue::Object(po) => {
            let to = if t is Object {
                t->Object_0
            } else {
                Seq::empty()
            };
            SpecValue::Object(spec_merge_entries(to, po))
        },
        _ => p,
    }
}

/// One patch entry applied after another, left to right.
pub open spec fn spec_merge_entries(
    to: Seq<(Seq<char>, SpecValue)>,
    po: Seq<(Seq<char>, SpecValue)>,
) -> Seq<(Seq<char>, SpecValue)>
    decreases po,
{
    if po.len() == 0 {
        to
    } else {
        let k = po[0].0;
        let pv = po[0].1;
        let to1 = if pv is Null {
            obj_remove(to, k)
        } else if pv is Object {
            let child = if obj_has(to, k) {
                obj_get(to, k)
            } else {
                SpecValue::Object(Seq::empty())
            };
            obj_put(to, k, spec_merge(child, pv))
        } else {
            obj_put(to, k, pv)
        };
        spec_merge_entries(to1, po.drop_first())
    }
}

/// Rebind a key of an object's entry list.
pub(crate) fn set_key(o: &mut Vec<(String, DocValue)>, k: &String, x: DocValue)
    ensures
        obj_entries_view(final(o)@) =~= obj_put(obj_entries_view(old(o)@), k@, x@),
{
    proof {
        lemma_obj_entries_view(o@);
    }
    let found = obj_find(o, k);
    match found {
        Some(j) => {
            proof {
                lemma_obj_first_index(obj_entries_view(o@), k@, j as int);
                lemma_obj_put_update(obj_entries_view(o@), k@, x@, j as int);
            }
            let out = entries_with_replaced(o, j, k, x);
            *o = out;
        },
        None => {
            proof {
                lemma_obj_index(obj_entries_view(o@), k@);
                crate::value::lemma_obj_put_absent(obj_entries_view(o@), k@, x@);
            }
            let out = entries_with_appended(o, k, x);
            *o = out;
        },
    }
}

/// Drop every entry of an object's entry list that carries the key.
fn remove_key(o: &mut Vec<(String, DocValue)>, k: &String)
    ensures
        obj_entries_view(final(o)@) =~= obj_remove(obj_entries_view(old(o)@), k@),
{
    let n = o.len();
    let mut out: Vec<(String, DocValue)> = Vec::new();
    proof {
        assert(obj_entries_view(out@) =~= Seq::<(Seq<char>, SpecValue)>::empty());
        assert(o@.subrange(0, 0) =~= Seq::<(String, DocValue)>::empty());
        assert(obj_entries_view(o@.subrange(0, 0)) =~= Seq::<(Seq<char>, SpecValue)>::empty());
        assert(obj_remove(obj_entries_view(o@.subrange(0, 0)), k@)
            =~= Seq::<(Seq<char>, SpecValue)>::empty());
    }
    let mut t: usize = 0;
    while t < n
        invariant
            0 <= t <= n,
            n == o@.len(),
            o@ == old(o)@,
            obj_entries_view(out@) =~= obj_remove(obj_entries_view(o@.subrange(0, t as int)), k@),
        decreases n - t,
    {
        let ghost prefix = o@.subrange(0, t as int);
        let ghost e = o@[t as int];
        proof {
            assert(o@.subrange(0, t + 1) =~= prefix + seq![e]);
            crate::value::lemma_obj_entries_view_concat(prefix, seq![e]);
            assert(obj_entries_view(seq![e]) =~= seq![(e.0@, value_view(e.1))]) by {
                lemma_obj_entries_view(seq![e]);
            }
            crate::value::lemma_obj_remove_concat(
                obj_entries_view(prefix),
                seq![(e.0@, value_view(e.1))],
                k@,
            );
        }
        if o[t].0 == *k {
            proof {
                let sv = seq![(e.0@, value_view(e.1))];
                assert(sv.drop_first() =~= Seq::<(Seq<char>, SpecValue)>::empty());
                assert(obj_remove(sv.drop_first(), k@) =~= Seq::<(Seq<char>, SpecValue)>::empty());
                assert(sv[0].0 == k@);
                assert(obj_remove(sv, k@) =~= Seq::<(Seq<char>, SpecValue)>::empty());
            }
        } else {
            let kc = o[t].0.clone();
            let c = value_clone(&o[t].1);
            let ghost before = out@;
            out.push((kc, c));
            proof {
                assert(out@ =~= before + seq![(kc, c)]);
                crate::value::lemma_obj_entries_view_concat(before, seq![(kc, c)]);
                assert(obj_entries_view(seq![(kc, c)]) =~= seq![(e.0@, value_view(e.1))]) by {
                    lemma_obj_entries_view(seq![(kc, c)]);
                }
                let sv = seq![(e.0@, value_view(e.1))];
                assert(sv.drop_first() =~= Seq::<(Seq<char>, SpecValue)>::empty());
                assert(obj_remove(sv.drop_first(), k@) =~= Seq::<(Seq<char>, SpecValue)>::empty());
                assert(sv[0].0 != k@);
                assert(obj_remove(sv, k@) =~= seq![sv[0]] + obj_remove(sv.drop_first(), k@));
                assert(obj_remove(sv, k@) =~= sv);
            }
        }
        t = t + 1;
    }
    proof {
        assert(o@.subrange(0, n as int) =~= o@);
    }
    *o = out;
}

/// Merge a patch into a target document, returning the merged document.
fn merge_value(t: DocValue, p: &DocValue) -> (r: DocValue)
    ensures
        r@ == spec_merge(t@, p@),
    decreases *p,
{
    match p {
        DocValue::Object(po) => {
            proof {
                lemma_obj_entries_view(po@);
            }
            let ghost pov = obj_entries_view(po@);
            let ghost tv = t@;
            let mut cur: Vec<(String, DocValue)> = match t {
                DocValue::Object(entries) => entries,
                _ => Vec::new(),
            };
            let ghost to0 = obj_entries_view(cur@);
            proof {
                assert(to0 == (if tv is Object {
                    tv->Object_0
                } else {
                    Seq::<(Seq<char>, SpecValue)>::empty()
                }));
            }
            let n = po.len();
            proof {
                assert(pov.subrange(0, n as int) =~= pov);
            }
            let mut idx: usize = 0;
            while idx < n
                invariant
                    0 <= idx <= n,
                    n == po@.len(),
                    *p == DocValue::Object(*po),
                    pov == obj_entries_view(po@),
                    pov.len() == n,
                    forall|u: int| 0 <= u < n ==> pov[u] == (po@[u].0@, value_view(po@[u].1)),
                    spec_merge_entries(obj_entries_view(cur@), pov.subrange(idx as int, n as int))
                        == spec_merge_entries(to0, pov),
                decreases n - idx,
            {
                let ghost curv = obj_entries_view(cur@);
                let ghost rest = pov.subrange(idx as int, n as int);
                proof {
                    lemma_obj_entries_view(cur@);
                    assert(rest[0] == pov[idx as int]);
                    assert(rest.drop_first() =~= pov.subrange(idx + 1, n as int));
                }
                let key = &po[idx].0;
                let pv = &po[idx].1;
                if pv.is_null() {
                    remove_key(&mut cur, key);
                } else {
                    let is_obj = pv.is_object();
                    if is_obj {
                        let found = obj_find(&cur, key);
                        let child: DocValue = match found {
                            Some(j) => {
                                proof {
                                    lemma_obj_first_index(curv, key@, j as int);
                                }
                                value_clone(&cur[j].1)
                            },
                            None => {
                                proof {
                                    lemma_obj_index(curv, key@);
                                    assert(obj_entries_view(Seq::<(String, DocValue)>::empty())
                                        =~= Seq::<(Seq<char>, SpecValue)>::empty());
                                }
                                DocValue::Object(Vec::new())
                            },
                        };
                        proof {
                            assert(child@ == (if obj_has(curv, key@) {
                                obj_get(curv, key@)
                            } else {
                                SpecValue::Object(Seq::empty())
                            }));
                            assert(decreases_to!(*p => p->Object_0));
                            assert(decreases_to!(*po => po@));
                            assert(decreases_to!(po@ => po@[idx as int]));
                            assert(decreases_to!(po@[idx as int] => po@[idx as int].1));
                            assert(decreases_to!(*p => po@[idx as int].1));
                        }
                        let merged = merge_value(child, pv);
                        set_key(&mut cur, key, merged);
                    } else {
                        let c = value_clone(pv);
                        set_key(&mut cur, key, c);
                    }
                }
                idx = idx + 1;
            }
            proof {
                assert(pov.subrange(n as int, n as int) =~= Seq::<(Seq<char>, SpecValue)>::empty());
            }
            DocValue::Object(cur)
        },
        _ => value_clone(p),
    }
}

/// Apply an RFC 7396 merge patch to a document in place.
pub fn apply_merge_patch(target: &mut DocValue, patch: &DocValue)
    ensures
        final(target)@ == spec_merge(old(target)@, patch@),
{
    let mut tmp = DocValue::Null;
    core::mem::swap(target, &mut tmp);
    let merged = merge_value(tmp, patch);
    *target = merged;
}



/// Whether a set operation can resolve its path does not depend on the
/// value being bound.
pub proof fn lemma_set_same_domain(
    v: SpecValue,
    path: Seq<Seq<char>>,
    x1: SpecValue,
    x2: SpecValue,
)
    ensures
        spec_set(v, path, x1) is Some <==> spec_set(v, path, x2) is Some,
    decreases path.len(),
{
    if path.len() >= 2 && v is Object {
        let o = v->Object_0;
        let child = if obj_has(o, path[0]) {
            obj_get(o, path[0])
        } else {
            SpecValue::Object(Seq::empty())
        };
        lemma_set_same_domain(child, path.drop_first(), x1, x2);
    }
}

/// Resolving then assigning the same path twice keeps the second value only:
/// a second assignment at the same path lands on the same location, whatever
/// was bound first.
pub proof fn lemma_set_twice(v: SpecValue, path: Seq<Seq<char>>, x1: SpecValue, x2: SpecValue)
    requires
        spec_set(v, path, x1) is Some,
    ensures
        spec_set(spec_set(v, path, x1)->Some_0, path, x2) == spec_set(v, path, x2),
    decreases path.len(),
{
    let v1 = spec_set(v, path, x1)->Some_0;
    if path.len() == 0 {
    } else {
        let o = v->Object_0;
        let k = path[0];
        if path.len() == 1 {
            crate::value::lemma_obj_put_put(o, k, x1, x2);
        } else {
            let child = if obj_has(o, k) {
                obj_get(o, k)
            } else {
                SpecValue::Object(Seq::empty())
            };
            let c1 = spec_set(child, path.drop_first(), x1)->Some_0;
            assert(v1 == SpecValue::Object(obj_put(o, k, c1)));
            lemma_obj_put_at_all(o, k, c1);
            assert(obj_has(obj_put(o, k, c1), k));
            assert(obj_get(obj_put(o, k, c1), k) == c1);
            lemma_set_twice(child, path.drop_first(), x1, x2);
            lemma_set_same_domain(child, path.drop_first(), x1, x2);
            match spec_set(c1, path.drop_first(), x2) {
                Some(c2) => {
                    crate::value::lemma_obj_put_put(o, k, c1, c2);
                },
                None => {},
            }
        }
    }
}

/// `obj_put` read back at the bound key.
proof fn lemma_obj_put_at_all(o: Seq<(Seq<char>, SpecValue)>, k: Seq<char>, x: SpecValue) 
    ensures
        obj_has(obj_put(o, k, x), k),
        obj_get(obj_put(o, k, x), k) == x,
{
    crate::value::lemma_obj_put_at(o, k, x, k);
}

/// Setting a path whose first key is absent from an object always succeeds:
/// the missing intermediate objects are created on demand.
pub proof fn lemma_set_into_absent(v: SpecValue, path: Seq<Seq<char>>, x: SpecValue)
    requires
        v is Object,
        path.len() >= 1,
        !obj_has(v->Object_0, path[0]),
    ensures
        spec_set(v, path, x) is Some,
{
    if path.len() >= 2 {
        lemma_set_fresh(path.drop_first(), x);
    }
}

/// Setting any path into a fresh empty object succeeds.
proof fn lemma_set_fresh(path: Seq<Seq<char>>, x: SpecValue)
    ensures
        spec_set(SpecValue::Object(Seq::empty()), path, x) is Some,
    decreases path.len(),
{
    if path.len() >= 2 {
        assert(!obj_has(Seq::empty(), path[0]));
        lemma_set_fresh(path.drop_first(), x);
    }
}

/// A successful set keeps the document well-formed, provided the bound value
/// is well-formed.
pub proof fn lemma_set_wf(v: SpecValue, path: Seq<Seq<char>>, x: SpecValue)
    requires
        wf(v),
        wf(x),
        spec_set(v, path, x) is Some,
    ensures
        wf(spec_set(v, path, x)->Some_0),
    decreases path.len(),
{
    if path.len() == 0 {
    } else {
        let o = v->Object_0;
        let k = path[0];
        if path.len() == 1 {
            crate::value::lemma_obj_put(o, k, x);
            crate::value::lemma_obj_put_wf(o, k, x);
        } else {
            let child = if obj_has(o, k) {
                obj_get(o, k)
            } else {
                SpecValue::Object(Seq::empty())
            };
            assert(wf(child)) by {
                if obj_has(o, k) {
                    crate::value::lemma_obj_get_wf(o, k);
                } else {
                    assert(keys_unique(Seq::<(Seq<char>, SpecValue)>::empty()));
                    assert(wf_entries(Seq::<(Seq<char>, SpecValue)>::empty()));
                }
            }
            lemma_set_wf(child, path.drop_first(), x);
            let c2 = spec_set(child, path.drop_first(), x)->Some_0;
            crate::value::lemma_obj_put(o, k, c2);
            crate::value::lemma_obj_put_wf(o, k, c2);
        }
    }
}

/// Merging an empty patch object leaves an object target unchanged.
/// A target that is not an object is first coerced to an empty object, so
/// the law holds of object targets exactly.
pub proof fn lemma_merge_empty_patch(t: SpecValue)
    requires
        t is Object,
    ensures
        spec_merge(t, SpecValue::Object(Seq::empty())) == t,
{
}

/// A null value in the patch removes the key: after applying
/// `{k: null}` the key is gone, and every other key reads as before.
pub proof fn lemma_merge_null_removes(t: SpecValue, k: Seq<char>)
    requires
        t is Object,
        keys_unique(t->Object_0),
    ensures
        spec_merge(t, SpecValue::Object(seq![(k, SpecValue::Null)])) is Object,
        !obj_has(spec_merge(t, SpecValue::Object(seq![(k, SpecValue::Null)]))->Object_0, k),
        forall|k2: Seq<char>|
            k2 != k ==> #[trigger] obj_has(
                spec_merge(t, SpecValue::Object(seq![(k, SpecValue::Null)]))->Object_0,
                k2,
            ) == obj_has(t->Object_0, k2),
        forall|k2: Seq<char>|
            k2 != k ==> #[trigger] obj_get(
                spec_merge(t, SpecValue::Object(seq![(k, SpecValue::Null)]))->Object_0,
                k2,
            ) == obj_get(t->Object_0, k2),
{
    let po = seq![(k, SpecValue::Null)];
    let to = t->Object_0;
    assert(po.drop_first() =~= Seq::<(Seq<char>, SpecValue)>::empty());
    assert(spec_merge_entries(obj_remove(to, k), po.drop_first()) == obj_remove(to, k));
    crate::value::lemma_obj_remove(to, k);
}

/// A patch that is not an object replaces the target wholesale, a null patch
/// included.
pub proof fn lemma_merge_replaces(t: SpecValue, p: SpecValue)
    requires
        !(p is Object),
    ensures
        spec_merge(t, p) == p,
{
}

/// A merge keeps the document well-formed.
pub proof fn lemma_merge_wf(t: SpecValue, p: SpecValue)
    requires
        wf(t),
        wf(p),
    ensures
        wf(spec_merge(t, p)),
    decreases p,
{
    match p {
        SpecValue::Object(po) => {
            let to = if t is Object {
                t->Object_0
            } else {
                Seq::<(Seq<char>, SpecValue)>::empty()
            };
            assert(keys_unique(to) && wf_entries(to)) by {
                if !(t is Object) {
                    assert(keys_unique(Seq::<(Seq<char>, SpecValue)>::empty()));
                    assert(wf_entries(Seq::<(Seq<char>, SpecValue)>::empty()));
                }
            }
            lemma_merge_entries_wf(to, po);
        },
        _ => {},
    }
}

proof fn lemma_merge_entries_wf(
    to: Seq<(Seq<char>, SpecValue)>,
    po: Seq<(Seq<char>, SpecValue)>,
)
    requires
        keys_unique(to),
        wf_entries(to),
        wf_entries(po),
    ensures
        keys_unique(spec_merge_entries(to, po)),
        wf_entries(spec_merge_entries(to, po)),
    decreases po,
{
    if po.len() > 0 {
        let k = po[0].0;
        let pv = po[0].1;
        assert(wf(pv) && wf_entries(po.drop_first()));
        let to1 = if pv is Null {
            obj_remove(to, k)
        } else if pv is Object {
            let child = if obj_has(to, k) {
                obj_get(to, k)
            } else {
                SpecValue::Object(Seq::empty())
            };
            obj_put(to, k, spec_merge(child, pv))
        } else {
            obj_put(to, k, pv)
        };
        assert(keys_unique(to1) && wf_entries(to1)) by {
            if pv is Null {
                crate::value::lemma_obj_remove(to, k);
                crate::value::lemma_obj_remove_wf(to, k);
            } else if pv is Object {
                let child = if obj_has(to, k) {
                    obj_get(to, k)
                } else {
                    SpecValue::Object(Seq::empty())
                };
                assert(wf(child)) by {
                    if obj_has(to, k) {
                        crate::value::lemma_obj_get_wf(to, k);
                    } else {
                        assert(keys_unique(Seq::<(Seq<char>, SpecValue)>::empty()));
                        assert(wf_entries(Seq::<(Seq<char>, SpecValue)>::empty()));
                    }
                }
                lemma_merge_wf(child, pv);
                crate::value::lemma_obj_put(to, k, spec_merge(child, pv));
                crate::value::lemma_obj_put_wf(to, k, spec_merge(child, pv));
            } else {
                crate::value::lemma_obj_put(to, k, pv);
                crate::value::lemma_obj_put_wf(to, k, pv);
            }
        }
        lemma_merge_entries_wf(to1, po.drop_first());
    }
}



/// Resolving then assigning the same textual path twice keeps the second
/// value only, whatever the first assignment materialized along the way.
pub proof fn lemma_set_operation_twice(
    v: SpecValue,
    path: Seq<char>,
    x1: SpecValue,
    x2: SpecValue,
)
    requires
        spec_set(v, path_segments(path), x1) is Some,
    ensures
        spec_set(spec_set(v, path_segments(path), x1)->Some_0, path_segments(path), x2)
            == spec_set(v, path_segments(path), x2),
{
    lemma_set_twice(v, path_segments(path), x1, x2);
}

} // verus!
