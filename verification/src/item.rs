//! The work item: the current-state snapshot of one tracked unit of work,
//! and its document form used by the patch pipeline.

use vstd::prelude::*;
use crate::text::ci_eq;
use crate::value::DocValue;
use crate::value::SpecValue;
use crate::value::lemma_obj_entries_view;
use crate::value::obj_entries_view;
use crate::value::obj_get;
use crate::value::obj_has;
use crate::value::value_clone;
use crate::value::value_view;

verus! {

/// A work item: one task, bug or other trackable unit.
pub struct WorkItem {
    /// Stable identifier of the form `<backend>:<slug>`; never changes.
    pub uid: String,
    /// Human-readable title.
    pub title: String,
    /// Current state tag, an open string such as `TODO` or `IN_PROGRESS`.
    pub state: String,
    /// Single owner, if any.
    pub assignee: Option<String>,
    /// Labels with set semantics under case-insensitive comparison,
    /// insertion order kept for display.
    pub labels: Vec<String>,
    /// Creation time, milliseconds since the epoch, UTC.
    pub created_at: i64,
    /// Last mutation time; refreshed on every successful mutation.
    pub updated_at: i64,
    /// Open extension fields; keys unique.
    pub fields: Vec<(String, DocValue)>,
}

/// The mathematical model of a work item.
#[verifier::ext_equal]
pub struct ItemModel {
    pub uid: Seq<char>,
    pub title: Seq<char>,
    pub state: Seq<char>,
    pub assignee: Option<Seq<char>>,
    pub labels: Seq<Seq<char>>,
    pub created_at: int,
    pub updated_at: int,
    pub fields: Seq<(Seq<char>, SpecValue)>,
}

impl View for WorkItem {
    type V = ItemModel;

    open spec fn view(&self) -> ItemModel {
        ItemModel {
            uid: self.uid@,
            title: self.title@,
            state: self.state@,
            assignee: match self.assignee {
                Some(a) => Some(a@),
                None => None,
            },
            labels: self.labels@.map_values(|s: String| s@),
            created_at: self.created_at as int,
            updated_at: self.updated_at as int,
            fields: obj_entries_view(self.fields@),
        }
    }
}

/// Whether the model is internally consistent: the update stamp never
/// precedes creation, and the extension fields form a well-formed object.
pub open spec fn item_wf(m: ItemModel) -> bool {
    &&& m.updated_at >= m.created_at
    &&& crate::value::keys_unique(m.fields)
    &&& crate::value::wf_entries(m.fields)
}

/// Case-insensitive membership among the labels.
pub open spec fn has_label_ci(labels: Seq<Seq<char>>, l: Seq<char>) -> bool {
    exists|i: int| 0 <= i < labels.len() && ci_eq(#[trigger] labels[i], l)
}

impl WorkItem {
    /// A fresh item: state `TODO`, no assignee, no labels, no fields, both
    /// timestamps at `now`.
    pub fn new_at(uid: String, title: String, now: i64) -> (r: WorkItem)
        ensures
            r@ == (ItemModel {
                uid: uid@,
                title: title@,
                state: "TODO"@,
                assignee: None,
                labels: Seq::empty(),
                created_at: now as int,
                updated_at: now as int,
                fields: Seq::empty(),
            }),
    {
        let r = WorkItem {
            uid,
            title,
            state: String::from_str("TODO"),
            assignee: None,
            labels: Vec::new(),
            created_at: now,
            updated_at: now,
            fields: Vec::new(),
        };
        proof {
            assert(r@.labels =~= Seq::<Seq<char>>::empty());
            assert(r@.fields =~= Seq::<(Seq<char>, SpecValue)>::empty());
            assert(r@ =~= (ItemModel {
                uid: r.uid@,
                title: r.title@,
                state: "TODO"@,
                assignee: None,
                labels: Seq::empty(),
                created_at: now as int,
                updated_at: now as int,
                fields: Seq::empty(),
            }));
        }
        r
    }

    /// A fresh item stamped with the clock's current time.
    pub fn new(uid: String, title: String) -> (r: WorkItem)
        ensures
            r@.uid == uid@,
            r@.title == title@,
            r@.state == "TODO"@,
            r@.assignee is None,
            r@.labels == Seq::<Seq<char>>::empty(),
            r@.fields == Seq::<(Seq<char>, SpecValue)>::empty(),
            r@.updated_at == r@.created_at,
    {
        let now = crate::clock::now_millis();
        WorkItem::new_at(uid, title, now)
    }

    /// The item with another state.
    pub fn with_state(self, state: String) -> (r: WorkItem)
        ensures
            r@ == (ItemModel { state: state@, ..self@ }),
    {
        WorkItem { state, ..self }
    }

    /// The item with an assignee.
    pub fn with_assignee(self, assignee: String) -> (r: WorkItem)
        ensures
            r@ == (ItemModel { assignee: Some(assignee@), ..self@ }),
    {
        WorkItem { assignee: Some(assignee), ..self }
    }

    /// The item with these labels.
    pub fn with_labels(self, labels: Vec<String>) -> (r: WorkItem)
        ensures
            r@ == (ItemModel { labels: labels@.map_values(|s: String| s@), ..self@ }),
    {
        WorkItem { labels, ..self }
    }

    /// The item with one extension field bound.
    pub fn with_field(self, key: String, value: DocValue) -> (r: WorkItem)
        ensures
            r@ == (ItemModel {
                fields: crate::value::obj_put(self@.fields, key@, value@),
                ..self@
            }),
    {
        let mut s = self;
        crate::patch::set_key(&mut s.fields, &key, value);
        s
    }

    /// Refresh the update stamp to `now`, never letting it precede creation.
    pub fn touch_at(&mut self, now: i64)
        ensures
            final(self)@ == (ItemModel {
                updated_at: if now as int >= old(self)@.created_at {
                    now as int
                } else {
                    old(self)@.created_at
                },
                ..old(self)@
            }),
    {
        if now >= self.created_at {
            self.updated_at = now;
        } else {
            self.updated_at = self.created_at;
        }
    }

    /// Refresh the update stamp to the clock's current time.
    pub fn touch(&mut self)
        ensures
            final(self)@ == (ItemModel { updated_at: final(self)@.updated_at, ..old(self)@ }),
            final(self)@.updated_at >= old(self)@.created_at,
    {
        let now = crate::clock::now_millis();
        self.touch_at(now);
    }

    /// Whether the item carries the label, ignoring ASCII case.
    pub fn has_label(&self, label: &str) -> (r: bool)
        ensures
            r == has_label_ci(self@.labels, label@),
    {
        let n = self.labels.len();
        let mut i: usize = 0;
        while i < n
            invariant
                0 <= i <= n,
                n == self.labels@.len(),
                forall|j: int| 0 <= j < i ==> !ci_eq(#[trigger] self@.labels[j], label@),
                self@.labels.len() == n,
                forall|j: int| 0 <= j < n ==> self@.labels[j] == self.labels@[j]@,
            decreases n - i,
        {
            if crate::text::eq_ignore_case(self.labels[i].as_str(), label) {
                proof {
                    assert(ci_eq(self@.labels[i as int], label@));
                }
                return true;
            }
            i = i + 1;
        }
        false
    }

    /// Add the label unless an equal one (ignoring ASCII case) is present;
    /// stamp the update time when it was added.
    pub fn add_label_at(&mut self, label: String, now: i64)
        ensures
            has_label_ci(old(self)@.labels, label@) ==> final(self)@ == old(self)@,
            !has_label_ci(old(self)@.labels, label@) ==> final(self)@ == (ItemModel {
                labels: old(self)@.labels.push(label@),
                updated_at: if now as int >= old(self)@.created_at {
                    now as int
                } else {
                    old(self)@.created_at
                },
                ..old(self)@
            }),
    {
        if !self.has_label(label.as_str()) {
            let ghost lv = label@;
            self.labels.push(label);
            proof {
                assert(self@.labels =~= old(self)@.labels.push(lv));
            }
            self.touch_at(now);
        }
    }

    /// Add the label unless present, stamping the clock's current time.
    pub fn add_label(&mut self, label: String)
        ensures
            has_label_ci(old(self)@.labels, label@) ==> final(self)@ == old(self)@,
            !has_label_ci(old(self)@.labels, label@) ==> final(self)@ == (ItemModel {
                labels: old(self)@.labels.push(label@),
                updated_at: final(self)@.updated_at,
                ..old(self)@
            }) && final(self)@.updated_at >= old(self)@.created_at,
    {
        let now = crate::clock::now_millis();
        self.add_label_at(label, now);
    }

    /// Remove every label equal to `label` ignoring ASCII case, stamping the
    /// clock's current time when one was removed.
    pub fn remove_label(&mut self, label: &str) -> (r: bool)
        ensures
            r == has_label_ci(old(self)@.labels, label@),
            final(self)@ == (ItemModel {
                labels: old(self)@.labels.filter(|l: Seq<char>| !ci_eq(l, label@)),
                updated_at: final(self)@.updated_at,
                ..old(self)@
            }),
            r ==> final(self)@.updated_at >= old(self)@.created_at,
            !r ==> final(self)@.updated_at == old(self)@.updated_at,
    {
        let now = crate::clock::now_millis();
        self.remove_label_at(label, now)
    }

    /// Remove every label equal to `label` ignoring ASCII case; report
    /// whether any was removed, stamping the update time if so.
    pub fn remove_label_at(&mut self, label: &str, now: i64) -> (r: bool)
        ensures
            r == has_label_ci(old(self)@.labels, label@),
            final(self)@.labels == old(self)@.labels.filter(
                |l: Seq<char>| !ci_eq(l, label@),
            ),
            final(self)@.uid == old(self)@.uid,
            final(self)@.title == old(self)@.title,
            final(self)@.state == old(self)@.state,
            final(self)@.assignee == old(self)@.assignee,
            final(self)@.created_at == old(self)@.created_at,
            final(self)@.fields == old(self)@.fields,
            r ==> final(self)@.updated_at >= old(self)@.created_at,
            !r ==> final(self)@.updated_at == old(self)@.updated_at,
    {
        let n = self.labels.len();
        let mut kept: Vec<String> = Vec::new();
        let mut removed = false;
        let ghost l0 = self@.labels;
        proof {
            reveal(Seq::filter);
            assert(l0.subrange(0, 0).filter(|l: Seq<char>| !ci_eq(l, label@)) =~= Seq::<
                Seq<char>,
            >::empty());
            assert(kept@.map_values(|s: String| s@) =~= Seq::<Seq<char>>::empty());
        }
        let mut i: usize = 0;
        while i < n
            invariant
                0 <= i <= n,
                n == self.labels@.len(),
                l0 == self@.labels,
                l0.len() == n,
                forall|j: int| 0 <= j < n ==> l0[j] == self.labels@[j]@,
                kept@.map_values(|s: String| s@) =~= l0.subrange(0, i as int).filter(
                    |l: Seq<char>| !ci_eq(l, label@),
                ),
                removed == exists|j: int| 0 <= j < i && ci_eq(#[trigger] l0[j], label@),
            decreases n - i,
        {
            let ghost prefix = l0.subrange(0, i as int);
            proof {
                reveal(Seq::filter);
                assert(l0.subrange(0, i + 1) =~= prefix.push(l0[i as int]));
                assert(prefix.push(l0[i as int]).drop_last() =~= prefix);
                assert(prefix.push(l0[i as int]).last() == l0[i as int]);
            }
            let keep = !crate::text::eq_ignore_case(self.labels[i].as_str(), label);
            if keep {
                kept.push(self.labels[i].clone());
                proof {
                    reveal(Seq::filter);
                    assert(prefix.push(l0[i as int]).filter(|l: Seq<char>| !ci_eq(l, label@))
                        =~= prefix.filter(|l: Seq<char>| !ci_eq(l, label@)).push(l0[i as int]));
                    assert(kept@.map_values(|s: String| s@) =~= l0.subrange(0, i + 1).filter(
                        |l: Seq<char>| !ci_eq(l, label@),
                    ));
                }
            } else {
                removed = true;
                proof {
                    reveal(Seq::filter);
                    assert(prefix.push(l0[i as int]).filter(|l: Seq<char>| !ci_eq(l, label@))
                        =~= prefix.filter(|l: Seq<char>| !ci_eq(l, label@)));
                }
            }
            i = i + 1;
        }
        proof {
            assert(l0.subrange(0, n as int) =~= l0);
        }
        self.labels = kept;
        if removed {
            self.touch_at(now);
        }
        removed
    }
}

/// A deep copy of a work item, equal in model.
pub fn item_clone(it: &WorkItem) -> (r: WorkItem)
    ensures
        r@ == it@,
{
    let assignee = match &it.assignee {
        Some(a) => Some(a.clone()),
        None => None,
    };
    let labels = crate::text::clone_strings(&it.labels);
    let mut fields: Vec<(String, DocValue)> = Vec::new();
    let n = it.fields.len();
    let mut i: usize = 0;
    while i < n
        invariant
            0 <= i <= n,
            n == it.fields@.len(),
            fields@.len() == i,
            forall|j: int|
                0 <= j < i ==> fields@[j].0@ == it.fields@[j].0@ && value_view(fields@[j].1)
                    == value_view(it.fields@[j].1),
        decreases n - i,
    {
        let k = it.fields[i].0.clone();
        let v = value_clone(&it.fields[i].1);
        fields.push((k, v));
        i = i + 1;
    }
    let r = WorkItem {
        uid: it.uid.clone(),
        title: it.title.clone(),
        state: it.state.clone(),
        assignee,
        labels,
        created_at: it.created_at,
        updated_at: it.updated_at,
        fields,
    };
    proof {
        lemma_obj_entries_view(r.fields@);
        lemma_obj_entries_view(it.fields@);
        assert(obj_entries_view(r.fields@) =~= obj_entries_view(it.fields@));
        assert(r@ =~= it@);
    }
    r
}


/// The document entries of an item's snapshot, in their fixed order; an
/// absent assignee, empty labels and empty fields are left out, as the
/// snapshot serializer does.
pub open spec fn item_doc_entries(m: ItemModel) -> Seq<(Seq<char>, SpecValue)> {
    seq![
        ("uid"@, SpecValue::Text(m.uid)),
        ("title"@, SpecValue::Text(m.title)),
        ("state"@, SpecValue::Text(m.state)),
    ] + (match m.assignee {
        Some(a) => seq![("assignee"@, SpecValue::Text(a))],
        None => Seq::<(Seq<char>, SpecValue)>::empty(),
    }) + (if m.labels.len() == 0 {
        Seq::<(Seq<char>, SpecValue)>::empty()
    } else {
        seq![("labels"@, SpecValue::Array(m.labels.map_values(|l: Seq<char>| SpecValue::Text(l))))]
    }) + seq![
        ("created_at"@, SpecValue::Int(m.created_at)),
        ("updated_at"@, SpecValue::Int(m.updated_at)),
    ] + (if m.fields.len() == 0 {
        Seq::<(Seq<char>, SpecValue)>::empty()
    } else {
        seq![("fields"@, SpecValue::Object(m.fields))]
    })
}

/// The document form of an item's snapshot.
pub open spec fn item_doc(m: ItemModel) -> SpecValue {
    SpecValue::Object(item_doc_entries(m))
}

/// Whether an integer fits a 64-bit signed value.
pub open spec fn fits_i64(n: int) -> bool {
    i64::MIN <= n <= i64::MAX
}

/// The item a document reads back as, mirroring the snapshot reader: `uid`,
/// `title` and `state` must be text, the timestamps integers; a missing or
/// null `assignee` is none; missing `labels` or `fields` are empty; `labels`
/// must otherwise be an array of text and `fields` an object; unknown keys
/// are ignored.
pub open spec fn parse_item(v: SpecValue) -> Option<ItemModel> {
    match v {
        SpecValue::Object(o) => {
            if !(obj_has(o, "uid"@) && obj_get(o, "uid"@) is Text) {
                None
            } else if !(obj_has(o, "title"@) && obj_get(o, "title"@) is Text) {
                None
            } else if !(obj_has(o, "state"@) && obj_get(o, "state"@) is Text) {
                None
            } else if !(obj_has(o, "created_at"@) && obj_get(o, "created_at"@) is Int) {
                None
            } else if !(obj_has(o, "updated_at"@) && obj_get(o, "updated_at"@) is Int) {
                None
            } else if obj_has(o, "assignee"@) && !(obj_get(o, "assignee"@) is Text || obj_get(
                o,
                "assignee"@,
            ) is Null) {
                None
            } else if obj_has(o, "labels"@) && !(obj_get(o, "labels"@) is Array && all_text(
                obj_get(o, "labels"@)->Array_0,
            )) {
                None
            } else if obj_has(o, "fields"@) && !(obj_get(o, "fields"@) is Object) {
                None
            } else {
                Some(
                    ItemModel {
                        uid: obj_get(o, "uid"@)->Text_0,
                        title: obj_get(o, "title"@)->Text_0,
                        state: obj_get(o, "state"@)->Text_0,
                        assignee: if obj_has(o, "assignee"@) && obj_get(o, "assignee"@) is Text {
                            Some(obj_get(o, "assignee"@)->Text_0)
                        } else {
                            None
                        },
                        labels: if obj_has(o, "labels"@) {
                            obj_get(o, "labels"@)->Array_0.map_values(
                                |t: SpecValue| t->Text_0,
                            )
                        } else {
                            Seq::empty()
                        },
                        created_at: obj_get(o, "created_at"@)->Int_0,
                        updated_at: obj_get(o, "updated_at"@)->Int_0,
                        fields: if obj_has(o, "fields"@) {
                            obj_get(o, "fields"@)->Object_0
                        } else {
                            Seq::empty()
                        },
                    },
                )
            }
        },
        _ => None,
    }
}

/// Whether every element is text.
pub open spec fn all_text(a: Seq<SpecValue>) -> bool {
    forall|i: int| 0 <= i < a.len() ==> (#[trigger] a[i]) is Text
}

/// Serialize an item into its document form.
pub fn item_to_doc(it: &WorkItem) -> (r: DocValue)
    ensures
        r@ == item_doc(it@),
{
    let mut entries: Vec<(String, DocValue)> = Vec::new();
    entries.push((String::from_str("uid"), DocValue::Text(it.uid.clone())));
    entries.push((String::from_str("title"), DocValue::Text(it.title.clone())));
    entries.push((String::from_str("state"), DocValue::Text(it.state.clone())));
    match &it.assignee {
        Some(a) => {
            entries.push((String::from_str("assignee"), DocValue::Text(a.clone())));
        },
        None => {},
    }
    if it.labels.len() > 0 {
        let mut texts: Vec<DocValue> = Vec::new();
        let n = it.labels.len();
        let mut i: usize = 0;
        while i < n
            invariant
                0 <= i <= n,
                n == it.labels@.len(),
                texts@.len() == i,
                forall|j: int|
                    0 <= j < i ==> value_view(#[trigger] texts@[j]) == SpecValue::Text(
                        it.labels@[j]@,
                    ),
            decreases n - i,
        {
            texts.push(DocValue::Text(it.labels[i].clone()));
            i = i + 1;
        }
        proof {
            crate::value::lemma_arr_view(texts@);
            assert(crate::value::arr_view(texts@) =~= it@.labels.map_values(
                |l: Seq<char>| SpecValue::Text(l),
            ));
        }
        entries.push((String::from_str("labels"), DocValue::Array(texts)));
    }
    entries.push((String::from_str("created_at"), DocValue::Int(it.created_at)));
    entries.push((String::from_str("updated_at"), DocValue::Int(it.updated_at)));
    if it.fields.len() > 0 {
        let mut fields: Vec<(String, DocValue)> = Vec::new();
        let n = it.fields.len();
        let mut i: usize = 0;
        while i < n
            invariant
                0 <= i <= n,
                n == it.fields@.len(),
                fields@.len() == i,
                forall|j: int|
                    0 <= j < i ==> fields@[j].0@ == it.fields@[j].0@ && value_view(fields@[j].1)
                        == value_view(it.fields@[j].1),
            decreases n - i,
        {
            let k = it.fields[i].0.clone();
            let v = value_clone(&it.fields[i].1);
            fields.push((k, v));
            i = i + 1;
        }
        proof {
            lemma_obj_entries_view(fields@);
            lemma_obj_entries_view(it.fields@);
            assert(obj_entries_view(fields@) =~= obj_entries_view(it.fields@));
        }
        entries.push((String::from_str("fields"), DocValue::Object(fields)));
    }
    let r = DocValue::Object(entries);
    proof {
        lemma_obj_entries_view(entries@);
        assert(obj_entries_view(entries@) =~= item_doc_entries(it@));
    }
    r
}

/// Read a document back as an item snapshot.
pub fn item_from_doc(d: &DocValue) -> (r: Result<WorkItem, crate::error::FsError>)
    ensures
        match r {
            Ok(it) => parse_item(d@) == Some(it@),
            Err(e) => parse_item(d@) is None && e is Serialization,
        },
{
    let entries = match d {
        DocValue::Object(entries) => entries,
        _ => {
            return Err(
                crate::error::FsError::Serialization(
                    String::from_str("an item snapshot must be an object"),
                ),
            );
        },
    };
    proof {
        lemma_obj_entries_view(entries@);
    }
    let ghost eo = obj_entries_view(entries@);
    let uid = match lookup_text(entries, "uid") {
        Some(s) => s,
        None => {
            return Err(
                crate::error::FsError::Serialization(String::from_str("uid must be text")),
            );
        },
    };
    let title = match lookup_text(entries, "title") {
        Some(s) => s,
        None => {
            return Err(
                crate::error::FsError::Serialization(String::from_str("title must be text")),
            );
        },
    };
    let state = match lookup_text(entries, "state") {
        Some(s) => s,
        None => {
            return Err(
                crate::error::FsError::Serialization(String::from_str("state must be text")),
            );
        },
    };
    let created_at = match lookup_int(entries, "created_at") {
        Some(n) => n,
        None => {
            return Err(
                crate::error::FsError::Serialization(
                    String::from_str("created_at must be an integer"),
                ),
            );
        },
    };
    let updated_at = match lookup_int(entries, "updated_at") {
        Some(n) => n,
        None => {
            return Err(
                crate::error::FsError::Serialization(
                    String::from_str("updated_at must be an integer"),
                ),
            );
        },
    };
    let key_assignee = String::from_str("assignee");
    let assignee = match crate::patch::obj_find(entries, &key_assignee) {
        Some(j) => {
            proof {
                crate::value::lemma_obj_first_index(eo, "assignee"@, j as int);
            }
            match &entries[j].1 {
                DocValue::Text(s) => Some(s.clone()),
                DocValue::Null => None,
                _ => {
                    return Err(
                        crate::error::FsError::Serialization(
                            String::from_str("assignee must be text or null"),
                        ),
                    );
                },
            }
        },
        None => {
            proof {
                crate::value::lemma_obj_index(eo, "assignee"@);
            }
            None
        },
    };
    let key_labels = String::from_str("labels");
    let labels: Vec<String> = match crate::patch::obj_find(entries, &key_labels) {
        Some(j) => {
            proof {
                crate::value::lemma_obj_first_index(eo, "labels"@, j as int);
            }
            match &entries[j].1 {
                DocValue::Array(a) => {
                    proof {
                        crate::value::lemma_arr_view(a@);
                    }
                    let n = a.len();
                    let mut out: Vec<String> = Vec::new();
                    let mut i: usize = 0;
                    while i < n
                        invariant
                            0 <= i <= n,
                            n == a@.len(),
                            out@.len() == i,
                            d@ == SpecValue::Object(obj_entries_view(entries@)),
                            obj_has(obj_entries_view(entries@), "labels"@),
                            obj_get(obj_entries_view(entries@), "labels"@) == SpecValue::Array(
                                crate::value::arr_view(a@),
                            ),
                            crate::value::arr_view(a@).len() == n,
                            forall|t: int|
                                0 <= t < n ==> crate::value::arr_view(a@)[t] == value_view(a@[t]),
                            forall|t: int|
                                0 <= t < i ==> (#[trigger] crate::value::arr_view(a@)[t]) is Text
                                    && out@[t]@ == crate::value::arr_view(a@)[t]->Text_0,
                        decreases n - i,
                    {
                        match &a[i] {
                            DocValue::Text(s) => {
                                out.push(s.clone());
                            },
                            _ => {
                                proof {
                                    assert(!(value_view(a@[i as int]) is Text));
                                    assert(crate::value::arr_view(a@)[i as int] == value_view(
                                        a@[i as int],
                                    ));
                                    assert(!all_text(crate::value::arr_view(a@)));
                                }
                                return Err(
                                    crate::error::FsError::Serialization(
                                        String::from_str("labels must be text"),
                                    ),
                                );
                            },
                        }
                        i = i + 1;
                    }
                    proof {
                        assert(all_text(crate::value::arr_view(a@)));
                        assert(out@.map_values(|s: String| s@) =~= crate::value::arr_view(
                            a@,
                        ).map_values(|t: SpecValue| t->Text_0));
                    }
                    out
                },
                _ => {
                    return Err(
                        crate::error::FsError::Serialization(
                            String::from_str("labels must be an array"),
                        ),
                    );
                },
            }
        },
        None => {
            proof {
                crate::value::lemma_obj_index(eo, "labels"@);
            }
            Vec::new()
        },
    };
    let key_fields = String::from_str("fields");
    let fields: Vec<(String, DocValue)> = match crate::patch::obj_find(entries, &key_fields) {
        Some(j) => {
            proof {
                crate::value::lemma_obj_first_index(eo, "fields"@, j as int);
            }
            match &entries[j].1 {
                DocValue::Object(fo) => {
                    let n = fo.len();
                    let mut out: Vec<(String, DocValue)> = Vec::new();
                    let mut i: usize = 0;
                    while i < n
                        invariant
                            0 <= i <= n,
                            n == fo@.len(),
                            out@.len() == i,
                            forall|t: int|
                                0 <= t < i ==> out@[t].0@ == fo@[t].0@ && value_view(out@[t].1)
                                    == value_view(fo@[t].1),
                        decreases n - i,
                    {
                        let k = fo[i].0.clone();
                        let v = value_clone(&fo[i].1);
                        out.push((k, v));
                        i = i + 1;
                    }
                    proof {
                        lemma_obj_entries_view(out@);
                        lemma_obj_entries_view(fo@);
                        assert(obj_entries_view(out@) =~= obj_entries_view(fo@));
                    }
                    out
                },
                _ => {
                    return Err(
                        crate::error::FsError::Serialization(
                            String::from_str("fields must be an object"),
                        ),
                    );
                },
            }
        },
        None => {
            proof {
                crate::value::lemma_obj_index(eo, "fields"@);
            }
            Vec::new()
        },
    };
    let it = WorkItem { uid, title, state, assignee, labels, created_at, updated_at, fields };
    proof {
        assert(it@.labels =~= parse_item(d@)->Some_0.labels);
        assert(it@.fields =~= parse_item(d@)->Some_0.fields);
        assert(it@ =~= parse_item(d@)->Some_0);
    }
    Ok(it)
}

/// The text at a top-level key, if the key is present with a text value.
fn lookup_text(entries: &Vec<(String, DocValue)>, key: &str) -> (r: Option<String>)
    ensures
        ({
            let eo = obj_entries_view(entries@);
            match r {
                Some(s) => obj_has(eo, key@) && obj_get(eo, key@) is Text && s@ == obj_get(
                    eo,
                    key@,
                )->Text_0,
                None => !(obj_has(eo, key@) && obj_get(eo, key@) is Text),
            }
        }),
{
    proof {
        lemma_obj_entries_view(entries@);
    }
    let ghost eo = obj_entries_view(entries@);
    let k = String::from_str(key);
    match crate::patch::obj_find(entries, &k) {
        Some(j) => {
            proof {
                crate::value::lemma_obj_first_index(eo, key@, j as int);
            }
            match &entries[j].1 {
                DocValue::Text(s) => Some(s.clone()),
                _ => None,
            }
        },
        None => {
            proof {
                crate::value::lemma_obj_index(eo, key@);
            }
            None
        },
    }
}

/// The integer at a top-level key, if the key is present with an integer.
fn lookup_int(entries: &Vec<(String, DocValue)>, key: &str) -> (r: Option<i64>)
    ensures
        ({
            let eo = obj_entries_view(entries@);
            match r {
                Some(n) => obj_has(eo, key@) && obj_get(eo, key@) is Int && n as int == obj_get(
                    eo,
                    key@,
                )->Int_0,
                None => !(obj_has(eo, key@) && obj_get(eo, key@) is Int),
            }
        }),
{
    proof {
        lemma_obj_entries_view(entries@);
    }
    let ghost eo = obj_entries_view(entries@);
    let k = String::from_str(key);
    match crate::patch::obj_find(entries, &k) {
        Some(j) => {
            proof {
                crate::value::lemma_obj_first_index(eo, key@, j as int);
            }
            match &entries[j].1 {
                DocValue::Int(n) => Some(*n),
                _ => None,
            }
        },
        None => {
            proof {
                crate::value::lemma_obj_index(eo, key@);
            }
            None
        },
    }
}

} // verus!
