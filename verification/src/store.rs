//! The item store: a workspace owning work items and their append-only
//! event logs, composing the patch engine and the differ so that every
//! mutation leaves a full trail of typed events.
//!
//! The workspace here is the in-memory store the contracts are stated
//! against; persistence wraps it from outside, handing plain values in and
//! out.

use vstd::prelude::*;
use crate::config::WorkspaceConfig;
use crate::diff::SpecChange;
use crate::diff::changes_model;
use crate::diff::diff_values;
use crate::diff::render_path;
use crate::diff::spec_diff;
use crate::error::CoreError;
use crate::error::FsError;
use crate::event::EventModel;
use crate::event::EventPayload;
use crate::event::EventType;
use crate::event::PayloadModel;
use crate::event::WorkEvent;
use crate::event::event_clone;
use crate::item::ItemModel;
use crate::item::WorkItem;
use crate::item::item_clone;
use crate::item::item_doc;
use crate::item::item_wf;
use crate::item::parse_item;
use crate::item::has_label_ci;
use crate::patch::SetOperation;
use crate::patch::apply_merge_patch;
use crate::patch::apply_set_operation;
use crate::patch::path_segments;
use crate::patch::spec_set;
use crate::text::ci_eq;
use crate::value::DocValue;
use crate::value::SpecValue;
use crate::value::value_clone;
use crate::value::wf;

verus! {

broadcast use vstd::std_specs::vec::group_vec_axioms;

/// One stored item: its slug, current snapshot, and event log.
pub struct ItemRecord {
    /// The slug: the storage key, also the tail of the uid.
    pub slug: String,
    /// The current snapshot.
    pub item: WorkItem,
    /// The append-only event log, in append order.
    pub events: Vec<WorkEvent>,
}

/// The mathematical model of a stored item.
#[verifier::ext_equal]
pub struct RecordModel {
    pub slug: Seq<char>,
    pub item: ItemModel,
    pub events: Seq<EventModel>,
}

impl View for ItemRecord {
    type V = RecordModel;

    open spec fn view(&self) -> RecordModel {
        RecordModel {
            slug: self.slug@,
            item: self.item@,
            events: self.events@.map_values(|e: WorkEvent| e@),
        }
    }
}

/// A workspace: the collection of stored items under one root.
pub struct Workspace {
    root: String,
    config: WorkspaceConfig,
    items: Vec<ItemRecord>,
}

/// Filter criteria for listing work items; the present parts must all hold.
pub struct ItemFilter {
    /// Exact state match, ignoring ASCII case.
    pub state: Option<String>,
    /// Exact assignee match, ignoring ASCII case.
    pub assignee: Option<String>,
    /// The item must carry this label.
    pub label: Option<String>,
}

/// The model of a filter.
#[verifier::ext_equal]
pub struct FilterModel {
    pub state: Option<Seq<char>>,
    pub assignee: Option<Seq<char>>,
    pub label: Option<Seq<char>>,
}

impl View for ItemFilter {
    type V = FilterModel;

    open spec fn view(&self) -> FilterModel {
        FilterModel {
            state: match self.state {
                Some(s) => Some(s@),
                None => None,
            },
            assignee: match self.assignee {
                Some(s) => Some(s@),
                None => None,
            },
            label: match self.label {
                Some(s) => Some(s@),
                None => None,
            },
        }
    }
}

impl Default for ItemFilter {
    fn default() -> (r: Self)
        ensures
            r@.state is None,
            r@.assignee is None,
            r@.label is None,
    {
        ItemFilter { state: None, assignee: None, label: None }
    }
}

/// Whether an item passes a filter: every given part matches, combined with
/// and.
pub open spec fn spec_matches(f: FilterModel, m: ItemModel) -> bool {
    &&& (match f.state {
        Some(s) => ci_eq(m.state, s),
        None => true,
    })
    &&& (match f.assignee {
        Some(a) => m.assignee matches Some(x) && ci_eq(x, a),
        None => true,
    })
    &&& (match f.label {
        Some(l) => has_label_ci(m.labels, l),
        None => true,
    })
}

impl ItemFilter {
    /// Whether the item passes this filter.
    pub fn matches(&self, item: &WorkItem) -> (r: bool)
        ensures
            r == spec_matches(self@, item@),
    {
        match &self.state {
            Some(s) => {
                if !crate::text::eq_ignore_case(item.state.as_str(), s.as_str()) {
                    return false;
                }
            },
            None => {},
        }
        match &self.assignee {
            Some(a) => match &item.assignee {
                Some(x) => {
                    if !crate::text::eq_ignore_case(x.as_str(), a.as_str()) {
                        return false;
                    }
                },
                None => {
                    return false;
                },
            },
            None => {},
        }
        match &self.label {
            Some(l) => {
                if !item.has_label(l.as_str()) {
                    return false;
                }
            },
            None => {},
        }
        true
    }
}

/// The slug a uid names, when the uid carries the `fs:` backend tag.
pub open spec fn uid_slug(uid: Seq<char>) -> Option<Seq<char>> {
    if uid.len() >= 3 && uid.subrange(0, 3) == "fs:"@ {
        Some(uid.subrange(3, uid.len() as int))
    } else {
        None
    }
}

/// The index of the record with the given slug, or -1.
pub open spec fn find_slug(rs: Seq<RecordModel>, slug: Seq<char>) -> int
    decreases rs.len(),
{
    if rs.len() == 0 {
        -1
    } else if rs[0].slug == slug {
        0
    } else {
        let t = find_slug(rs.drop_first(), slug);
        if t == -1 {
            -1
        } else {
            1 + t
        }
    }
}

pub proof fn lemma_find_slug(rs: Seq<RecordModel>, slug: Seq<char>)
    ensures
        -1 <= find_slug(rs, slug) < rs.len(),
        find_slug(rs, slug) >= 0 ==> rs[find_slug(rs, slug)].slug == slug,
        find_slug(rs, slug) >= 0 ==> forall|j: int| 0 <= j < find_slug(rs, slug) ==> rs[j].slug != slug,
        find_slug(rs, slug) == -1 ==> forall|j: int| 0 <= j < rs.len() ==> rs[j].slug != slug,
    decreases rs.len(),
{
    if rs.len() > 0 && rs[0].slug != slug {
        lemma_find_slug(rs.drop_first(), slug);
        assert(forall|j: int| 1 <= j < rs.len() ==> rs[j] == rs.drop_first()[j - 1]);
    }
}

/// Relies on `slug::slugify`: a URL-safe slug derived lossily from a title.
/// The result depends on the title alone and consists only of ASCII
/// lower-case letters, digits and hyphens.
pub uninterp spec fn slug_of(title: Seq<char>) -> Seq<char>;

/// Whether a character may appear in a slug.
pub open spec fn is_slug_char(c: char) -> bool {
    (97 <= c as u32 <= 122) || (48 <= c as u32 <= 57) || c as u32 == 45
}

/// Relies on `slug::slugify`; see `slug_of`.
#[verifier::external_body]
fn generate_slug(title: &str) -> (r: String)
    ensures
        r@ == slug_of(title@),
        forall|i: int| 0 <= i < r@.len() ==> is_slug_char(#[trigger] r@[i]),
{
    slug::slugify(title)
}

/// The event a change turns into: a change at `state` is a state
/// transition, one at `assignee` an assignee change, anything else a field
/// change. Non-text values read as empty or absent, as the event
/// constructors take them.
pub open spec fn event_for_change(c: SpecChange) -> (
    EventType,
    PayloadModel,
) {
    let p = render_path(c.0);
    if p == "state"@ {
        (
            EventType::StateChanged,
            PayloadModel::StateChange { from: text_or_empty(c.1), to: text_of(c.2) },
        )
    } else if p == "assignee"@ {
        (
            EventType::Assigned,
            PayloadModel::AssigneeChange { from: opt_text(c.1), to: text_opt(c.2) },
        )
    } else {
        (
            EventType::FieldChanged,
            PayloadModel::FieldChange { path: p, old_value: c.1, new_value: c.2 },
        )
    }
}

pub open spec fn text_of(v: SpecValue) -> Seq<char> {
    match v {
        SpecValue::Text(s) => s,
        _ => Seq::empty(),
    }
}

pub open spec fn text_or_empty(o: Option<SpecValue>) -> Seq<char> {
    match o {
        Some(v) => text_of(v),
        None => Seq::empty(),
    }
}

pub open spec fn text_opt(v: SpecValue) -> Option<Seq<char>> {
    match v {
        SpecValue::Text(s) => Some(s),
        _ => None,
    }
}

pub open spec fn opt_text(o: Option<SpecValue>) -> Option<Seq<char>> {
    match o {
        Some(v) => text_opt(v),
        None => None,
    }
}

/// The typed events a list of changes turns into, in order, with changes at
/// `updated_at` left out.
pub open spec fn events_for(cs: Seq<SpecChange>) -> Seq<
    (EventType, PayloadModel),
>
    decreases cs.len(),
{
    if cs.len() == 0 {
        Seq::empty()
    } else {
        let rest = events_for(cs.drop_first());
        if render_path(cs[0].0) == "updated_at"@ {
            rest
        } else {
            seq![event_for_change(cs[0])] + rest
        }
    }
}

proof fn lemma_events_for_concat(a: Seq<SpecChange>, b: Seq<SpecChange>)
    ensures
        events_for(a + b) =~= events_for(a) + events_for(b),
    decreases a.len(),
{
    if a.len() == 0 {
        assert(a + b =~= b);
        assert(events_for(a) =~= Seq::<(EventType, PayloadModel)>::empty());
        assert(events_for(a) + events_for(b) =~= events_for(b));
    } else {
        lemma_events_for_concat(a.drop_first(), b);
        assert((a + b).drop_first() =~= a.drop_first() + b);
        assert((a + b)[0] == a[0]);
        if render_path(a[0].0) == "updated_at"@ {
        } else {
            assert(events_for(a + b) =~= seq![
                event_for_change(a[0]),
            ] + (events_for(a.drop_first()) + events_for(b)));
        }
    }
}

/// Whether the appended events realize the expected list: same order, the
/// expected type and payload, stamped at `now`, no actor.
pub open spec fn appended_match(
    evs: Seq<EventModel>,
    expect: Seq<(EventType, PayloadModel)>,
    now: int,
) -> bool {
    evs.len() == expect.len() && forall|i: int|
        0 <= i < evs.len() ==> (#[trigger] evs[i]).event_type == expect[i].0 && evs[i].payload
            == expect[i].1 && evs[i].timestamp == now && evs[i].actor is None
}

/// Build the events for a list of emitted changes.
fn events_from_changes(
    changes: &Vec<(String, Option<DocValue>, DocValue)>,
    Ghost(cs): Ghost<Seq<SpecChange>>,
    now: i64,
) -> (r: Vec<WorkEvent>)
    requires
        changes_model(changes@, cs),
    ensures
        appended_match(
            r@.map_values(|e: WorkEvent| e@),
            events_for(cs),
            now as int,
        ),
{
    let n = changes.len();
    let mut out: Vec<WorkEvent> = Vec::new();
    proof {
        assert(cs.subrange(0, 0) =~= Seq::<SpecChange>::empty());
        assert(events_for(cs.subrange(0, 0)) =~= Seq::<(
            EventType,
            PayloadModel,
        )>::empty());
        assert(out@.map_values(|e: WorkEvent| e@) =~= Seq::<EventModel>::empty());
    }
    let key_updated = String::from_str("updated_at");
    let key_state = String::from_str("state");
    let key_assignee = String::from_str("assignee");
    let mut k: usize = 0;
    while k < n
        invariant
            0 <= k <= n,
            n == changes@.len(),
            changes_model(changes@, cs),
            cs.len() == n,
            key_updated@ == "updated_at"@,
            key_state@ == "state"@,
            key_assignee@ == "assignee"@,
            appended_match(
                out@.map_values(|e: WorkEvent| e@),
                events_for(cs.subrange(0, k as int)),
                now as int,
            ),
        decreases n - k,
    {
        let ghost done = cs.subrange(0, k as int);
        proof {
            assert(cs.subrange(0, k + 1) =~= done + seq![cs[k as int]]);
            lemma_events_for_concat(done, seq![cs[k as int]]);
            assert(seq![cs[k as int]].drop_first() =~= Seq::<SpecChange>::empty());
            assert(events_for(seq![cs[k as int]].drop_first()) =~= Seq::<(
                EventType,
                PayloadModel,
            )>::empty());
            assert(crate::diff::change_model(changes@[k as int], cs[k as int]));
        }
        let path = &changes[k].0;
        let ghost before = out@;
        if *path == key_updated {
            proof {
                assert(events_for(seq![cs[k as int]]) =~= Seq::<(
                    EventType,
                    PayloadModel,
                )>::empty());
            }
        } else {
            let ev: WorkEvent = if *path == key_state {
                let from = match &changes[k].1 {
                    Some(DocValue::Text(s)) => s.clone(),
                    _ => String::new(),
                };
                let to = match &changes[k].2 {
                    DocValue::Text(s) => s.clone(),
                    _ => String::new(),
                };
                WorkEvent::new_at(
                    EventType::StateChanged,
                    EventPayload::StateChange(
                        crate::event::StateChangePayload { from, to },
                    ),
                    now,
                )
            } else if *path == key_assignee {
                let from = match &changes[k].1 {
                    Some(DocValue::Text(s)) => Some(s.clone()),
                    _ => None,
                };
                let to = match &changes[k].2 {
                    DocValue::Text(s) => Some(s.clone()),
                    _ => None,
                };
                WorkEvent::new_at(
                    EventType::Assigned,
                    EventPayload::AssigneeChange(
                        crate::event::AssigneeChangePayload { from, to },
                    ),
                    now,
                )
            } else {
                let old_value = match &changes[k].1 {
                    Some(v) => Some(value_clone(v)),
                    None => None,
                };
                WorkEvent::new_at(
                    EventType::FieldChanged,
                    EventPayload::FieldChange(
                        crate::event::FieldChangePayload {
                            path: path.clone(),
                            old_value,
                            new_value: value_clone(&changes[k].2),
                        },
                    ),
                    now,
                )
            };
            out.push(ev);
            proof {
                assert(events_for(seq![cs[k as int]]) =~= seq![
                    event_for_change(cs[k as int]),
                ]);
                assert(out@.map_values(|e: WorkEvent| e@) =~= before.map_values(
                    |e: WorkEvent| e@,
                ).push(out@[out@.len() - 1]@));
            }
        }
        k = k + 1;
    }
    proof {
        assert(cs.subrange(0, n as int) =~= cs);
    }
    out
}

/// Well-formedness of a workspace: slugs are unique, every uid is `fs:`
/// followed by the record's slug, and every snapshot is internally
/// consistent.
pub open spec fn records_wf(rs: Seq<RecordModel>) -> bool {
    &&& (forall|i: int, j: int| 0 <= i < j < rs.len() ==> rs[i].slug != rs[j].slug)
    &&& (forall|i: int| 0 <= i < rs.len() ==> (#[trigger] rs[i]).item.uid == "fs:"@ + rs[i].slug)
    &&& (forall|i: int| 0 <= i < rs.len() ==> item_wf((#[trigger] rs[i]).item))
}

impl Workspace {
    /// The stored records, in storage order.
    pub closed spec fn records(&self) -> Seq<RecordModel> {
        self.items@.map_values(|r: ItemRecord| r@)
    }

    /// The workspace root path.
    pub closed spec fn root_model(&self) -> Seq<char> {
        self.root@
    }

    /// The state new items start in.
    pub closed spec fn default_state_model(&self) -> Seq<char> {
        self.config.defaults.state@
    }

    /// The configuration format version the workspace carries.
    pub closed spec fn config_version(&self) -> u32 {
        self.config.version
    }

    /// Workspace well-formedness.
    pub open spec fn wf(&self) -> bool {
        records_wf(self.records())
    }

    /// A fresh, empty workspace at the given root, with the default
    /// configuration.
    pub fn init(root: String) -> (r: Workspace)
        ensures
            r.wf(),
            r.records().len() == 0,
            r.root_model() == root@,
            r.default_state_model() == "TODO"@,
            r.config_version() == 1,
    {
        let r = Workspace { root, config: WorkspaceConfig::default(), items: Vec::new() };
        proof {
            assert(r.records() =~= Seq::<RecordModel>::empty());
        }
        r
    }

    /// A fresh, empty workspace with the given configuration.
    pub fn with_config(root: String, config: WorkspaceConfig) -> (r: Workspace)
        ensures
            r.wf(),
            r.records().len() == 0,
            r.root_model() == root@,
            r.default_state_model() == config.defaults.state@,
            r.config_version() == config.version,
    {
        let r = Workspace { root, config, items: Vec::new() };
        proof {
            assert(r.records() =~= Seq::<RecordModel>::empty());
        }
        r
    }

    /// The workspace root path.
    pub fn root(&self) -> (r: &str)
        ensures
            r@ == self.root_model(),
    {
        self.root.as_str()
    }

    /// The workspace configuration.
    pub fn config(&self) -> (r: &WorkspaceConfig)
        ensures
            r.defaults.state@ == self.default_state_model(),
            r.version == self.config_version(),
    {
        &self.config
    }

    /// The slug a uid names; the uid must carry the `fs:` tag.
    pub fn slug_from_uid(uid: &str) -> (r: Result<String, FsError>)
        ensures
            match r {
                Ok(s) => uid_slug(uid@) == Some(s@),
                Err(e) => uid_slug(uid@) is None && e is InvalidUid,
            },
    {
        let cs = crate::text::str_chars(uid);
        let n = cs.len();
        proof {
            reveal_strlit("fs:");
        }
        if n >= 3 && cs[0] == 'f' && cs[1] == 's' && cs[2] == ':' {
            proof {
                assert(uid@.subrange(0, 3) =~= "fs:"@);
            }
            let tail = crate::text::sub_vec(&cs, 3, n);
            Ok(crate::text::chars_string(&tail))
        } else {
            proof {
                if n >= 3 {
                    assert(uid@.subrange(0, 3)[0] == uid@[0]);
                    assert(uid@.subrange(0, 3)[1] == uid@[1]);
                    assert(uid@.subrange(0, 3)[2] == uid@[2]);
                }
            }
            Err(FsError::InvalidUid(uid.to_owned()))
        }
    }

    /// The index of the record with this slug.
    fn find_record(&self, slug: &str) -> (r: Option<usize>)
        ensures
            match r {
                Some(i) => i < self.records().len() && find_slug(self.records(), slug@) == i as int,
                None => find_slug(self.records(), slug@) == -1,
            },
    {
        let n = self.items.len();
        proof {
            lemma_find_slug(self.records(), slug@);
        }
        let mut i: usize = 0;
        while i < n
            invariant
                0 <= i <= n,
                n == self.items@.len(),
                self.records().len() == n,
                forall|j: int| 0 <= j < n ==> self.records()[j].slug == self.items@[j].slug@,
                forall|j: int| 0 <= j < i ==> self.records()[j].slug != slug@,
                -1 <= find_slug(self.records(), slug@) < n,
                find_slug(self.records(), slug@) >= 0 ==> self.records()[find_slug(
                    self.records(),
                    slug@,
                )].slug == slug@,
                find_slug(self.records(), slug@) >= 0 ==> forall|j: int|
                    0 <= j < find_slug(self.records(), slug@) ==> self.records()[j].slug != slug@,
                find_slug(self.records(), slug@) == -1 ==> forall|j: int|
                    0 <= j < n ==> self.records()[j].slug != slug@,
            decreases n - i,
        {
            if crate::text::str_eq(self.items[i].slug.as_str(), slug) {
                proof {
                    let f = find_slug(self.records(), slug@);
                    assert(f >= 0) by {
                        if f == -1 {
                            assert(self.records()[i as int].slug != slug@);
                        }
                    }
                    assert(f >= i);
                    assert(f <= i) by {
                        if f > i {
                            assert(self.records()[i as int].slug != slug@);
                        }
                    }
                }
                return Some(i);
            }
            i = i + 1;
        }
        proof {
            let f = find_slug(self.records(), slug@);
            if f >= 0 {
                assert(self.records()[f].slug != slug@);
            }
        }
        None
    }

    /// Fetch an item by uid.
    pub fn get_item(&self, uid: &str) -> (r: Result<WorkItem, FsError>)
        ensures
            match r {
                Ok(it) => uid_slug(uid@) matches Some(slug) && find_slug(self.records(), slug) >= 0
                    && it@ == self.records()[find_slug(self.records(), slug)].item,
                Err(e) => match uid_slug(uid@) {
                    Some(slug) => find_slug(self.records(), slug) == -1 && e is ItemNotFound,
                    None => e is InvalidUid,
                },
            },
    {
        let slug = match Self::slug_from_uid(uid) {
            Ok(s) => s,
            Err(e) => {
                return Err(e);
            },
        };
        match self.find_record(slug.as_str()) {
            Some(i) => Ok(item_clone(&self.items[i].item)),
            None => Err(FsError::ItemNotFound(uid.to_owned())),
        }
    }

    /// Append one event, exactly as given, to an item's log.
    pub fn append_event(&mut self, slug: &str, event: &WorkEvent) -> (r: Result<(), FsError>)
        requires
            old(self).wf(),
        ensures
            final(self).wf(),
            ({
                let i = find_slug(old(self).records(), slug@);
                match r {
                    Ok(_) => i >= 0 && final(self).records() =~= old(self).records().update(
                        i,
                        RecordModel {
                            events: old(self).records()[i].events.push(event@),
                            ..old(self).records()[i]
                        },
                    ),
                    Err(e) => i == -1 && e is ItemNotFound && final(self).records() == old(
                        self,
                    ).records(),
                }
            }),
    {
        let i = match self.find_record(slug) {
            Some(i) => i,
            None => {
                return Err(FsError::ItemNotFound(slug.to_owned()));
            },
        };
        let ghost rs0 = self.records();
        let mut rec = self.items.remove(i);
        rec.events.push(event_clone(event));
        self.items.insert(i, rec);
        proof {
            let rs1 = self.records();
            assert forall|j: int| 0 <= j < rs1.len() implies rs1[j] == rs0.update(
                i as int,
                RecordModel { events: rs0[i as int].events.push(event@), ..rs0[i as int] },
            )[j] by {
                if j != i {
                    if j < i {
                        assert(self.items@[j] == old(self).items@[j]);
                    } else {
                        assert(self.items@[j] == old(self).items@[j]);
                    }
                } else {
                    assert(self.items@[j as int].events@ =~= old(self).items@[j as int].events@
                        .push(self.items@[j as int].events@.last()));
                    assert(rs1[j].events =~= rs0[i as int].events.push(event@));
                }
            }
            assert(final(self).records() =~= rs0.update(
                i as int,
                RecordModel { events: rs0[i as int].events.push(event@), ..rs0[i as int] },
            ));
        }
        Ok(())
    }

    /// Read an item's events in append order, keeping only those at or after
    /// `since` when a bound is given. An unknown item reads as an empty
    /// history.
    pub fn read_events(&self, uid: &str, since: Option<i64>) -> (r: Result<Vec<WorkEvent>, FsError>)
        ensures
            match r {
                Ok(evs) => uid_slug(uid@) matches Some(slug) && ({
                    let i = find_slug(self.records(), slug);
                    if i == -1 {
                        evs@.len() == 0
                    } else {
                        evs@.map_values(|e: WorkEvent| e@) == self.records()[i].events.filter(
                            |e: EventModel|
                                match since {
                                    Some(s) => e.timestamp >= s as int,
                                    None => true,
                                },
                        )
                    }
                }),
                Err(e) => uid_slug(uid@) is None && e is InvalidUid,
            },
    {
        let slug = match Self::slug_from_uid(uid) {
            Ok(s) => s,
            Err(e) => {
                return Err(e);
            },
        };
        let i = match self.find_record(slug.as_str()) {
            Some(i) => i,
            None => {
                return Ok(Vec::new());
            },
        };
        let evs = &self.items[i].events;
        let n = evs.len();
        let ghost full = self.records()[i as int].events;
        let ghost pred = |e: EventModel|
            match since {
                Some(s) => e.timestamp >= s as int,
                None => true,
            };
        let mut out: Vec<WorkEvent> = Vec::new();
        proof {
            reveal(Seq::filter);
            assert(full.subrange(0, 0) =~= Seq::<EventModel>::empty());
            assert(full.subrange(0, 0).filter(pred) =~= Seq::<EventModel>::empty());
            assert(out@.map_values(|e: WorkEvent| e@) =~= Seq::<EventModel>::empty());
            assert(full =~= evs@.map_values(|e: WorkEvent| e@));
        }
        let mut k: usize = 0;
        while k < n
            invariant
                0 <= k <= n,
                n == evs@.len(),
                full.len() == n,
                forall|j: int| 0 <= j < n ==> full[j] == evs@[j]@,
                pred == (|e: EventModel|
                    match since {
                        Some(s) => e.timestamp >= s as int,
                        None => true,
                    }),
                out@.map_values(|e: WorkEvent| e@) =~= full.subrange(0, k as int).filter(pred),
            decreases n - k,
        {
            let ghost prefix = full.subrange(0, k as int);
            proof {
                reveal(Seq::filter);
                assert(full.subrange(0, k + 1) =~= prefix.push(full[k as int]));
                assert(prefix.push(full[k as int]).drop_last() =~= prefix);
                assert(prefix.push(full[k as int]).last() == full[k as int]);
            }
            let keep = match since {
                Some(s) => evs[k].timestamp >= s,
                None => true,
            };
            if keep {
                let ghost before = out@;
                out.push(event_clone(&evs[k]));
                proof {
                    assert(out@.map_values(|e: WorkEvent| e@) =~= before.map_values(
                        |e: WorkEvent| e@,
                    ).push(full[k as int]));
                }
            }
            k = k + 1;
        }
        proof {
            assert(full.subrange(0, n as int) =~= full);
        }
        Ok(out)
    }
}


/// A uid built as `fs:` plus a slug reads back as that slug.
pub proof fn lemma_uid_roundtrip(slug: Seq<char>)
    ensures
        uid_slug("fs:"@ + slug) == Some(slug),
{
    reveal_strlit("fs:");
    let uid = "fs:"@ + slug;
    assert(uid.subrange(0, 3) =~= "fs:"@);
    assert(uid.subrange(3, uid.len() as int) =~= slug);
}

proof fn lemma_wf_entries_concat(
    a: Seq<(Seq<char>, SpecValue)>,
    b: Seq<(Seq<char>, SpecValue)>,
)
    requires
        crate::value::wf_entries(a),
        crate::value::wf_entries(b),
    ensures
        crate::value::wf_entries(a + b),
    decreases a.len(),
{
    if a.len() == 0 {
        assert(a + b =~= b);
    } else {
        lemma_wf_entries_concat(a.drop_first(), b);
        assert((a + b).drop_first() =~= a.drop_first() + b);
        assert((a + b)[0] == a[0]);
    }
}

proof fn lemma_wf_arr_texts(ls: Seq<Seq<char>>)
    ensures
        crate::value::wf_arr(ls.map_values(|l: Seq<char>| SpecValue::Text(l))),
    decreases ls.len(),
{
    let m = ls.map_values(|l: Seq<char>| SpecValue::Text(l));
    if ls.len() == 0 {
        assert(m.len() == 0);
    } else {
        lemma_wf_arr_texts(ls.drop_first());
        assert(m.drop_first() =~= ls.drop_first().map_values(|l: Seq<char>| SpecValue::Text(l)));
        assert(crate::value::wf(m[0]));
    }
}

proof fn lemma_wf_entries_small(es: Seq<(Seq<char>, SpecValue)>)
    requires
        forall|i: int| 0 <= i < es.len() ==> crate::value::wf((#[trigger] es[i]).1),
    ensures
        crate::value::wf_entries(es),
    decreases es.len(),
{
    if es.len() > 0 {
        assert(forall|i: int| 1 <= i < es.len() ==> es[i] == es.drop_first()[i - 1]);
        lemma_wf_entries_small(es.drop_first());
    }
}




/// The eight top-level keys of a snapshot document are pairwise distinct.
proof fn lemma_doc_keys_distinct()
    ensures
        "uid"@ != "title"@ && "uid"@ != "state"@ && "uid"@ != "assignee"@,
        "uid"@ != "labels"@ && "uid"@ != "created_at"@ && "uid"@ != "updated_at"@,
        "uid"@ != "fields"@ && "title"@ != "state"@ && "title"@ != "assignee"@,
        "title"@ != "labels"@ && "title"@ != "created_at"@ && "title"@ != "updated_at"@,
        "title"@ != "fields"@ && "state"@ != "assignee"@ && "state"@ != "labels"@,
        "state"@ != "created_at"@ && "state"@ != "updated_at"@ && "state"@ != "fields"@,
        "assignee"@ != "labels"@ && "assignee"@ != "created_at"@,
        "assignee"@ != "updated_at"@ && "assignee"@ != "fields"@,
        "labels"@ != "created_at"@ && "labels"@ != "updated_at"@,
        "labels"@ != "fields"@ && "created_at"@ != "updated_at"@,
        "created_at"@ != "fields"@ && "updated_at"@ != "fields"@,
{
    reveal_strlit("uid");
    reveal_strlit("title");
    reveal_strlit("state");
    reveal_strlit("assignee");
    reveal_strlit("labels");
    reveal_strlit("created_at");
    reveal_strlit("updated_at");
    reveal_strlit("fields");
    assert("uid"@.len() == 3);
    assert("title"@.len() == 5);
    assert("state"@.len() == 5);
    assert("assignee"@.len() == 8);
    assert("labels"@.len() == 6);
    assert("created_at"@.len() == 10);
    assert("updated_at"@.len() == 10);
    assert("fields"@.len() == 6);
    assert("title"@[0] == 't' && "state"@[0] == 's');
    assert("labels"@[0] == 'l' && "fields"@[0] == 'f');
    assert("created_at"@[0] == 'c' && "updated_at"@[0] == 'u');
}

/// A consistent snapshot serializes to a well-formed document.
pub proof fn lemma_item_doc_wf(m: ItemModel)
    requires
        item_wf(m),
    ensures
        wf(item_doc(m)),
{
    lemma_doc_keys_distinct();
    let es = crate::item::item_doc_entries(m);
    let c1 = seq![
        ("uid"@, SpecValue::Text(m.uid)),
        ("title"@, SpecValue::Text(m.title)),
        ("state"@, SpecValue::Text(m.state)),
    ];
    let c2 = match m.assignee {
        Some(a) => seq![("assignee"@, SpecValue::Text(a))],
        None => Seq::<(Seq<char>, SpecValue)>::empty(),
    };
    let c3 = if m.labels.len() == 0 {
        Seq::<(Seq<char>, SpecValue)>::empty()
    } else {
        seq![
            ("labels"@, SpecValue::Array(m.labels.map_values(|l: Seq<char>| SpecValue::Text(l)))),
        ]
    };
    let c4 = seq![
        ("created_at"@, SpecValue::Int(m.created_at)),
        ("updated_at"@, SpecValue::Int(m.updated_at)),
    ];
    let c5 = if m.fields.len() == 0 {
        Seq::<(Seq<char>, SpecValue)>::empty()
    } else {
        seq![("fields"@, SpecValue::Object(m.fields))]
    };
    assert(es == c1 + c2 + c3 + c4 + c5);
    assert forall|i: int, j: int| 0 <= i < j < es.len() implies es[i].0 != es[j].0 by {
        assert(es[i] == (c1 + c2 + c3 + c4 + c5)[i]);
        assert(es[j] == (c1 + c2 + c3 + c4 + c5)[j]);
    }
    assert(crate::value::keys_unique(es));
    assert forall|i: int| 0 <= i < es.len() implies crate::value::wf((#[trigger] es[i]).1) by {
        if es[i].1 is Array {
            lemma_wf_arr_texts(m.labels);
        }
    }
    lemma_wf_entries_small(es);
}

/// A document that reads back as a snapshot hands it well-formed extension
/// fields.
pub proof fn lemma_parse_item_wf(v: SpecValue)
    requires
        wf(v),
        parse_item(v) is Some,
    ensures
        crate::value::keys_unique(parse_item(v)->Some_0.fields),
        crate::value::wf_entries(parse_item(v)->Some_0.fields),
{
    let o = v->Object_0;
    let m = parse_item(v)->Some_0;
    if crate::value::obj_has(o, "fields"@) {
        crate::value::lemma_obj_get_wf(o, "fields"@);
    }
}

/// Apply a list of set operations in order; the first failure fails the
/// whole list, leaving nothing applied.
pub open spec fn apply_ops(d: SpecValue, ops: Seq<(Seq<char>, SpecValue)>) -> Option<SpecValue>
    decreases ops.len(),
{
    if ops.len() == 0 {
        Some(d)
    } else {
        match spec_set(d, path_segments(ops[0].0), ops[0].1) {
            Some(d2) => apply_ops(d2, ops.drop_first()),
            None => None,
        }
    }
}

/// The models of a list of set operations.
pub open spec fn ops_model(ops: Seq<SetOperation>) -> Seq<(Seq<char>, SpecValue)> {
    ops.map_values(|o: SetOperation| (o.path@, o.value@))
}

proof fn lemma_apply_ops_wf(d: SpecValue, ops: Seq<(Seq<char>, SpecValue)>)
    requires
        wf(d),
        forall|k: int| 0 <= k < ops.len() ==> wf((#[trigger] ops[k]).1),
        apply_ops(d, ops) is Some,
    ensures
        wf(apply_ops(d, ops)->Some_0),
    decreases ops.len(),
{
    if ops.len() > 0 {
        let d2 = spec_set(d, path_segments(ops[0].0), ops[0].1)->Some_0;
        crate::patch::lemma_set_wf(d, path_segments(ops[0].0), ops[0].1);
        assert(forall|k: int| 1 <= k < ops.len() ==> ops[k] == ops.drop_first()[k - 1]);
        lemma_apply_ops_wf(d2, ops.drop_first());
    }
}

/// The snapshot stamped at `now`, never earlier than its creation.
pub open spec fn stamped(m: ItemModel, now: int) -> ItemModel {
    ItemModel {
        updated_at: if now >= m.created_at {
            now
        } else {
            m.created_at
        },
        ..m
    }
}

impl Workspace {
    /// Create a new item from a title: the slug is derived from the title,
    /// the uid is `fs:` plus the slug, the state is the configured default,
    /// and a creation event opens the log. Fails when the slug is empty or
    /// already taken.
    pub fn create_item_at(&mut self, title: &str, now: i64) -> (r: Result<WorkItem, FsError>)
        requires
            old(self).wf(),
        ensures
            final(self).wf(),
            final(self).root_model() == old(self).root_model(),
            final(self).default_state_model() == old(self).default_state_model(),
            ({
                let rs0 = old(self).records();
                match r {
                    Ok(it) => created_ok(
                        rs0,
                        final(self).records(),
                        title@,
                        old(self).default_state_model(),
                        now as int,
                        it@,
                    ),
                    Err(e) => final(self).records() == rs0 && create_err(rs0, title@, e),
                }
            }),
    {
        let slug = generate_slug(title);
        if slug.as_str().is_empty() {
            return Err(FsError::InvalidSlug(title.to_owned()));
        }
        let mut uid = String::from_str("fs:");
        uid.append(slug.as_str());
        proof {
            lemma_uid_roundtrip(slug@);
        }
        match self.find_record(slug.as_str()) {
            Some(_) => Err(FsError::ItemExists(uid)),
            None => {
                let ghost rs0 = self.records();
                let ghost uidv = uid@;
                let item = WorkItem::new_at(uid, title.to_owned(), now).with_state(
                    self.config.defaults.state.clone(),
                );
                let created = WorkEvent::new_at(
                    EventType::Created,
                    EventPayload::Comment(
                        crate::event::CommentPayload {
                            message: {
                                let mut msg = String::from_str("Created: ");
                                msg.append(title);
                                msg
                            },
                        },
                    ),
                    now,
                );
                let out = item_clone(&item);
                let mut events: Vec<WorkEvent> = Vec::new();
                events.push(created);
                let rec = ItemRecord { slug, item, events };
                let ghost recv = rec@;
                self.items.push(rec);
                proof {
                    assert(self.records() =~= rs0.push(recv));
                    assert(recv.events =~= seq![recv.events[0]]);
                    lemma_find_slug(rs0, recv.slug);
                    assert forall|i: int, j: int|
                        0 <= i < j < self.records().len() implies self.records()[i].slug
                        != self.records()[j].slug by {
                        if j == rs0.len() {
                            assert(rs0[i].slug != recv.slug);
                        }
                    }
                }
                Ok(out)
            },
        }
    }

    /// Create a new item, stamped with the clock's current time: the
    /// outcome of `create_item_at` at whatever time the clock read. Failure
    /// does not depend on the clock.
    pub fn create_item(&mut self, title: &str) -> (r: Result<WorkItem, FsError>)
        requires
            old(self).wf(),
        ensures
            final(self).wf(),
            final(self).root_model() == old(self).root_model(),
            final(self).default_state_model() == old(self).default_state_model(),
            ({
                let rs0 = old(self).records();
                match r {
                    Ok(it) => exists|now: int|
                        #[trigger] created_ok(
                            rs0,
                            final(self).records(),
                            title@,
                            old(self).default_state_model(),
                            now,
                            it@,
                        ),
                    Err(e) => final(self).records() == rs0 && create_err(rs0, title@, e),
                }
            }),
    {
        let now = crate::clock::now_millis();
        let ghost rs0 = self.records();
        let ghost ds = self.default_state_model();
        let r = self.create_item_at(title, now);
        proof {
            if r is Ok {
                assert(created_ok(rs0, self.records(), title@, ds, now as int, (r->Ok_0)@));
            }
        }
        r
    }

    /// Add a comment to an item's history; the snapshot is untouched.
    pub fn add_comment_at(&mut self, uid: &str, message: &str, now: i64) -> (r: Result<
        (),
        FsError,
    >)
        requires
            old(self).wf(),
        ensures
            final(self).wf(),
            ({
                let rs0 = old(self).records();
                match r {
                    Ok(_) => commented_ok(rs0, final(self).records(), uid@, message@, now as int),
                    Err(e) => final(self).records() == rs0 && comment_err(rs0, uid@, e),
                }
            }),
    {
        let slug = match Self::slug_from_uid(uid) {
            Ok(s) => s,
            Err(e) => {
                return Err(e);
            },
        };
        let i = match self.find_record(slug.as_str()) {
            Some(i) => i,
            None => {
                return Err(FsError::ItemNotFound(uid.to_owned()));
            },
        };
        let ghost rs0 = self.records();
        let event = WorkEvent::new_at(
            EventType::CommentAdded,
            EventPayload::Comment(crate::event::CommentPayload { message: message.to_owned() }),
            now,
        );
        let ghost ev = event@;
        let mut rec = self.items.remove(i);
        rec.events.push(event);
        self.items.insert(i, rec);
        proof {
            let rs1 = self.records();
            assert forall|j: int| 0 <= j < rs1.len() && j != i implies rs1[j] == rs0[j] by {
                assert(self.items@[j] == old(self).items@[j]);
            }
            assert(rs1[i as int].events =~= rs0[i as int].events.push(ev));
            assert(seq![rs1[i as int].events.last()] =~= seq![ev]);
        }
        Ok(())
    }

    /// Add a comment stamped with the clock's current time: the outcome of
    /// `add_comment_at` at whatever time the clock read. Failure does not
    /// depend on the clock.
    pub fn add_comment(&mut self, uid: &str, message: &str) -> (r: Result<(), FsError>)
        requires
            old(self).wf(),
        ensures
            final(self).wf(),
            ({
                let rs0 = old(self).records();
                match r {
                    Ok(_) => exists|now: int|
                        #[trigger] commented_ok(rs0, final(self).records(), uid@, message@, now),
                    Err(e) => final(self).records() == rs0 && comment_err(rs0, uid@, e),
                }
            }),
    {
        let now = crate::clock::now_millis();
        let ghost rs0 = self.records();
        let r = self.add_comment_at(uid, message, now);
        proof {
            if r is Ok {
                assert(commented_ok(rs0, self.records(), uid@, message@, now as int));
            }
        }
        r
    }
}





/// Whether every item reached by updating is in place: all records but `i`
/// unchanged, record `i` carrying the new snapshot with exactly the derived
/// events appended.
pub open spec fn updated_records(
    rs0: Seq<RecordModel>,
    rs1: Seq<RecordModel>,
    i: int,
    m2: ItemModel,
    expect: Seq<(EventType, PayloadModel)>,
    now: int,
) -> bool {
    &&& rs1.len() == rs0.len()
    &&& (forall|j: int| 0 <= j < rs0.len() && j != i ==> rs1[j] == rs0[j])
    &&& rs1[i].slug == rs0[i].slug
    &&& rs1[i].item == m2
    &&& rs1[i].events.len() == rs0[i].events.len() + expect.len()
    &&& (forall|j: int| 0 <= j < rs0[i].events.len() ==> rs1[i].events[j] == rs0[i].events[j])
    &&& appended_match(
        rs1[i].events.subrange(rs0[i].events.len() as int, rs1[i].events.len() as int),
        expect,
        now,
    )
}

/// A successful batched update: the uid names an existing record, the set
/// operations all applied to its document in order, the result read back as
/// an item with the uid unchanged, and record `i` now carries that snapshot
/// stamped at `now`, with exactly the derived events appended.
pub open spec fn update_ok(
    rs0: Seq<RecordModel>,
    rs1: Seq<RecordModel>,
    uid: Seq<char>,
    ops: Seq<(Seq<char>, SpecValue)>,
    now: int,
    it: ItemModel,
) -> bool {
    uid_slug(uid) matches Some(slug) && ({
        let i = find_slug(rs0, slug);
        let m0 = rs0[i].item;
        &&& i >= 0
        &&& apply_ops(item_doc(m0), ops) matches Some(d1)
        &&& parse_item(d1) matches Some(m1)
        &&& m1.uid == m0.uid
        &&& it == stamped(m1, now)
        &&& updated_records(
            rs0,
            rs1,
            i,
            stamped(m1, now),
            events_for(spec_diff(item_doc(m0), item_doc(stamped(m1, now)))),
            now,
        )
    })
}

/// Why a batched update failed, if and only if: an invalid uid, an unknown
/// item, an unresolvable path, a document that no longer reads back as an
/// item, or an operation that renamed the uid. None of these depends on the
/// clock.
pub open spec fn update_err(
    rs0: Seq<RecordModel>,
    uid: Seq<char>,
    ops: Seq<(Seq<char>, SpecValue)>,
    e: FsError,
) -> bool {
    match uid_slug(uid) {
        None => e is InvalidUid,
        Some(slug) => {
            let i = find_slug(rs0, slug);
            if i == -1 {
                e is ItemNotFound
            } else {
                let m0 = rs0[i].item;
                match apply_ops(item_doc(m0), ops) {
                    None => e matches FsError::Core(c) && c is InvalidPath,
                    Some(d1) => match parse_item(d1) {
                        None => e is Serialization,
                        Some(m1) => m1.uid != m0.uid && (e matches FsError::Core(c)
                            && c is Validation),
                    },
                }
            }
        },
    }
}

/// The document a merge patch produces before it is read back: the merged
/// document (a null result coerced to an empty object) with `updated_at`
/// rebound to `now`; `None` when the merge result is a non-object that the
/// stamp cannot be bound into.
pub open spec fn patch_doc(d0: SpecValue, patch: SpecValue, now: int) -> Option<SpecValue> {
    let merged = crate::patch::spec_merge(d0, patch);
    let coerced = if merged is Null {
        SpecValue::Object(Seq::empty())
    } else {
        merged
    };
    spec_set(coerced, path_segments("updated_at"@), SpecValue::Int(now))
}

/// A successful merge patch: the uid names an existing record, the stamped
/// merge result read back as an item with the uid unchanged, and record `i`
/// now carries that snapshot, with exactly the events derived from the old
/// document against the stamped merge result appended.
pub open spec fn patch_ok(
    rs0: Seq<RecordModel>,
    rs1: Seq<RecordModel>,
    uid: Seq<char>,
    patch: SpecValue,
    now: int,
    it: ItemModel,
) -> bool {
    uid_slug(uid) matches Some(slug) && ({
        let i = find_slug(rs0, slug);
        let m0 = rs0[i].item;
        &&& i >= 0
        &&& patch_doc(item_doc(m0), patch, now) matches Some(d2)
        &&& parse_item(d2) matches Some(m1)
        &&& m1.uid == m0.uid
        &&& it == stamped(m1, now)
        &&& updated_records(
            rs0,
            rs1,
            i,
            stamped(m1, now),
            events_for(spec_diff(item_doc(m0), d2)),
            now,
        )
    })
}

/// Why a merge patch failed, if and only if: an invalid uid, an unknown
/// item, a non-object merge result that the stamp cannot be bound into, a
/// stamped result that no longer reads back as an item, or a patch that
/// renamed the uid. The conditions are stated against a zero stamp; the
/// outcome of reading back does not depend on the stamp's value.
pub open spec fn patch_err(
    rs0: Seq<RecordModel>,
    uid: Seq<char>,
    patch: SpecValue,
    e: FsError,
) -> bool {
    match uid_slug(uid) {
        None => e is InvalidUid,
        Some(slug) => {
            let i = find_slug(rs0, slug);
            if i == -1 {
                e is ItemNotFound
            } else {
                let m0 = rs0[i].item;
                match patch_doc(item_doc(m0), patch, 0) {
                    None => e matches FsError::Core(c) && c is InvalidPath,
                    Some(d2) => match parse_item(d2) {
                        None => e is Serialization,
                        Some(m1) => m1.uid != m0.uid && (e matches FsError::Core(c)
                            && c is Validation),
                    },
                }
            }
        },
    }
}

/// A successful creation at `now`: the fresh record stands behind the
/// existing ones, opened by exactly one creation event.
pub open spec fn created_ok(
    rs0: Seq<RecordModel>,
    rs1: Seq<RecordModel>,
    title: Seq<char>,
    default_state: Seq<char>,
    now: int,
    it: ItemModel,
) -> bool {
    let slug = slug_of(title);
    &&& slug.len() > 0
    &&& find_slug(rs0, slug) == -1
    &&& it == (ItemModel {
        uid: "fs:"@ + slug,
        title,
        state: default_state,
        assignee: None,
        labels: Seq::empty(),
        created_at: now,
        updated_at: now,
        fields: Seq::empty(),
    })
    &&& rs1.len() == rs0.len() + 1
    &&& (forall|j: int| 0 <= j < rs0.len() ==> rs1[j] == rs0[j])
    &&& rs1.last().slug == slug
    &&& rs1.last().item == it
    &&& appended_match(
        rs1.last().events,
        seq![(EventType::Created, PayloadModel::Comment { message: "Created: "@ + title })],
        now,
    )
}

/// Why a creation failed, if and only if: the title slugs to nothing, or
/// the slug is already taken.
pub open spec fn create_err(rs0: Seq<RecordModel>, title: Seq<char>, e: FsError) -> bool {
    let slug = slug_of(title);
    &&& (slug.len() == 0 ==> e is InvalidSlug)
    &&& (slug.len() > 0 ==> find_slug(rs0, slug) >= 0 && e is ItemExists)
}

/// A successful comment at `now`: the one named record gained exactly one
/// comment event, its snapshot untouched.
pub open spec fn commented_ok(
    rs0: Seq<RecordModel>,
    rs1: Seq<RecordModel>,
    uid: Seq<char>,
    message: Seq<char>,
    now: int,
) -> bool {
    uid_slug(uid) matches Some(slug) && ({
        let i = find_slug(rs0, slug);
        &&& i >= 0
        &&& rs1.len() == rs0.len()
        &&& (forall|j: int| 0 <= j < rs0.len() && j != i ==> rs1[j] == rs0[j])
        &&& rs1[i].slug == rs0[i].slug
        &&& rs1[i].item == rs0[i].item
        &&& rs1[i].events.len() == rs0[i].events.len() + 1
        &&& (forall|j: int| 0 <= j < rs0[i].events.len() ==> rs1[i].events[j] == rs0[i].events[j])
        &&& appended_match(
            seq![rs1[i].events.last()],
            seq![(EventType::CommentAdded, PayloadModel::Comment { message })],
            now,
        )
    })
}

/// Why a comment failed, if and only if: an invalid uid or an unknown item.
pub open spec fn comment_err(rs0: Seq<RecordModel>, uid: Seq<char>, e: FsError) -> bool {
    match uid_slug(uid) {
        None => e is InvalidUid,
        Some(slug) => find_slug(rs0, slug) == -1 && e is ItemNotFound,
    }
}

/// The dotted stamp path is the single segment `updated_at`.
proof fn lemma_updated_at_segments()
    ensures
        path_segments("updated_at"@) == seq!["updated_at"@],
{
    reveal_strlit("updated_at");
    assert("updated_at"@.len() == 10);
    assert(forall|j: int| 0 <= j < "updated_at"@.len() ==> "updated_at"@[j] != '.');
    crate::text::lemma_find_char_none("updated_at"@, '.');
    assert(crate::text::split_on("updated_at"@, '.') =~= seq!["updated_at"@]);
}

/// Whether a stamped merge result reads back as an item — and which uid it
/// carries — does not depend on the stamp's value.
proof fn lemma_stamp_agnostic(coerced: SpecValue, n1: int, n2: int)
    requires
        coerced is Object,
    ensures
        ({
            let da = spec_set(coerced, path_segments("updated_at"@), SpecValue::Int(n1));
            let db = spec_set(coerced, path_segments("updated_at"@), SpecValue::Int(n2));
            &&& da is Some
            &&& db is Some
            &&& (parse_item(da->Some_0) is Some <==> parse_item(db->Some_0) is Some)
            &&& (parse_item(da->Some_0) matches Some(ma) ==> parse_item(db->Some_0) matches Some(
                mb,
            ) && ma.uid == mb.uid)
        }),
{
    lemma_updated_at_segments();
    lemma_doc_keys_distinct();
    let o = coerced->Object_0;
    let p = seq!["updated_at"@];
    assert(p.len() == 1 && p[0] == "updated_at"@);
    let oa = crate::value::obj_put(o, "updated_at"@, SpecValue::Int(n1));
    let ob = crate::value::obj_put(o, "updated_at"@, SpecValue::Int(n2));
    assert(spec_set(coerced, p, SpecValue::Int(n1)) == Some(SpecValue::Object(oa)));
    assert(spec_set(coerced, p, SpecValue::Int(n2)) == Some(SpecValue::Object(ob)));
    crate::value::lemma_obj_put_at(o, "updated_at"@, SpecValue::Int(n1), "updated_at"@);
    crate::value::lemma_obj_put_at(o, "updated_at"@, SpecValue::Int(n2), "updated_at"@);
    crate::value::lemma_obj_put_at(o, "updated_at"@, SpecValue::Int(n1), "uid"@);
    crate::value::lemma_obj_put_at(o, "updated_at"@, SpecValue::Int(n2), "uid"@);
    crate::value::lemma_obj_put_at(o, "updated_at"@, SpecValue::Int(n1), "title"@);
    crate::value::lemma_obj_put_at(o, "updated_at"@, SpecValue::Int(n2), "title"@);
    crate::value::lemma_obj_put_at(o, "updated_at"@, SpecValue::Int(n1), "state"@);
    crate::value::lemma_obj_put_at(o, "updated_at"@, SpecValue::Int(n2), "state"@);
    crate::value::lemma_obj_put_at(o, "updated_at"@, SpecValue::Int(n1), "assignee"@);
    crate::value::lemma_obj_put_at(o, "updated_at"@, SpecValue::Int(n2), "assignee"@);
    crate::value::lemma_obj_put_at(o, "updated_at"@, SpecValue::Int(n1), "labels"@);
    crate::value::lemma_obj_put_at(o, "updated_at"@, SpecValue::Int(n2), "labels"@);
    crate::value::lemma_obj_put_at(o, "updated_at"@, SpecValue::Int(n1), "created_at"@);
    crate::value::lemma_obj_put_at(o, "updated_at"@, SpecValue::Int(n2), "created_at"@);
    crate::value::lemma_obj_put_at(o, "updated_at"@, SpecValue::Int(n1), "fields"@);
    crate::value::lemma_obj_put_at(o, "updated_at"@, SpecValue::Int(n2), "fields"@);
}

impl Workspace {
    /// Replace the snapshot of record `i` and append the given events.
    fn commit(&mut self, i: usize, item: WorkItem, events: Vec<WorkEvent>)
        requires
            i < old(self).records().len(),
        ensures
            final(self).records().len() == old(self).records().len(),
            forall|j: int|
                0 <= j < old(self).records().len() && j != i ==> final(self).records()[j] == old(
                    self,
                ).records()[j],
            final(self).records()[i as int].slug == old(self).records()[i as int].slug,
            final(self).records()[i as int].item == item@,
            final(self).records()[i as int].events =~= old(self).records()[i as int].events
                + events@.map_values(|e: WorkEvent| e@),
    {
        let ghost rs0 = self.records();
        let mut rec = self.items.remove(i);
        rec.item = item;
        let mut evs = events;
        rec.events.append(&mut evs);
        self.items.insert(i, rec);
        proof {
            let rs1 = self.records();
            assert forall|j: int| 0 <= j < rs0.len() && j != i implies rs1[j] == rs0[j] by {
                assert(self.items@[j] == old(self).items@[j]);
            }
            assert(rs1[i as int].events =~= rs0[i as int].events + events@.map_values(
                |e: WorkEvent| e@,
            ));
        }
    }

    /// Apply a batch of set operations to an item: the snapshot becomes the
    /// document after all operations, read back as an item and stamped at
    /// `now`; one typed event per changed path (`updated_at` aside) is
    /// appended, in the differ's order. Nothing changes when any step fails:
    /// an invalid uid, an unknown item, an unresolvable path, a document
    /// that no longer reads back as an item, or an operation that renamed
    /// the uid.
    pub fn update_item_at(&mut self, uid: &str, operations: &Vec<SetOperation>, now: i64) -> (r:
        Result<WorkItem, FsError>)
        requires
            old(self).wf(),
            forall|k: int| 0 <= k < operations@.len() ==> wf((#[trigger] operations@[k]).value@),
        ensures
            final(self).wf(),
            ({
                let rs0 = old(self).records();
                match r {
                    Ok(it) => update_ok(
                        rs0,
                        final(self).records(),
                        uid@,
                        ops_model(operations@),
                        now as int,
                        it@,
                    ),
                    Err(e) => final(self).records() == rs0 && update_err(
                        rs0,
                        uid@,
                        ops_model(operations@),
                        e,
                    ),
                }
            }),
    {
        let slug = match Self::slug_from_uid(uid) {
            Ok(s) => s,
            Err(e) => {
                return Err(e);
            },
        };
        let i = match self.find_record(slug.as_str()) {
            Some(i) => i,
            None => {
                return Err(FsError::ItemNotFound(uid.to_owned()));
            },
        };
        let ghost rs0 = self.records();
        let ghost m0 = rs0[i as int].item;
        let base_doc = crate::item::item_to_doc(&self.items[i].item);
        let mut doc = value_clone(&base_doc);
        let n = operations.len();
        let ghost opsm = ops_model(operations@);
        proof {
            assert(opsm.subrange(0, n as int) =~= opsm);
            assert(apply_ops(doc@, opsm.subrange(0, 0)) == Some(doc@));
        }
        let mut k: usize = 0;
        while k < n
            invariant
                0 <= k <= n,
                n == operations@.len(),
                opsm == ops_model(operations@),
                opsm.len() == n,
                forall|t: int|
                    0 <= t < n ==> opsm[t] == (operations@[t].path@, operations@[t].value@),
                apply_ops(item_doc(m0), opsm) == apply_ops(doc@, opsm.subrange(k as int, n as int)),
                self == old(self),
                old(self).wf(),
                rs0 == old(self).records(),
                uid_slug(uid@) == Some(slug@),
                0 <= i < rs0.len(),
                find_slug(rs0, slug@) == i as int,
                m0 == rs0[i as int].item,
            decreases n - k,
        {
            let ghost rest = opsm.subrange(k as int, n as int);
            proof {
                assert(rest[0] == opsm[k as int]);
                assert(rest.drop_first() =~= opsm.subrange(k + 1, n as int));
            }
            match apply_set_operation(&mut doc, &operations[k]) {
                Ok(_) => {},
                Err(e) => {
                    return Err(FsError::Core(e));
                },
            }
            k = k + 1;
        }
        proof {
            assert(opsm.subrange(n as int, n as int) =~= Seq::<(Seq<char>, SpecValue)>::empty());
        }
        let mut new_item = match crate::item::item_from_doc(&doc) {
            Ok(it) => it,
            Err(e) => {
                return Err(e);
            },
        };
        if !crate::text::str_eq(new_item.uid.as_str(), self.items[i].item.uid.as_str()) {
            return Err(
                FsError::Core(
                    CoreError::Validation(String::from_str("the uid of an item never changes")),
                ),
            );
        }
        new_item.touch_at(now);
        let new_doc = crate::item::item_to_doc(&new_item);
        let changes = diff_values(&base_doc, &new_doc);
        let ghost cs = spec_diff(base_doc@, new_doc@);
        let events = events_from_changes(&changes, Ghost(cs), now);
        let out = item_clone(&new_item);
        proof {
            lemma_item_doc_wf(m0);
            lemma_apply_ops_wf(item_doc(m0), opsm);
            lemma_parse_item_wf(doc@);
        }
        self.commit(i, new_item, events);
        proof {
            assert(final(self).records()[i as int].events.subrange(
                rs0[i as int].events.len() as int,
                final(self).records()[i as int].events.len() as int,
            ) =~= events@.map_values(|e: WorkEvent| e@));
            assert(final(self).wf()) by {
                lemma_uid_roundtrip(rs0[i as int].slug);
                assert forall|a: int, b: int|
                    0 <= a < b < final(self).records().len() implies final(self).records()[a].slug
                    != final(self).records()[b].slug by {
                    assert(rs0[a].slug != rs0[b].slug);
                    assert(final(self).records()[a].slug == rs0[a].slug);
                    assert(final(self).records()[b].slug == rs0[b].slug);
                }
                assert forall|a: int| 0 <= a < final(self).records().len() implies item_wf(
                    (#[trigger] final(self).records()[a]).item,
                ) && final(self).records()[a].item.uid == "fs:"@ + final(self).records()[a].slug
                    by {
                    if a != i {
                        assert(final(self).records()[a] == rs0[a]);
                    }
                }
            }
        }
        Ok(out)
    }

    /// Apply a batch of set operations, stamped with the clock's time: the
    /// outcome of `update_item_at` at whatever time the clock read. Failure
    /// does not depend on the clock, so the error cases are exactly those of
    /// the stamped form.
    pub fn update_item(&mut self, uid: &str, operations: &Vec<SetOperation>) -> (r: Result<
        WorkItem,
        FsError,
    >)
        requires
            old(self).wf(),
            forall|k: int| 0 <= k < operations@.len() ==> wf((#[trigger] operations@[k]).value@),
        ensures
            final(self).wf(),
            ({
                let rs0 = old(self).records();
                match r {
                    Ok(it) => exists|now: int|
                        #[trigger] update_ok(
                            rs0,
                            final(self).records(),
                            uid@,
                            ops_model(operations@),
                            now,
                            it@,
                        ),
                    Err(e) => final(self).records() == rs0 && update_err(
                        rs0,
                        uid@,
                        ops_model(operations@),
                        e,
                    ),
                }
            }),
    {
        let now = crate::clock::now_millis();
        let ghost rs0 = self.records();
        let r = self.update_item_at(uid, operations, now);
        proof {
            if r is Ok {
                assert(update_ok(
                    rs0,
                    self.records(),
                    uid@,
                    ops_model(operations@),
                    now as int,
                    (r->Ok_0)@,
                ));
            }
        }
        r
    }

    /// Apply an RFC 7396 merge patch to an item: the snapshot becomes the
    /// merged document with `updated_at` rebound to `now`, read back as an
    /// item (and never stamped before its creation); one typed event per
    /// changed path (`updated_at` aside) is appended. Nothing changes when a
    /// step fails.
    pub fn patch_item_at(&mut self, uid: &str, patch: &DocValue, now: i64) -> (r: Result<
        WorkItem,
        FsError,
    >)
        requires
            old(self).wf(),
            wf(patch@),
        ensures
            final(self).wf(),
            ({
                let rs0 = old(self).records();
                match r {
                    Ok(it) => patch_ok(rs0, final(self).records(), uid@, patch@, now as int, it@),
                    Err(e) => final(self).records() == rs0 && patch_err(rs0, uid@, patch@, e),
                }
            }),
    {
        let slug = match Self::slug_from_uid(uid) {
            Ok(s) => s,
            Err(e) => {
                return Err(e);
            },
        };
        let i = match self.find_record(slug.as_str()) {
            Some(i) => i,
            None => {
                return Err(FsError::ItemNotFound(uid.to_owned()));
            },
        };
        let ghost rs0 = self.records();
        let ghost m0 = rs0[i as int].item;
        let base_doc = crate::item::item_to_doc(&self.items[i].item);
        let mut doc = value_clone(&base_doc);
        apply_merge_patch(&mut doc, patch);
        if doc.is_null() {
            doc = DocValue::Object(Vec::new());
            proof {
                assert(crate::value::obj_entries_view(Seq::<(String, DocValue)>::empty())
                    =~= Seq::<(Seq<char>, SpecValue)>::empty());
            }
        }
        let ghost merged = crate::patch::spec_merge(item_doc(m0), patch@);
        let ghost coerced = if merged is Null {
            SpecValue::Object(Seq::empty())
        } else {
            merged
        };
        proof {
            assert(doc@ == coerced);
        }
        let stamp_op = SetOperation::new(String::from_str("updated_at"), DocValue::Int(now));
        match apply_set_operation(&mut doc, &stamp_op) {
            Ok(_) => {},
            Err(e) => {
                proof {
                    crate::patch::lemma_set_same_domain(
                        coerced,
                        path_segments("updated_at"@),
                        SpecValue::Int(now as int),
                        SpecValue::Int(0),
                    );
                }
                return Err(FsError::Core(e));
            },
        }
        proof {
            assert(coerced is Object) by {
                if !(coerced is Object) {
                    assert(spec_set(
                        coerced,
                        path_segments("updated_at"@),
                        SpecValue::Int(now as int),
                    ) is None) by {
                        lemma_updated_at_segments();
                    }
                }
            }
            lemma_stamp_agnostic(coerced, now as int, 0);
        }
        let mut new_item = match crate::item::item_from_doc(&doc) {
            Ok(it) => it,
            Err(e) => {
                return Err(e);
            },
        };
        if !crate::text::str_eq(new_item.uid.as_str(), self.items[i].item.uid.as_str()) {
            return Err(
                FsError::Core(
                    CoreError::Validation(String::from_str("the uid of an item never changes")),
                ),
            );
        }
        new_item.touch_at(now);
        let changes = diff_values(&base_doc, &doc);
        let ghost cs = spec_diff(base_doc@, doc@);
        let events = events_from_changes(&changes, Ghost(cs), now);
        let out = item_clone(&new_item);
        proof {
            lemma_item_doc_wf(m0);
            crate::patch::lemma_merge_wf(item_doc(m0), patch@);
            let merged = crate::patch::spec_merge(item_doc(m0), patch@);
            let coerced = if merged is Null {
                SpecValue::Object(Seq::empty())
            } else {
                merged
            };
            assert(wf(coerced));
            crate::patch::lemma_set_wf(
                coerced,
                path_segments("updated_at"@),
                SpecValue::Int(now as int),
            );
            lemma_parse_item_wf(doc@);
        }
        self.commit(i, new_item, events);
        proof {
            assert(final(self).records()[i as int].events.subrange(
                rs0[i as int].events.len() as int,
                final(self).records()[i as int].events.len() as int,
            ) =~= events@.map_values(|e: WorkEvent| e@));
            assert(final(self).wf()) by {
                assert forall|a: int, b: int|
                    0 <= a < b < final(self).records().len() implies final(self).records()[a].slug
                    != final(self).records()[b].slug by {
                    assert(rs0[a].slug != rs0[b].slug);
                    assert(final(self).records()[a].slug == rs0[a].slug);
                    assert(final(self).records()[b].slug == rs0[b].slug);
                }
                assert forall|a: int| 0 <= a < final(self).records().len() implies item_wf(
                    (#[trigger] final(self).records()[a]).item,
                ) && final(self).records()[a].item.uid == "fs:"@ + final(self).records()[a].slug
                    by {
                    if a != i {
                        assert(final(self).records()[a] == rs0[a]);
                    }
                }
            }
        }
        Ok(out)
    }

    /// Apply a merge patch, stamped with the clock's time: the outcome of
    /// `patch_item_at` at whatever time the clock read. Failure does not
    /// depend on the clock, so the error cases are exactly those of the
    /// stamped form.
    pub fn patch_item(&mut self, uid: &str, patch: &DocValue) -> (r: Result<WorkItem, FsError>)
        requires
            old(self).wf(),
            wf(patch@),
        ensures
            final(self).wf(),
            ({
                let rs0 = old(self).records();
                match r {
                    Ok(it) => exists|now: int|
                        #[trigger] patch_ok(rs0, final(self).records(), uid@, patch@, now, it@),
                    Err(e) => final(self).records() == rs0 && patch_err(rs0, uid@, patch@, e),
                }
            }),
    {
        let now = crate::clock::now_millis();
        let ghost rs0 = self.records();
        let r = self.patch_item_at(uid, patch, now);
        proof {
            if r is Ok {
                assert(patch_ok(rs0, self.records(), uid@, patch@, now as int, (r->Ok_0)@));
            }
        }
        r
    }
}


/// Sorted by update time, newest first.
pub open spec fn sorted_desc(ms: Seq<ItemModel>) -> bool {
    forall|a: int, b: int| 0 <= a < b < ms.len() ==> ms[a].updated_at >= ms[b].updated_at
}

proof fn lemma_insert_multiset(s: Seq<ItemModel>, j: int, x: ItemModel)
    requires
        0 <= j <= s.len(),
    ensures
        s.insert(j, x).to_multiset() =~= s.to_multiset().insert(x),
{
    broadcast use vstd::seq_lib::group_to_multiset_ensures;

    let a = s.subrange(0, j);
    let b = s.subrange(j, s.len() as int);
    assert(s.insert(j, x) == a.push(x) + b);
    vstd::seq_lib::lemma_multiset_commutative(a.push(x), b);
    vstd::seq_lib::lemma_multiset_commutative(a, b);
    assert(a.push(x).to_multiset() =~= a.to_multiset().insert(x));
    assert(a + b =~= s);
}

/// Insert an item into a list kept sorted newest-first.
fn insert_sorted(out: &mut Vec<WorkItem>, x: WorkItem)
    requires
        sorted_desc(old(out)@.map_values(|it: WorkItem| it@)),
    ensures
        sorted_desc(final(out)@.map_values(|it: WorkItem| it@)),
        final(out)@.map_values(|it: WorkItem| it@).to_multiset() =~= old(out)@.map_values(
            |it: WorkItem| it@,
        ).to_multiset().insert(x@),
{
    let n = out.len();
    let ghost ms0 = out@.map_values(|it: WorkItem| it@);
    let mut j: usize = 0;
    while j < n && out[j].updated_at >= x.updated_at
        invariant
            0 <= j <= n,
            n == out@.len(),
            out@ == old(out)@,
            ms0 == out@.map_values(|it: WorkItem| it@),
            forall|t: int| 0 <= t < j ==> ms0[t].updated_at >= x@.updated_at,
        decreases n - j,
    {
        j = j + 1;
    }
    let ghost xm = x@;
    out.insert(j, x);
    proof {
        let ms1 = out@.map_values(|it: WorkItem| it@);
        assert(ms1 =~= ms0.insert(j as int, xm));
        ms0.insert_ensures(j as int, xm);
        lemma_insert_multiset(ms0, j as int, xm);
        assert(sorted_desc(ms0));
        assert(j < n ==> ms0[j as int].updated_at < xm.updated_at);
        assert forall|a: int, b: int| 0 <= a < b < ms1.len() implies ms1[a].updated_at
            >= ms1[b].updated_at by {
            if a < j && b < j {
                assert(ms1[a] == ms0[a] && ms1[b] == ms0[b]);
            } else if a < j && b == j {
                assert(ms1[a] == ms0[a]);
            } else if a < j && b > j {
                assert(ms1[a] == ms0[a] && ms1[b] == ms0[b - 1]);
                assert(ms0[a].updated_at >= xm.updated_at);
                assert(j < n);
                assert(ms0[a].updated_at >= ms0[b - 1].updated_at) by {
                    if a < b - 1 {
                    } else {
                        assert(a == b - 1);
                    }
                }
            } else if a == j {
                assert(ms1[b] == ms0[b - 1]);
                assert(b - 1 >= j);
                assert(j < n);
                assert(ms0[j as int].updated_at < xm.updated_at);
                assert(ms0[b - 1].updated_at <= ms0[j as int].updated_at) by {
                    if j < b - 1 {
                    }
                }
            } else {
                assert(ms1[a] == ms0[a - 1] && ms1[b] == ms0[b - 1]);
            }
        }
    }
}

impl Workspace {
    /// List the items, newest update first, keeping those that pass the
    /// filter (all of them when no filter is given). The result holds
    /// exactly the matching snapshots.
    pub fn list_items(&self, filter: Option<&ItemFilter>) -> (r: Vec<WorkItem>)
        ensures
            ({
                let selected = self.records().map_values(|rec: RecordModel| rec.item).filter(
                    |m: ItemModel|
                        match filter {
                            Some(f) => spec_matches(f@, m),
                            None => true,
                        },
                );
                let out = r@.map_values(|it: WorkItem| it@);
                out.to_multiset() == selected.to_multiset() && sorted_desc(out)
            }),
    {
        let ghost pred = |m: ItemModel|
            match filter {
                Some(f) => spec_matches(f@, m),
                None => true,
            };
        let ghost all = self.records().map_values(|rec: RecordModel| rec.item);
        let n = self.items.len();
        let mut out: Vec<WorkItem> = Vec::new();
        proof {
            broadcast use vstd::seq_lib::group_to_multiset_ensures;

            reveal(Seq::filter);
            assert(all.subrange(0, 0) =~= Seq::<ItemModel>::empty());
            assert(all.subrange(0, 0).filter(pred) =~= Seq::<ItemModel>::empty());
            assert(out@.map_values(|it: WorkItem| it@) =~= Seq::<ItemModel>::empty());
            assert(out@.map_values(|it: WorkItem| it@).to_multiset() =~= Seq::<
                ItemModel,
            >::empty().to_multiset());
        }
        let mut k: usize = 0;
        while k < n
            invariant
                0 <= k <= n,
                n == self.items@.len(),
                all == self.records().map_values(|rec: RecordModel| rec.item),
                all.len() == n,
                forall|t: int| 0 <= t < n ==> all[t] == self.items@[t].item@,
                pred == (|m: ItemModel|
                    match filter {
                        Some(f) => spec_matches(f@, m),
                        None => true,
                    }),
                sorted_desc(out@.map_values(|it: WorkItem| it@)),
                out@.map_values(|it: WorkItem| it@).to_multiset() =~= all.subrange(
                    0,
                    k as int,
                ).filter(pred).to_multiset(),
            decreases n - k,
        {
            let ghost prefix = all.subrange(0, k as int);
            proof {
                broadcast use vstd::seq_lib::group_to_multiset_ensures;

                reveal(Seq::filter);
                assert(all.subrange(0, k + 1) =~= prefix.push(all[k as int]));
                assert(prefix.push(all[k as int]).drop_last() =~= prefix);
                assert(prefix.push(all[k as int]).last() == all[k as int]);
            }
            let keep = match filter {
                Some(f) => f.matches(&self.items[k].item),
                None => true,
            };
            if keep {
                let c = item_clone(&self.items[k].item);
                insert_sorted(&mut out, c);
            }
            k = k + 1;
        }
        proof {
            assert(all.subrange(0, n as int) =~= all);
        }
        out
    }
}


impl Workspace {
    /// Decide whether a snapshot is internally consistent: update stamp not
    /// before creation, extension fields a well-formed object.
    pub fn check_item(item: &WorkItem) -> (r: bool)
        ensures
            r == item_wf(item@),
    {
        if item.updated_at < item.created_at {
            return false;
        }
        let n = item.fields.len();
        proof {
            crate::value::lemma_obj_entries_view(item.fields@);
        }
        let ghost eo = crate::value::obj_entries_view(item.fields@);
        let mut i: usize = 0;
        while i < n
            invariant
                0 <= i <= n,
                n == item.fields@.len(),
                eo == crate::value::obj_entries_view(item.fields@),
                eo.len() == n,
                forall|t: int|
                    0 <= t < n ==> eo[t] == (item.fields@[t].0@, crate::value::value_view(
                        item.fields@[t].1,
                    )),
                forall|j: int, t: int| 0 <= j < t < n && t < i ==> eo[j].0 != eo[t].0,
                forall|j: int| 0 <= j < i ==> wf((#[trigger] eo[j]).1),
            decreases n - i,
        {
            let mut j: usize = 0;
            while j < i
                invariant
                    0 <= j <= i < n,
                    n == item.fields@.len(),
                    eo == crate::value::obj_entries_view(item.fields@),
                    eo.len() == n,
                    forall|t: int|
                        0 <= t < n ==> eo[t] == (item.fields@[t].0@, crate::value::value_view(
                            item.fields@[t].1,
                        )),
                    forall|t: int| 0 <= t < j ==> item.fields@[t].0@ != item.fields@[i as int].0@,
                decreases i - j,
            {
                if item.fields[j].0 == item.fields[i].0 {
                    proof {
                        assert(eo[j as int].0 == eo[i as int].0);
                        assert(!crate::value::keys_unique(eo));
                    }
                    return false;
                }
                j = j + 1;
            }
            if !crate::value::check_wf(&item.fields[i].1) {
                proof {
                    if crate::value::wf_entries(eo) {
                        crate::value::lemma_wf_entries(eo);
                        assert(wf(eo[i as int].1));
                    }
                }
                return false;
            }
            i = i + 1;
        }
        proof {
            crate::value::lemma_wf_entries_all(eo);
            assert(crate::value::keys_unique(eo));
        }
        true
    }

    /// Bring a stored record back into the workspace, as persistence hands
    /// it in. The record is refused when its uid does not carry the `fs:`
    /// tag, when its slug is already present, or when the snapshot is not
    /// internally consistent; the events are taken as given.
    pub fn insert_record(&mut self, item: WorkItem, events: Vec<WorkEvent>) -> (r: Result<
        (),
        FsError,
    >)
        requires
            old(self).wf(),
        ensures
            final(self).wf(),
            ({
                let rs0 = old(self).records();
                match r {
                    Ok(_) => uid_slug(item@.uid) matches Some(slug) && find_slug(rs0, slug) == -1
                        && item_wf(item@) && final(self).records() =~= rs0.push(
                        RecordModel {
                            slug,
                            item: item@,
                            events: events@.map_values(|e: WorkEvent| e@),
                        },
                    ),
                    Err(_) => final(self).records() == rs0 && (uid_slug(item@.uid) is None
                        || find_slug(rs0, uid_slug(item@.uid)->Some_0) >= 0 || !item_wf(item@)),
                }
            }),
    {
        let slug = match Self::slug_from_uid(item.uid.as_str()) {
            Ok(s) => s,
            Err(e) => {
                return Err(e);
            },
        };
        if self.find_record(slug.as_str()).is_some() {
            return Err(FsError::ItemExists(item.uid.clone()));
        }
        if !Self::check_item(&item) {
            return Err(
                FsError::Serialization(String::from_str("the snapshot is not consistent")),
            );
        }
        let ghost rs0 = self.records();
        proof {
            lemma_find_slug(rs0, slug@);
            assert(item@.uid.subrange(0, 3) == "fs:"@);
            assert(item@.uid =~= "fs:"@ + slug@);
        }
        let rec = ItemRecord { slug, item, events };
        let ghost recv = rec@;
        self.items.push(rec);
        proof {
            assert(self.records() =~= rs0.push(recv));
            assert forall|i: int, j: int|
                0 <= i < j < self.records().len() implies self.records()[i].slug
                != self.records()[j].slug by {
                if j == rs0.len() {
                    assert(rs0[i].slug != recv.slug);
                }
            }
        }
        Ok(())
    }
}


/// No key of a snapshot document other than `state` is a prefix of
/// `state`.
#[verifier::spinoff_prover]
proof fn lemma_doc_keys_not_state_prefix()
    ensures
        !crate::diff::starts_with("state"@, "uid"@),
        !crate::diff::starts_with("state"@, "title"@),
        !crate::diff::starts_with("state"@, "assignee"@),
        !crate::diff::starts_with("state"@, "labels"@),
        !crate::diff::starts_with("state"@, "created_at"@),
        !crate::diff::starts_with("state"@, "updated_at"@),
        !crate::diff::starts_with("state"@, "fields"@),
        "state"@ != "updated_at"@,
        "state"@.len() == 5,
        "uid"@.len() == 3 && "title"@.len() == 5 && "assignee"@.len() == 8,
        "labels"@.len() == 6 && "fields"@.len() == 6,
        "created_at"@.len() == 10 && "updated_at"@.len() == 10,
{
    reveal_strlit("state");
    reveal_strlit("uid");
    reveal_strlit("title");
    reveal_strlit("assignee");
    reveal_strlit("labels");
    reveal_strlit("created_at");
    reveal_strlit("updated_at");
    reveal_strlit("fields");
    assert("state"@.len() == 5 && "uid"@.len() == 3 && "title"@.len() == 5);
    assert("assignee"@.len() == 8 && "labels"@.len() == 6 && "fields"@.len() == 6);
    assert("created_at"@.len() == 10 && "updated_at"@.len() == 10);
    assert("state"@[0] == 's' && "uid"@[0] == 'u' && "title"@[0] == 't');
    assert(!crate::diff::starts_with("state"@, "uid"@)) by {
        if crate::diff::starts_with("state"@, "uid"@) {
            assert("state"@.subrange(0, 3)[0] == "uid"@[0]);
            assert("state"@.subrange(0, 3)[0] == "state"@[0]);
        }
    }
    assert(!crate::diff::starts_with("state"@, "title"@)) by {
        if crate::diff::starts_with("state"@, "title"@) {
            assert("state"@.subrange(0, 5)[0] == "title"@[0]);
            assert("state"@.subrange(0, 5)[0] == "state"@[0]);
        }
    }
}

/// Whether a key may stand at the top of a snapshot document without ever
/// rendering as the `state` path: it is nonempty, and it is `state` itself
/// or no prefix of it.
pub open spec fn state_safe_key(k: Seq<char>) -> bool {
    k.len() >= 1 && (crate::diff::starts_with("state"@, k) ==> k == "state"@)
}

/// No change emitted for these keys renders as the `state` path unless it is
/// the `state` key's own leaf change.
proof fn lemma_adds_no_state(oa: Seq<(Seq<char>, SpecValue)>, obs: Seq<(Seq<char>, SpecValue)>)
    requires
        forall|i: int| 0 <= i < obs.len() ==> state_safe_key((#[trigger] obs[i]).0),
        !crate::diff::key_of(obs, "state"@),
    ensures
        ({
            let cs = crate::diff::diff_adds(oa, obs);
            forall|t: int| 0 <= t < cs.len() ==> render_path((#[trigger] cs[t]).0) != "state"@
        }),
    decreases obs,
{
    let cs = crate::diff::diff_adds(oa, obs);
    if obs.len() == 0 {
        assert(cs =~= Seq::<SpecChange>::empty());
    } else {
        let k = obs[0].0;
        assert(state_safe_key(k));
        assert(k != "state"@) by {
            if k == "state"@ {
                assert(obs[0].0 == "state"@);
            }
        }
        let rest = obs.drop_first();
        assert(forall|i: int| 0 <= i < rest.len() ==> rest[i] == obs[i + 1]);
        assert(!crate::diff::key_of(rest, "state"@)) by {
            if crate::diff::key_of(rest, "state"@) {
                let i = choose|i: int| 0 <= i < rest.len() && rest[i].0 == "state"@;
                assert(obs[i + 1].0 == "state"@);
            }
        }
        lemma_adds_no_state(oa, rest);
        let head = if crate::value::obj_has(oa, k) {
            crate::diff::prefix_all(k, spec_diff(crate::value::obj_get(oa, k), obs[0].1))
        } else {
            seq![(seq![k], None::<SpecValue>, obs[0].1)]
        };
        assert(cs == head + crate::diff::diff_adds(oa, rest));
        assert forall|t: int| 0 <= t < head.len() implies render_path(
            (#[trigger] head[t]).0,
        ) != "state"@ by {
            lemma_head_not_state(oa, k, obs[0].1, head, t);
        }
    }
}

/// One emitted change for a non-`state` key never renders as `state`.
proof fn lemma_head_not_state(
    oa: Seq<(Seq<char>, SpecValue)>,
    k: Seq<char>,
    v: SpecValue,
    head: Seq<SpecChange>,
    t: int,
)
    requires
        state_safe_key(k),
        k != "state"@,
        head == (if crate::value::obj_has(oa, k) {
            crate::diff::prefix_all(k, spec_diff(crate::value::obj_get(oa, k), v))
        } else {
            seq![(seq![k], None::<SpecValue>, v)]
        }),
        0 <= t < head.len(),
    ensures
        render_path(head[t].0) != "state"@,
{
    lemma_doc_keys_not_state_prefix();
    let p = head[t].0;
    assert(p[0] == k && p.len() >= 1) by {
        if crate::value::obj_has(oa, k) {
            assert(head[t] == (
                seq![k] + spec_diff(crate::value::obj_get(oa, k), v)[t].0,
                spec_diff(crate::value::obj_get(oa, k), v)[t].1,
                spec_diff(crate::value::obj_get(oa, k), v)[t].2,
            ));
            assert((seq![k] + spec_diff(crate::value::obj_get(oa, k), v)[t].0)[0] == k);
        } else {
            assert(head[t].0 =~= seq![k]);
        }
    }
    crate::diff::lemma_render_prefix(p);
    if render_path(p) == "state"@ {
        assert(crate::diff::starts_with("state"@, k));
        assert(k == "state"@);
    }
}

/// The changes for the keys of `obs` carry exactly one change rendering as
/// the `state` path when the state text changed, and none when it did not.
proof fn lemma_adds_state(oa: Seq<(Seq<char>, SpecValue)>, obs: Seq<(Seq<char>, SpecValue)>)
    requires
        crate::value::keys_unique(obs),
        forall|i: int| 0 <= i < obs.len() ==> state_safe_key((#[trigger] obs[i]).0),
        crate::value::obj_has(oa, "state"@),
        crate::value::obj_get(oa, "state"@) is Text,
        crate::value::obj_has(obs, "state"@),
        crate::value::obj_get(obs, "state"@) is Text,
    ensures
        ({
            let cs = crate::diff::diff_adds(oa, obs);
            let sv0 = crate::value::obj_get(oa, "state"@);
            let sv2 = crate::value::obj_get(obs, "state"@);
            &&& (sv0 == sv2 ==> forall|t: int|
                0 <= t < cs.len() ==> render_path((#[trigger] cs[t]).0) != "state"@)
            &&& (sv0 != sv2 ==> exists|t: int|
                0 <= t < cs.len() && (#[trigger] cs[t]) == (
                    seq!["state"@],
                    Some(sv0),
                    sv2,
                ) && render_path(cs[t].0) == "state"@ && (forall|t2: int|
                    0 <= t2 < cs.len() && t2 != t ==> render_path((#[trigger] cs[t2]).0)
                        != "state"@))
        }),
    decreases obs,
{
    let cs = crate::diff::diff_adds(oa, obs);
    let sv0 = crate::value::obj_get(oa, "state"@);
    let sv2 = crate::value::obj_get(obs, "state"@);
    assert(obs.len() > 0);
    let k = obs[0].0;
    let v = obs[0].1;
    let rest = obs.drop_first();
    assert(forall|i: int| 0 <= i < rest.len() ==> rest[i] == obs[i + 1]);
    let head = if crate::value::obj_has(oa, k) {
        crate::diff::prefix_all(k, spec_diff(crate::value::obj_get(oa, k), v))
    } else {
        seq![(seq![k], None::<SpecValue>, v)]
    };
    assert(cs == head + crate::diff::diff_adds(oa, rest));
    let tail = crate::diff::diff_adds(oa, rest);
    if k == "state"@ {
        assert(v == sv2);
        assert(v is Text);
        assert(!crate::value::obj_has(rest, "state"@)) by {
            crate::value::lemma_unique_tail(obs);
        }
        assert(!crate::diff::key_of(rest, "state"@)) by {
            crate::value::lemma_obj_index(rest, "state"@);
            if crate::diff::key_of(rest, "state"@) {
                let i = choose|i: int| 0 <= i < rest.len() && rest[i].0 == "state"@;
            }
        }
        lemma_adds_no_state(oa, rest);
        assert(crate::value::obj_has(oa, k));
        let inner = spec_diff(sv0, v);
        if sv0 == sv2 {
            assert(inner =~= Seq::<SpecChange>::empty());
            assert(head =~= Seq::<SpecChange>::empty());
            assert(cs =~= tail);
        } else {
            assert(!(sv0 is Object && v is Object));
            assert(inner =~= seq![
                (Seq::<Seq<char>>::empty(), crate::diff::old_of(sv0), v),
            ]);
            assert(crate::diff::old_of(sv0) == Some(sv0));
            assert(head.len() == 1);
            assert(head[0] == (
                seq!["state"@] + Seq::<Seq<char>>::empty(),
                Some(sv0),
                v,
            ));
            assert(seq!["state"@] + Seq::<Seq<char>>::empty() =~= seq!["state"@]);
            assert(head[0] == (seq!["state"@], Some(sv0), sv2));
            assert(cs[0] == head[0]);
            assert(render_path(cs[0].0) == "state"@) by {
                crate::diff::lemma_render_prefix(seq!["state"@]);
            }
            assert forall|t2: int| 0 <= t2 < cs.len() && t2 != 0 implies render_path(
                (#[trigger] cs[t2]).0,
            ) != "state"@ by {
                assert(cs[t2] == tail[t2 - 1]);
            }
        }
    } else {
        assert(crate::value::obj_has(rest, "state"@)) by {
            assert(crate::value::obj_has(obs, "state"@));
        }
        assert(crate::value::obj_get(rest, "state"@) == sv2) by {
            assert(crate::value::obj_get(obs, "state"@) == crate::value::obj_get(
                rest,
                "state"@,
            ));
        }
        assert(crate::value::keys_unique(rest)) by {
            crate::value::lemma_unique_tail(obs);
        }
        lemma_adds_state(oa, rest);
        assert forall|t: int| 0 <= t < head.len() implies render_path(
            (#[trigger] head[t]).0,
        ) != "state"@ by {
            lemma_head_not_state(oa, k, v, head, t);
        }
        if sv0 == sv2 {
        } else {
            let t = choose|t: int|
                0 <= t < tail.len() && (#[trigger] tail[t]) == (
                    seq!["state"@],
                    Some(sv0),
                    sv2,
                ) && render_path(tail[t].0) == "state"@ && (forall|t2: int|
                    0 <= t2 < tail.len() && t2 != t ==> render_path((#[trigger] tail[t2]).0)
                        != "state"@);
            assert(cs[head.len() + t] == tail[t]);
            assert forall|t2: int|
                0 <= t2 < cs.len() && t2 != head.len() + t implies render_path(
                (#[trigger] cs[t2]).0,
            ) != "state"@ by {
                if t2 < head.len() {
                } else {
                    assert(cs[t2] == tail[t2 - head.len()]);
                }
            }
        }
    }
}

/// No removal renders as the `state` path while the new side keeps a
/// `state` key.
proof fn lemma_removes_no_state(
    oa: Seq<(Seq<char>, SpecValue)>,
    no: Seq<(Seq<char>, SpecValue)>,
)
    requires
        crate::value::obj_has(no, "state"@),
    ensures
        ({
            let cs = crate::diff::diff_removes(oa, no);
            forall|t: int| 0 <= t < cs.len() ==> render_path((#[trigger] cs[t]).0) != "state"@
        }),
    decreases oa.len(),
{
    let cs = crate::diff::diff_removes(oa, no);
    if oa.len() == 0 {
        assert(cs =~= Seq::<SpecChange>::empty());
    } else {
        lemma_removes_no_state(oa.drop_first(), no);
        let k = oa[0].0;
        let head = if crate::value::obj_has(no, k) {
            Seq::<SpecChange>::empty()
        } else {
            seq![(seq![k], Some(oa[0].1), SpecValue::Null)]
        };
        assert(cs == head + crate::diff::diff_removes(oa.drop_first(), no));
        assert forall|t: int| 0 <= t < head.len() implies render_path(
            (#[trigger] head[t]).0,
        ) != "state"@ by {
            assert(!crate::value::obj_has(no, k));
            assert(k != "state"@);
            assert(head[t].0 =~= seq![k]);
            crate::diff::lemma_render_prefix(seq![k]);
            assert(render_path(head[t].0) == k);
        }
        assert forall|t: int| 0 <= t < cs.len() implies render_path(
            (#[trigger] cs[t]).0,
        ) != "state"@ by {
            if t >= head.len() {
                assert(cs[t] == crate::diff::diff_removes(oa.drop_first(), no)[t - head.len()]);
            }
        }
    }
}


/// Where no change renders as the `state` path, no state transition event
/// arises.
proof fn lemma_events_no_state(cs: Seq<SpecChange>)
    requires
        forall|t: int| 0 <= t < cs.len() ==> render_path((#[trigger] cs[t]).0) != "state"@,
    ensures
        ({
            let evs = events_for(cs);
            forall|i: int| 0 <= i < evs.len() ==> (#[trigger] evs[i]).0 != EventType::StateChanged
        }),
    decreases cs.len(),
{
    if cs.len() > 0 {
        assert(forall|t: int| 0 <= t < cs.drop_first().len() ==> cs.drop_first()[t] == cs[t + 1]);
        lemma_events_no_state(cs.drop_first());
        let rest = events_for(cs.drop_first());
        if render_path(cs[0].0) == "updated_at"@ {
        } else {
            assert(event_for_change(cs[0]).0 != EventType::StateChanged);
            assert(forall|i: int|
                1 <= i < events_for(cs).len() ==> events_for(cs)[i] == rest[i - 1]);
        }
    }
}

/// The one change rendering as the `state` path becomes the one state
/// transition event.
proof fn lemma_events_one_state(
    cs: Seq<SpecChange>,
    t: int,
    from: Seq<char>,
    to: Seq<char>,
)
    requires
        0 <= t < cs.len(),
        cs[t] == (seq!["state"@], Some(SpecValue::Text(from)), SpecValue::Text(to)),
        render_path(cs[t].0) == "state"@,
        forall|t2: int|
            0 <= t2 < cs.len() && t2 != t ==> render_path((#[trigger] cs[t2]).0) != "state"@,
        "state"@ != "updated_at"@,
    ensures
        ({
            let evs = events_for(cs);
            exists|i: int|
                0 <= i < evs.len() && (#[trigger] evs[i]) == (
                    EventType::StateChanged,
                    PayloadModel::StateChange { from, to },
                ) && (forall|j: int|
                    0 <= j < evs.len() && j != i ==> (#[trigger] evs[j]).0
                        != EventType::StateChanged)
        }),
    decreases cs.len(),
{
    let evs = events_for(cs);
    let rest = events_for(cs.drop_first());
    assert(forall|t2: int| 0 <= t2 < cs.drop_first().len() ==> cs.drop_first()[t2] == cs[t2 + 1]);
    if t == 0 {
        assert(render_path(cs[0].0) == "state"@);
        assert(event_for_change(cs[0]) == (
            EventType::StateChanged,
            PayloadModel::StateChange { from, to },
        ));
        assert(evs == seq![event_for_change(cs[0])] + rest);
        assert(evs[0] == (EventType::StateChanged, PayloadModel::StateChange { from, to }));
        lemma_events_no_state(cs.drop_first());
        assert forall|j: int| 0 <= j < evs.len() && j != 0 implies (#[trigger] evs[j]).0
            != EventType::StateChanged by {
            assert(evs[j] == rest[j - 1]);
        }
    } else {
        lemma_events_one_state(cs.drop_first(), t - 1, from, to);
        let i = choose|i: int|
            0 <= i < rest.len() && (#[trigger] rest[i]) == (
                EventType::StateChanged,
                PayloadModel::StateChange { from, to },
            ) && (forall|j: int|
                0 <= j < rest.len() && j != i ==> (#[trigger] rest[j]).0
                    != EventType::StateChanged);
        if render_path(cs[0].0) == "updated_at"@ {
            assert(evs == rest);
        } else {
            assert(evs == seq![event_for_change(cs[0])] + rest);
            assert(evs[i + 1] == rest[i]);
            assert(event_for_change(cs[0]).0 != EventType::StateChanged);
            assert forall|j: int| 0 <= j < evs.len() && j != i + 1 implies (#[trigger] evs[j]).0
                != EventType::StateChanged by {
                if j >= 1 {
                    assert(evs[j] == rest[j - 1]);
                }
            }
        }
    }
}

/// The key and text of the `state` entry of a snapshot document.
proof fn lemma_item_doc_state(m: ItemModel)
    ensures
        crate::value::obj_has(crate::item::item_doc_entries(m), "state"@),
        crate::value::obj_get(crate::item::item_doc_entries(m), "state"@) == SpecValue::Text(
            m.state,
        ),
{
    lemma_doc_keys_distinct();
    let es = crate::item::item_doc_entries(m);
    assert(es[2] == ("state"@, SpecValue::Text(m.state)));
    assert(es[0].0 == "uid"@ && es[1].0 == "title"@);
    crate::value::lemma_obj_first_index(es, "state"@, 2);
}

/// Every top-level key of a snapshot document may stand next to `state`
/// without ever rendering as its path.
proof fn lemma_item_doc_keys_state_safe(m: ItemModel)
    ensures
        forall|i: int|
            0 <= i < crate::item::item_doc_entries(m).len() ==> state_safe_key(
                (#[trigger] crate::item::item_doc_entries(m)[i]).0,
            ),
{
    lemma_doc_keys_distinct();
    lemma_doc_keys_not_state_prefix();
    let es = crate::item::item_doc_entries(m);
    let c1 = seq![
        ("uid"@, SpecValue::Text(m.uid)),
        ("title"@, SpecValue::Text(m.title)),
        ("state"@, SpecValue::Text(m.state)),
    ];
    let c2 = match m.assignee {
        Some(a) => seq![("assignee"@, SpecValue::Text(a))],
        None => Seq::<(Seq<char>, SpecValue)>::empty(),
    };
    let c3 = if m.labels.len() == 0 {
        Seq::<(Seq<char>, SpecValue)>::empty()
    } else {
        seq![
            ("labels"@, SpecValue::Array(m.labels.map_values(|l: Seq<char>| SpecValue::Text(l)))),
        ]
    };
    let c4 = seq![
        ("created_at"@, SpecValue::Int(m.created_at)),
        ("updated_at"@, SpecValue::Int(m.updated_at)),
    ];
    let c5 = if m.fields.len() == 0 {
        Seq::<(Seq<char>, SpecValue)>::empty()
    } else {
        seq![("fields"@, SpecValue::Object(m.fields))]
    };
    assert(es == c1 + c2 + c3 + c4 + c5);
    assert(crate::diff::starts_with("state"@, "state"@)) by {
        assert("state"@.subrange(0, "state"@.len() as int) =~= "state"@);
    }
    assert forall|i: int| 0 <= i < es.len() implies state_safe_key((#[trigger] es[i]).0) by {
        assert(es[i] == (c1 + c2 + c3 + c4 + c5)[i]);
    }
}

/// The state transitions an update's events record: none when the state
/// text is unchanged between the two snapshots, and exactly one — from the
/// old state to the new — when it changed.
pub proof fn lemma_state_transition_events(m0: ItemModel, m2: ItemModel)
    requires
        item_wf(m0),
        item_wf(m2),
    ensures
        ({
            let evs = events_for(spec_diff(item_doc(m0), item_doc(m2)));
            &&& (m0.state == m2.state ==> forall|i: int|
                0 <= i < evs.len() ==> (#[trigger] evs[i]).0 != EventType::StateChanged)
            &&& (m0.state != m2.state ==> exists|i: int|
                0 <= i < evs.len() && (#[trigger] evs[i]) == (
                    EventType::StateChanged,
                    PayloadModel::StateChange { from: m0.state, to: m2.state },
                ) && (forall|j: int|
                    0 <= j < evs.len() && j != i ==> (#[trigger] evs[j]).0
                        != EventType::StateChanged))
        }),
{
    lemma_doc_keys_distinct();
    let d0 = item_doc(m0);
    let d2 = item_doc(m2);
    let oa = crate::item::item_doc_entries(m0);
    let ob = crate::item::item_doc_entries(m2);
    let cs = spec_diff(d0, d2);
    lemma_item_doc_state(m0);
    lemma_item_doc_state(m2);
    if d0 == d2 {
        assert(cs =~= Seq::<SpecChange>::empty());
        assert(events_for(cs) =~= Seq::<(EventType, PayloadModel)>::empty());
        assert(m0.state == m2.state) by {
            assert(crate::value::obj_get(oa, "state"@) == crate::value::obj_get(ob, "state"@));
        }
    } else {
        assert(d0 is Object && d2 is Object);
        assert(cs == crate::diff::diff_adds(oa, ob) + crate::diff::diff_removes(oa, ob));
        lemma_item_doc_wf(m2);
        assert(crate::value::keys_unique(ob));
        lemma_item_doc_keys_state_safe(m2);
        lemma_adds_state(oa, ob);
        lemma_removes_no_state(oa, ob);
        let adds = crate::diff::diff_adds(oa, ob);
        let removes = crate::diff::diff_removes(oa, ob);
        if m0.state == m2.state {
            assert(crate::value::obj_get(oa, "state"@) == crate::value::obj_get(ob, "state"@));
            assert forall|t: int| 0 <= t < cs.len() implies render_path(
                (#[trigger] cs[t]).0,
            ) != "state"@ by {
                if t < adds.len() {
                    assert(cs[t] == adds[t]);
                } else {
                    assert(cs[t] == removes[t - adds.len()]);
                }
            }
            lemma_events_no_state(cs);
        } else {
            assert(crate::value::obj_get(oa, "state"@) != crate::value::obj_get(ob, "state"@));
            let t = choose|t: int|
                0 <= t < adds.len() && (#[trigger] adds[t]) == (
                    seq!["state"@],
                    Some(crate::value::obj_get(oa, "state"@)),
                    crate::value::obj_get(ob, "state"@),
                ) && render_path(adds[t].0) == "state"@ && (forall|t2: int|
                    0 <= t2 < adds.len() && t2 != t ==> render_path((#[trigger] adds[t2]).0)
                        != "state"@);
            assert(cs[t] == adds[t]);
            assert forall|t2: int| 0 <= t2 < cs.len() && t2 != t implies render_path(
                (#[trigger] cs[t2]).0,
            ) != "state"@ by {
                if t2 < adds.len() {
                    assert(cs[t2] == adds[t2]);
                } else {
                    assert(cs[t2] == removes[t2 - adds.len()]);
                }
            }
            lemma_events_one_state(cs, t, m0.state, m2.state);
        }
    }
}

} // verus!
