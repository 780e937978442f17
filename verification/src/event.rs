//! The event model: one immutable fact in an item's history.

use vstd::prelude::*;
use crate::value::DocValue;
use crate::value::SpecValue;
use crate::value::value_view;

verus! {

/// The kind of change an event records.
#[derive(Clone, Copy, Debug, PartialEq, Eq, Structural)]
pub enum EventType {
    /// The item was created.
    Created,
    /// The state changed.
    StateChanged,
    /// A field value changed.
    FieldChanged,
    /// A comment or note was added.
    CommentAdded,
    /// A label was attached.
    LabelAdded,
    /// A label was removed.
    LabelRemoved,
    /// The assignee changed.
    Assigned,
    /// An action performed by an automated tool.
    AiAction,
}

/// A state transition.
pub struct StateChangePayload {
    pub from: String,
    pub to: String,
}

/// A change of one field.
pub struct FieldChangePayload {
    pub path: String,
    pub old_value: Option<DocValue>,
    pub new_value: DocValue,
}

/// A change of owner.
pub struct AssigneeChangePayload {
    pub from: Option<String>,
    pub to: Option<String>,
}

/// A label attached or removed.
pub struct LabelPayload {
    pub label: String,
}

/// A comment.
pub struct CommentPayload {
    pub message: String,
}

/// An automated tool's action.
pub struct AiActionPayload {
    pub tool: String,
    pub action: String,
    pub details: Option<DocValue>,
}

/// The payload variants, matching the event types.
pub enum EventPayload {
    StateChange(StateChangePayload),
    FieldChange(FieldChangePayload),
    Label(LabelPayload),
    Comment(CommentPayload),
    AiAction(AiActionPayload),
    AssigneeChange(AssigneeChangePayload),
    /// A catch-all for history read from elsewhere.
    Generic(DocValue),
}

/// The mathematical model of a payload.
#[verifier::ext_equal]
#[allow(inconsistent_fields)]
pub enum PayloadModel {
    StateChange { from: Seq<char>, to: Seq<char> },
    FieldChange { path: Seq<char>, old_value: Option<SpecValue>, new_value: SpecValue },
    Label { label: Seq<char> },
    Comment { message: Seq<char> },
    AiAction { tool: Seq<char>, action: Seq<char>, details: Option<SpecValue> },
    AssigneeChange { from: Option<Seq<char>>, to: Option<Seq<char>> },
    Generic(SpecValue),
}

impl View for EventPayload {
    type V = PayloadModel;

    open spec fn view(&self) -> PayloadModel {
        match self {
            EventPayload::StateChange(p) => PayloadModel::StateChange {
                from: p.from@,
                to: p.to@,
            },
            EventPayload::FieldChange(p) => PayloadModel::FieldChange {
                path: p.path@,
                old_value: match p.old_value {
                    Some(v) => Some(value_view(v)),
                    None => None,
                },
                new_value: value_view(p.new_value),
            },
            EventPayload::Label(p) => PayloadModel::Label { label: p.label@ },
            EventPayload::Comment(p) => PayloadModel::Comment { message: p.message@ },
            EventPayload::AiAction(p) => PayloadModel::AiAction {
                tool: p.tool@,
                action: p.action@,
                details: match p.details {
                    Some(v) => Some(value_view(v)),
                    None => None,
                },
            },
            EventPayload::AssigneeChange(p) => PayloadModel::AssigneeChange {
                from: match p.from {
                    Some(a) => Some(a@),
                    None => None,
                },
                to: match p.to {
                    Some(a) => Some(a@),
                    None => None,
                },
            },
            EventPayload::Generic(v) => PayloadModel::Generic(value_view(*v)),
        }
    }
}

/// One event in an item's history. Events are never mutated after being
/// appended.
pub struct WorkEvent {
    /// Unique identifier, collision-free by generation.
    pub id: String,
    /// The kind of change.
    pub event_type: EventType,
    /// When the event happened, milliseconds since the epoch, UTC.
    pub timestamp: i64,
    /// Who or what caused it, if recorded.
    pub actor: Option<String>,
    /// The data of the change.
    pub payload: EventPayload,
}

/// The mathematical model of an event.
#[verifier::ext_equal]
pub struct EventModel {
    pub id: Seq<char>,
    pub event_type: EventType,
    pub timestamp: int,
    pub actor: Option<Seq<char>>,
    pub payload: PayloadModel,
}

impl View for WorkEvent {
    type V = EventModel;

    open spec fn view(&self) -> EventModel {
        EventModel {
            id: self.id@,
            event_type: self.event_type,
            timestamp: self.timestamp as int,
            actor: match self.actor {
                Some(a) => Some(a@),
                None => None,
            },
            payload: self.payload@,
        }
    }
}

/// Relies on `uuid::Uuid::new_v4`: a fresh random identifier, rendered in
/// simple hexadecimal form behind the fixed `evt_` prefix the body bakes
/// in. Nothing is assumed of the rest of the value.
#[verifier::external_body]
fn new_event_id() -> (r: String)
    ensures
        r@.len() >= 4,
        r@.subrange(0, 4) == "evt_"@,
{
    format!("evt_{}", uuid::Uuid::new_v4().as_simple())
}

impl WorkEvent {
    /// An event stamped at the given time, with a fresh identifier and no
    /// actor.
    pub fn new_at(event_type: EventType, payload: EventPayload, timestamp: i64) -> (r: WorkEvent)
        ensures
            r@.event_type == event_type,
            r@.payload == payload@,
            r@.timestamp == timestamp as int,
            r@.actor is None,
            r@.id.len() >= 4 && r@.id.subrange(0, 4) == "evt_"@,
    {
        WorkEvent { id: new_event_id(), event_type, timestamp, actor: None, payload }
    }

    /// An event stamped with the clock's current time and a fresh
    /// identifier.
    pub fn new(event_type: EventType, payload: EventPayload) -> (r: WorkEvent)
        ensures
            r@.event_type == event_type,
            r@.payload == payload@,
            r@.actor is None,
            r@.id.len() >= 4 && r@.id.subrange(0, 4) == "evt_"@,
    {
        let now = crate::clock::now_millis();
        WorkEvent::new_at(event_type, payload, now)
    }

    /// The event with an actor attached.
    pub fn with_actor(self, actor: String) -> (r: WorkEvent)
        ensures
            r@ == (EventModel { actor: Some(actor@), ..self@ }),
    {
        WorkEvent { actor: Some(actor), ..self }
    }

    /// A creation event: a comment naming the title.
    pub fn created(title: &str) -> (r: WorkEvent)
        ensures
            r@.event_type == EventType::Created,
            r@.payload == (PayloadModel::Comment { message: "Created: "@ + title@ }),
            r@.actor is None,
    {
        let mut message = String::from_str("Created: ");
        message.append(title);
        WorkEvent::new(EventType::Created, EventPayload::Comment(CommentPayload { message }))
    }

    /// A state transition event.
    pub fn state_changed(from: String, to: String) -> (r: WorkEvent)
        ensures
            r@.event_type == EventType::StateChanged,
            r@.payload == (PayloadModel::StateChange { from: from@, to: to@ }),
            r@.actor is None,
    {
        WorkEvent::new(
            EventType::StateChanged,
            EventPayload::StateChange(StateChangePayload { from, to }),
        )
    }

    /// A field change event.
    pub fn field_changed(path: String, old_value: Option<DocValue>, new_value: DocValue) -> (r:
        WorkEvent)
        ensures
            r@.event_type == EventType::FieldChanged,
            r@.payload == (PayloadModel::FieldChange {
                path: path@,
                old_value: match old_value {
                    Some(v) => Some(v@),
                    None => None,
                },
                new_value: new_value@,
            }),
            r@.actor is None,
    {
        WorkEvent::new(
            EventType::FieldChanged,
            EventPayload::FieldChange(FieldChangePayload { path, old_value, new_value }),
        )
    }

    /// An assignee change event.
    pub fn assigned(from: Option<String>, to: Option<String>) -> (r: WorkEvent)
        ensures
            r@.event_type == EventType::Assigned,
            r@.payload == (PayloadModel::AssigneeChange {
                from: match from {
                    Some(a) => Some(a@),
                    None => None,
                },
                to: match to {
                    Some(a) => Some(a@),
                    None => None,
                },
            }),
            r@.actor is None,
    {
        WorkEvent::new(
            EventType::Assigned,
            EventPayload::AssigneeChange(AssigneeChangePayload { from, to }),
        )
    }

    /// A label attachment event.
    pub fn label_added(label: String) -> (r: WorkEvent)
        ensures
            r@.event_type == EventType::LabelAdded,
            r@.payload == (PayloadModel::Label { label: label@ }),
            r@.actor is None,
    {
        WorkEvent::new(EventType::LabelAdded, EventPayload::Label(LabelPayload { label }))
    }

    /// A label removal event.
    pub fn label_removed(label: String) -> (r: WorkEvent)
        ensures
            r@.event_type == EventType::LabelRemoved,
            r@.payload == (PayloadModel::Label { label: label@ }),
            r@.actor is None,
    {
        WorkEvent::new(EventType::LabelRemoved, EventPayload::Label(LabelPayload { label }))
    }

    /// A comment event.
    pub fn comment(message: String) -> (r: WorkEvent)
        ensures
            r@.event_type == EventType::CommentAdded,
            r@.payload == (PayloadModel::Comment { message: message@ }),
            r@.actor is None,
    {
        WorkEvent::new(EventType::CommentAdded, EventPayload::Comment(CommentPayload { message }))
    }

    /// An automated tool action event, with no details attached.
    pub fn ai_action(tool: String, action: String) -> (r: WorkEvent)
        ensures
            r@.event_type == EventType::AiAction,
            r@.payload == (PayloadModel::AiAction { tool: tool@, action: action@, details: None }),
            r@.actor is None,
    {
        WorkEvent::new(
            EventType::AiAction,
            EventPayload::AiAction(AiActionPayload { tool, action, details: None }),
        )
    }

    /// The screaming-snake-case name of the event type.
    pub fn kind_name(&self) -> (r: String)
        ensures
            r@ == spec_type_name(self@.event_type),
    {
        match self.event_type {
            EventType::Created => String::from_str("CREATED"),
            EventType::StateChanged => String::from_str("STATE_CHANGED"),
            EventType::FieldChanged => String::from_str("FIELD_CHANGED"),
            EventType::CommentAdded => String::from_str("COMMENT_ADDED"),
            EventType::LabelAdded => String::from_str("LABEL_ADDED"),
            EventType::LabelRemoved => String::from_str("LABEL_REMOVED"),
            EventType::Assigned => String::from_str("ASSIGNED"),
            EventType::AiAction => String::from_str("AI_ACTION"),
        }
    }
}

/// The display name of each event type.
pub open spec fn spec_type_name(t: EventType) -> Seq<char> {
    match t {
        EventType::Created => "CREATED"@,
        EventType::StateChanged => "STATE_CHANGED"@,
        EventType::FieldChanged => "FIELD_CHANGED"@,
        EventType::CommentAdded => "COMMENT_ADDED"@,
        EventType::LabelAdded => "LABEL_ADDED"@,
        EventType::LabelRemoved => "LABEL_REMOVED"@,
        EventType::Assigned => "ASSIGNED"@,
        EventType::AiAction => "AI_ACTION"@,
    }
}

/// A deep copy of a payload, equal in model.
pub fn payload_clone(p: &EventPayload) -> (r: EventPayload)
    ensures
        r@ == p@,
{
    match p {
        EventPayload::StateChange(x) => EventPayload::StateChange(
            StateChangePayload { from: x.from.clone(), to: x.to.clone() },
        ),
        EventPayload::FieldChange(x) => EventPayload::FieldChange(
            FieldChangePayload {
                path: x.path.clone(),
                old_value: match &x.old_value {
                    Some(v) => Some(crate::value::value_clone(v)),
                    None => None,
                },
                new_value: crate::value::value_clone(&x.new_value),
            },
        ),
        EventPayload::Label(x) => EventPayload::Label(LabelPayload { label: x.label.clone() }),
        EventPayload::Comment(x) => EventPayload::Comment(
            CommentPayload { message: x.message.clone() },
        ),
        EventPayload::AiAction(x) => EventPayload::AiAction(
            AiActionPayload {
                tool: x.tool.clone(),
                action: x.action.clone(),
                details: match &x.details {
                    Some(v) => Some(crate::value::value_clone(v)),
                    None => None,
                },
            },
        ),
        EventPayload::AssigneeChange(x) => EventPayload::AssigneeChange(
            AssigneeChangePayload {
                from: match &x.from {
                    Some(a) => Some(a.clone()),
                    None => None,
                },
                to: match &x.to {
                    Some(a) => Some(a.clone()),
                    None => None,
                },
            },
        ),
        EventPayload::Generic(v) => EventPayload::Generic(crate::value::value_clone(v)),
    }
}

/// A deep copy of an event, equal in model.
pub fn event_clone(e: &WorkEvent) -> (r: WorkEvent)
    ensures
        r@ == e@,
{
    WorkEvent {
        id: e.id.clone(),
        event_type: e.event_type,
        timestamp: e.timestamp,
        actor: match &e.actor {
            Some(a) => Some(a.clone()),
            None => None,
        },
        payload: payload_clone(&e.payload),
    }
}

} // verus!
