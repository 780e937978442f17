use worky::event::EventPayload;
use worky::event::EventType;
use worky::event::WorkEvent;
use worky::item::WorkItem;
use worky::value::DocValue;
use worky::value::value_eq;

#[test]
fn test_new_work_item() {
    let item = WorkItem::new("fs:test-item".to_string(), "Test Item".to_string());

    assert_eq!(item.uid, "fs:test-item");
    assert_eq!(item.title, "Test Item");
    assert_eq!(item.state, "TODO");
    assert!(item.assignee.is_none());
    assert!(item.labels.is_empty());
    assert!(item.fields.is_empty());
}

#[test]
fn test_builder_pattern() {
    let item = WorkItem::new("fs:test".to_string(), "Test".to_string())
        .with_state("IN_PROGRESS".to_string())
        .with_assignee("alice".to_string())
        .with_labels(vec!["backend".to_string(), "security".to_string()])
        .with_field("priority".to_string(), DocValue::Text("high".to_string()));

    assert_eq!(item.state, "IN_PROGRESS");
    assert_eq!(item.assignee, Some("alice".to_string()));
    assert_eq!(item.labels, vec!["backend", "security"]);
    let priority = item.fields.iter().find(|(k, _)| k == "priority").map(|(_, v)| v);
    assert!(value_eq(priority.unwrap(), &DocValue::Text("high".to_string())));
}

#[test]
fn test_label_operations() {
    let mut item = WorkItem::new("fs:test".to_string(), "Test".to_string());

    item.add_label("backend".to_string());
    assert!(item.has_label("backend"));
    assert!(item.has_label("BACKEND")); // case-insensitive check

    item.add_label("backend".to_string()); // duplicate, should not add
    assert_eq!(item.labels.len(), 1);

    assert!(item.remove_label("BACKEND")); // case-insensitive remove
    assert!(!item.has_label("backend"));
    assert!(!item.remove_label("backend")); // already removed
}

#[test]
fn test_touch_never_precedes_creation() {
    let mut item = WorkItem::new_at("fs:t".to_string(), "T".to_string(), 100);
    item.touch_at(50);
    assert_eq!(item.updated_at, 100);
    item.touch_at(200);
    assert_eq!(item.updated_at, 200);
}

#[test]
fn test_state_changed_event() {
    let event = WorkEvent::state_changed("TODO".to_string(), "IN_PROGRESS".to_string())
        .with_actor("alice".to_string());

    assert_eq!(event.event_type, EventType::StateChanged);
    assert_eq!(event.actor, Some("alice".to_string()));

    if let EventPayload::StateChange(p) = &event.payload {
        assert_eq!(p.from, "TODO");
        assert_eq!(p.to, "IN_PROGRESS");
    } else {
        panic!("Expected StateChange payload");
    }
}

#[test]
fn test_ai_action_event() {
    let event = WorkEvent::ai_action("worky-tool".to_string(), "set_state".to_string())
        .with_actor("bot".to_string());

    assert_eq!(event.event_type, EventType::AiAction);
    assert_eq!(event.actor, Some("bot".to_string()));
}

#[test]
fn test_event_type_names() {
    let e = WorkEvent::comment("hello".to_string());
    assert_eq!(e.kind_name(), "COMMENT_ADDED");
    let e = WorkEvent::state_changed("TODO".to_string(), "DONE".to_string());
    assert_eq!(e.kind_name(), "STATE_CHANGED");
}
