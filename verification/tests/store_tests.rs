use worky::error::FsError;
use worky::event::EventPayload;
use worky::event::EventType;
use worky::flow::workflow_next;
use worky::flow::workflow_prev;
use worky::flow::is_back_command;
use worky::patch::SetOperation;
use worky::store::ItemFilter;
use worky::store::Workspace;
use worky::value::DocValue;
use worky::value::value_eq;

fn ws() -> Workspace {
    Workspace::init("/tmp/workspace".to_string())
}

fn text(s: &str) -> DocValue {
    DocValue::Text(s.to_string())
}

fn obj(entries: Vec<(&str, DocValue)>) -> DocValue {
    DocValue::Object(entries.into_iter().map(|(k, v)| (k.to_string(), v)).collect())
}

#[test]
fn test_create_and_get_item() {
    let mut ws = ws();

    let item = ws.create_item("Implement auth redirect").unwrap();
    assert_eq!(item.uid, "fs:implement-auth-redirect");
    assert_eq!(item.title, "Implement auth redirect");
    assert_eq!(item.state, "TODO");

    let fetched = ws.get_item("fs:implement-auth-redirect").unwrap();
    assert_eq!(fetched.uid, item.uid);
    assert_eq!(fetched.title, item.title);
}

#[test]
fn test_create_duplicate_fails() {
    let mut ws = ws();
    ws.create_item("Same title").unwrap();
    assert!(matches!(ws.create_item("Same title"), Err(FsError::ItemExists(_))));
}

#[test]
fn test_get_unknown_item_fails() {
    let ws = ws();
    assert!(matches!(ws.get_item("fs:nothing-here"), Err(FsError::ItemNotFound(_))));
    assert!(matches!(ws.get_item("zz:bad-tag"), Err(FsError::InvalidUid(_))));
}

#[test]
fn test_update_item() {
    let mut ws = ws();

    ws.create_item("Test task").unwrap();

    let ops = vec![
        SetOperation::new("state".to_string(), text("IN_PROGRESS")),
        SetOperation::new("assignee".to_string(), text("alice")),
    ];

    let updated = ws.update_item("fs:test-task", &ops).unwrap();
    assert_eq!(updated.state, "IN_PROGRESS");
    assert_eq!(updated.assignee, Some("alice".to_string()));
}

#[test]
fn test_update_rejects_bad_state_shape() {
    let mut ws = ws();
    ws.create_item("Shape check").unwrap();
    let ops = vec![SetOperation::new("state".to_string(), DocValue::Int(5))];
    assert!(matches!(
        ws.update_item("fs:shape-check", &ops),
        Err(FsError::Serialization(_))
    ));
    // nothing changed
    assert_eq!(ws.get_item("fs:shape-check").unwrap().state, "TODO");
}

#[test]
fn test_update_rejects_uid_change() {
    let mut ws = ws();
    ws.create_item("Keep uid").unwrap();
    let ops = vec![SetOperation::new("uid".to_string(), text("fs:other"))];
    assert!(ws.update_item("fs:keep-uid", &ops).is_err());
    assert!(ws.get_item("fs:keep-uid").is_ok());
}

#[test]
fn test_update_rejects_scalar_traversal() {
    let mut ws = ws();
    ws.create_item("Bad path").unwrap();
    let ops = vec![SetOperation::new("title.sub".to_string(), text("x"))];
    assert!(matches!(
        ws.update_item("fs:bad-path", &ops),
        Err(FsError::Core(worky::error::CoreError::InvalidPath(_)))
    ));
}

#[test]
fn test_list_items() {
    let mut ws = ws();

    ws.create_item("Task 1").unwrap();
    ws.create_item("Task 2").unwrap();

    let items = ws.list_items(None);
    assert_eq!(items.len(), 2);
}

#[test]
fn test_list_with_filter() {
    let mut ws = ws();

    ws.create_item("Task 1").unwrap();
    ws.update_item(
        "fs:task-1",
        &vec![SetOperation::new("state".to_string(), text("IN_PROGRESS"))],
    )
    .unwrap();
    ws.create_item("Task 2").unwrap();

    let filter = ItemFilter {
        state: Some("IN_PROGRESS".to_string()),
        ..Default::default()
    };

    let items = ws.list_items(Some(&filter));
    assert_eq!(items.len(), 1);
    assert_eq!(items[0].state, "IN_PROGRESS");
}

#[test]
fn test_filter_is_case_insensitive() {
    // items with states {TODO, IN_PROGRESS, IN_PROGRESS}: filtering by
    // state "in_progress" returns exactly the two, whatever the order
    let mut ws = ws();
    ws.create_item("A").unwrap();
    ws.create_item("B").unwrap();
    ws.create_item("C").unwrap();
    for uid in ["fs:b", "fs:c"] {
        ws.update_item(
            uid,
            &vec![SetOperation::new("state".to_string(), text("IN_PROGRESS"))],
        )
        .unwrap();
    }

    let filter = ItemFilter {
        state: Some("in_progress".to_string()),
        ..Default::default()
    };
    let items = ws.list_items(Some(&filter));
    assert_eq!(items.len(), 2);
    for it in &items {
        assert_eq!(it.state, "IN_PROGRESS");
    }
}

#[test]
fn test_list_sorted_by_update_time() {
    let mut ws = ws();
    ws.create_item_at("Old", 100).unwrap();
    ws.create_item_at("New", 100).unwrap();
    ws.update_item_at(
        "fs:old",
        &vec![SetOperation::new("assignee".to_string(), text("bob"))],
        300,
    )
    .unwrap();
    ws.update_item_at(
        "fs:new",
        &vec![SetOperation::new("assignee".to_string(), text("eve"))],
        200,
    )
    .unwrap();
    let items = ws.list_items(None);
    assert_eq!(items[0].uid, "fs:old");
    assert_eq!(items[1].uid, "fs:new");
}

#[test]
fn test_events() {
    let mut ws = ws();

    ws.create_item("Event test").unwrap();
    ws.update_item(
        "fs:event-test",
        &vec![SetOperation::new("state".to_string(), text("IN_PROGRESS"))],
    )
    .unwrap();

    let events = ws.read_events("fs:event-test", None).unwrap();
    assert!(events.len() >= 2); // CREATED + STATE_CHANGED
}

#[test]
fn test_read_events_since() {
    let mut ws = ws();
    ws.create_item_at("Since test", 100).unwrap();
    ws.add_comment_at("fs:since-test", "first", 200).unwrap();
    ws.add_comment_at("fs:since-test", "second", 300).unwrap();

    let all = ws.read_events("fs:since-test", None).unwrap();
    assert_eq!(all.len(), 3);
    let late = ws.read_events("fs:since-test", Some(250)).unwrap();
    assert_eq!(late.len(), 1);
    assert_eq!(late[0].timestamp, 300);
}

#[test]
fn test_event_log_is_append_only_with_chained_states() {
    // after three state mutations on a fresh item, the history holds
    // exactly four events, and the state transitions chain together,
    // matching the states observed along the way
    let mut ws = ws();
    ws.create_item_at("Chain", 10).unwrap();
    let mut observed = vec![ws.get_item("fs:chain").unwrap().state];
    for (i, s) in ["IN_PROGRESS", "IN_REVIEW", "DONE"].iter().enumerate() {
        ws.update_item_at(
            "fs:chain",
            &vec![SetOperation::new("state".to_string(), text(s))],
            20 + i as i64,
        )
        .unwrap();
        observed.push(ws.get_item("fs:chain").unwrap().state);
    }

    let events = ws.read_events("fs:chain", None).unwrap();
    assert_eq!(events.len(), 4);
    assert_eq!(events[0].event_type, EventType::Created);

    let mut pairs = Vec::new();
    for e in &events[1..] {
        match &e.payload {
            EventPayload::StateChange(p) => pairs.push((p.from.clone(), p.to.clone())),
            _ => panic!("expected a state change"),
        }
    }
    assert_eq!(pairs.len(), 3);
    for i in 0..pairs.len() - 1 {
        assert_eq!(pairs[i].1, pairs[i + 1].0); // connected chain
    }
    for (i, (from, to)) in pairs.iter().enumerate() {
        assert_eq!(*from, observed[i]);
        assert_eq!(*to, observed[i + 1]);
    }
}

#[test]
fn test_create_update_patch_scenario() {
    // create "Fix login bug": uid fs:fix-login-bug, state TODO
    let mut ws = ws();
    let item = ws.create_item_at("Fix login bug", 10).unwrap();
    assert_eq!(item.uid, "fs:fix-login-bug");
    assert_eq!(item.state, "TODO");

    // apply [state=IN_PROGRESS, assignee=alice]: two new events,
    // StateChange TODO -> IN_PROGRESS and Assigned none -> alice
    let ops = vec![
        SetOperation::parse("state=IN_PROGRESS").unwrap(),
        SetOperation::parse("assignee=alice").unwrap(),
    ];
    let item = ws.update_item_at("fs:fix-login-bug", &ops, 20).unwrap();
    assert_eq!(item.state, "IN_PROGRESS");
    assert_eq!(item.assignee, Some("alice".to_string()));

    let events = ws.read_events("fs:fix-login-bug", None).unwrap();
    assert_eq!(events.len(), 3);
    match &events[1].payload {
        EventPayload::StateChange(p) => {
            assert_eq!(p.from, "TODO");
            assert_eq!(p.to, "IN_PROGRESS");
        }
        _ => panic!("expected a state change"),
    }
    match &events[2].payload {
        EventPayload::AssigneeChange(p) => {
            assert_eq!(p.from, None);
            assert_eq!(p.to, Some("alice".to_string()));
        }
        _ => panic!("expected an assignee change"),
    }

    // seed fields {priority: low, blocked: true}, then merge
    // {"fields": {"priority": "high", "blocked": null}}
    let seed = vec![
        SetOperation::parse("fields.priority=low").unwrap(),
        SetOperation::parse("fields.blocked=true").unwrap(),
    ];
    ws.update_item_at("fs:fix-login-bug", &seed, 30).unwrap();
    let before = ws.read_events("fs:fix-login-bug", None).unwrap().len();

    let patch = obj(vec![(
        "fields",
        obj(vec![("priority", text("high")), ("blocked", DocValue::Null)]),
    )]);
    let item = ws.patch_item_at("fs:fix-login-bug", &patch, 40).unwrap();
    assert_eq!(item.fields.len(), 1);
    assert_eq!(item.fields[0].0, "priority");
    assert!(value_eq(&item.fields[0].1, &text("high")));

    let events = ws.read_events("fs:fix-login-bug", None).unwrap();
    assert_eq!(events.len(), before + 2);
    let mut changed_paths = Vec::new();
    for e in &events[before..] {
        assert_eq!(e.event_type, EventType::FieldChanged);
        match &e.payload {
            EventPayload::FieldChange(p) => changed_paths.push(p.path.clone()),
            _ => panic!("expected a field change"),
        }
    }
    assert!(changed_paths.contains(&"fields.priority".to_string()));
    assert!(changed_paths.contains(&"fields.blocked".to_string()));
}

#[test]
fn test_add_comment_leaves_snapshot_alone() {
    let mut ws = ws();
    ws.create_item_at("Quiet", 10).unwrap();
    let before = ws.get_item("fs:quiet").unwrap();
    ws.add_comment_at("fs:quiet", "a note", 20).unwrap();
    let after = ws.get_item("fs:quiet").unwrap();
    assert_eq!(before.updated_at, after.updated_at);
    let events = ws.read_events("fs:quiet", None).unwrap();
    assert_eq!(events.len(), 2);
    match &events[1].payload {
        EventPayload::Comment(p) => assert_eq!(p.message, "a note"),
        _ => panic!("expected a comment"),
    }
}

#[test]
fn test_workflow_moves() {
    assert_eq!(workflow_next("TODO"), Some("IN_PROGRESS".to_string()));
    assert_eq!(workflow_next("in_progress"), Some("IN_REVIEW".to_string()));
    assert_eq!(workflow_next("IN_REVIEW"), Some("DONE".to_string()));
    assert_eq!(workflow_next("DONE"), None);
    assert_eq!(workflow_next("BLOCKED"), Some("IN_PROGRESS".to_string()));

    assert_eq!(workflow_prev("TODO"), None);
    assert_eq!(workflow_prev("done"), Some("IN_REVIEW".to_string()));
    assert_eq!(workflow_prev("BLOCKED"), Some("TODO".to_string()));
}

#[test]
fn test_back_command() {
    assert!(is_back_command("<"));
    assert!(is_back_command("  back  "));
    assert!(is_back_command("B"));
    assert!(is_back_command(".."));
    assert!(!is_back_command("backward"));
    assert!(!is_back_command(""));
}

#[test]
fn test_create_rejects_unsluggable_title() {
    let mut ws = ws();
    assert!(matches!(ws.create_item("???"), Err(FsError::InvalidSlug(_))));
}

#[test]
fn test_patch_assignee_yields_assigned_event() {
    // a merge patch goes through the same event pipeline as discrete
    // updates: a change at the assignee path becomes an assignee change
    let mut ws = ws();
    ws.create_item_at("Patch owner", 10).unwrap();
    let patch = obj(vec![("assignee", text("alice"))]);
    let item = ws.patch_item_at("fs:patch-owner", &patch, 20).unwrap();
    assert_eq!(item.assignee, Some("alice".to_string()));

    let events = ws.read_events("fs:patch-owner", None).unwrap();
    assert_eq!(events.len(), 2);
    match &events[1].payload {
        EventPayload::AssigneeChange(p) => {
            assert_eq!(p.from, None);
            assert_eq!(p.to, Some("alice".to_string()));
        }
        _ => panic!("expected an assignee change"),
    }
    assert_eq!(events[1].event_type, EventType::Assigned);
}

#[test]
fn test_event_ids_carry_the_event_prefix() {
    let mut ws = ws();
    ws.create_item_at("Id prefix", 10).unwrap();
    let events = ws.read_events("fs:id-prefix", None).unwrap();
    assert!(events[0].id.starts_with("evt_"));
}
