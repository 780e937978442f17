use worky::patch::resolve_path;
use worky::patch::SetOperation;
use worky::patch::apply_merge_patch;
use worky::patch::apply_set_operation;
use worky::diff::diff_values;
use worky::value::DocValue;
use worky::value::value_eq;

fn text(s: &str) -> DocValue {
    DocValue::Text(s.to_string())
}

fn obj(entries: Vec<(&str, DocValue)>) -> DocValue {
    DocValue::Object(entries.into_iter().map(|(k, v)| (k.to_string(), v)).collect())
}

fn get<'a>(v: &'a DocValue, key: &str) -> Option<&'a DocValue> {
    match v {
        DocValue::Object(entries) => entries.iter().find(|(k, _)| k == key).map(|(_, x)| x),
        _ => None,
    }
}

#[test]
fn test_resolve_path() {
    assert_eq!(resolve_path("state"), "/state");
    assert_eq!(resolve_path("fields.priority"), "/fields/priority");
    assert_eq!(
        resolve_path("fields.System.IterationPath"),
        "/fields/System/IterationPath"
    );
    assert_eq!(resolve_path(""), "");
}

#[test]
fn test_set_operation_parse() {
    let op = SetOperation::parse("state=IN_PROGRESS").unwrap();
    assert_eq!(op.path, "state");
    assert!(value_eq(&op.value, &text("IN_PROGRESS")));

    let op = SetOperation::parse("fields.priority=high").unwrap();
    assert_eq!(op.path, "fields.priority");
    assert!(value_eq(&op.value, &text("high")));

    // JSON values
    let op = SetOperation::parse("count=42").unwrap();
    assert!(value_eq(&op.value, &DocValue::Int(42)));

    let op = SetOperation::parse("active=true").unwrap();
    assert!(value_eq(&op.value, &DocValue::Bool(true)));
}

#[test]
fn test_set_operation_parse_rejects_missing_equals() {
    assert!(SetOperation::parse("no assignment here").is_err());
}

#[test]
fn test_apply_set_operation() {
    let mut value = obj(vec![("state", text("TODO")), ("fields", obj(vec![]))]);

    let op = SetOperation::new("state".to_string(), text("IN_PROGRESS"));
    let old = apply_set_operation(&mut value, &op).unwrap();
    assert!(value_eq(old.as_ref().unwrap(), &text("TODO")));
    assert!(value_eq(get(&value, "state").unwrap(), &text("IN_PROGRESS")));

    // Nested path
    let op = SetOperation::new("fields.priority".to_string(), text("high"));
    let old = apply_set_operation(&mut value, &op).unwrap();
    assert!(old.is_none());
    let fields = get(&value, "fields").unwrap();
    assert!(value_eq(get(fields, "priority").unwrap(), &text("high")));

    // Deep nested path (intermediate objects created on demand)
    let op = SetOperation::new("fields.System.IterationPath".to_string(), text("Sprint 1"));
    apply_set_operation(&mut value, &op).unwrap();
    let fields = get(&value, "fields").unwrap();
    let system = get(fields, "System").unwrap();
    assert!(value_eq(get(system, "IterationPath").unwrap(), &text("Sprint 1")));
}

#[test]
fn test_apply_set_operation_rejects_scalar_traversal() {
    let mut value = obj(vec![("state", text("TODO"))]);
    let op = SetOperation::new("state.inner".to_string(), text("x"));
    let before = worky::value::value_clone(&value);
    assert!(apply_set_operation(&mut value, &op).is_err());
    assert!(value_eq(&value, &before));
}

#[test]
fn test_apply_merge_patch() {
    let mut target = obj(vec![
        ("title", text("Original")),
        ("state", text("TODO")),
        ("fields", obj(vec![("priority", text("low"))])),
    ]);

    let patch = obj(vec![
        ("state", text("IN_PROGRESS")),
        (
            "fields",
            obj(vec![("priority", text("high")), ("blocked", DocValue::Bool(true))]),
        ),
    ]);

    apply_merge_patch(&mut target, &patch);

    assert!(value_eq(get(&target, "title").unwrap(), &text("Original"))); // unchanged
    assert!(value_eq(get(&target, "state").unwrap(), &text("IN_PROGRESS"))); // updated
    let fields = get(&target, "fields").unwrap();
    assert!(value_eq(get(fields, "priority").unwrap(), &text("high"))); // updated
    assert!(value_eq(get(fields, "blocked").unwrap(), &DocValue::Bool(true))); // added
}

#[test]
fn test_merge_patch_removes_null() {
    let mut target = obj(vec![("a", text("keep")), ("b", text("remove"))]);

    let patch = obj(vec![("b", DocValue::Null), ("c", text("add"))]);

    apply_merge_patch(&mut target, &patch);

    assert!(value_eq(get(&target, "a").unwrap(), &text("keep")));
    assert!(get(&target, "b").is_none());
    assert!(value_eq(get(&target, "c").unwrap(), &text("add")));
}

#[test]
fn test_merge_patch_replaces_wholesale() {
    let mut target = obj(vec![("a", text("x"))]);
    apply_merge_patch(&mut target, &DocValue::Int(7));
    assert!(value_eq(&target, &DocValue::Int(7)));

    let mut target = obj(vec![("a", text("x"))]);
    apply_merge_patch(&mut target, &DocValue::Null);
    assert!(value_eq(&target, &DocValue::Null));
}

#[test]
fn test_diff_values() {
    let old = obj(vec![
        ("state", text("TODO")),
        ("assignee", text("alice")),
        ("fields", obj(vec![("priority", text("low"))])),
    ]);

    let new = obj(vec![
        ("state", text("IN_PROGRESS")),
        (
            "fields",
            obj(vec![("priority", text("high")), ("blocked", DocValue::Bool(true))]),
        ),
    ]);

    let changes = diff_values(&old, &new);

    assert!(changes
        .iter()
        .any(|(p, _, v)| p == "state" && value_eq(v, &text("IN_PROGRESS"))));
    assert!(changes.iter().any(|(p, _, _)| p == "assignee")); // removed
    assert!(changes
        .iter()
        .any(|(p, _, v)| p == "fields.priority" && value_eq(v, &text("high"))));
    assert!(changes
        .iter()
        .any(|(p, _, v)| p == "fields.blocked" && value_eq(v, &DocValue::Bool(true))));
}

#[test]
fn test_diff_equal_documents_is_empty() {
    let a = obj(vec![("x", DocValue::Int(1)), ("y", obj(vec![("z", text("v"))]))]);
    let b = worky::value::value_clone(&a);
    assert!(diff_values(&a, &b).is_empty());
}

#[test]
fn test_diff_replay_reproduces_target() {
    // replaying the set operations derived from a diff onto the old document
    // reproduces the new one
    let a = obj(vec![
        ("state", text("TODO")),
        ("extra", text("gone")),
        ("fields", obj(vec![("priority", text("low"))])),
    ]);
    let b = obj(vec![
        ("state", text("DONE")),
        ("fields", obj(vec![("priority", text("high")), ("blocked", DocValue::Bool(true))])),
    ]);

    let mut replayed = worky::value::value_clone(&a);
    for (path, _, new_value) in diff_values(&a, &b) {
        let op = SetOperation::new(path, new_value);
        apply_set_operation(&mut replayed, &op).unwrap();
    }

    // removals land as explicit nulls; every other leaf must match exactly
    assert!(value_eq(get(&replayed, "state").unwrap(), &text("DONE")));
    assert!(value_eq(get(&replayed, "extra").unwrap(), &DocValue::Null));
    let fields = get(&replayed, "fields").unwrap();
    assert!(value_eq(get(fields, "priority").unwrap(), &text("high")));
    assert!(value_eq(get(fields, "blocked").unwrap(), &DocValue::Bool(true)));
}

#[test]
fn test_set_same_path_twice_keeps_second() {
    // resolving then assigning the same path twice yields the second value
    let base = obj(vec![("fields", obj(vec![]))]);

    let mut twice = worky::value::value_clone(&base);
    let first = SetOperation::new("fields.a.b".to_string(), DocValue::Int(1));
    let second = SetOperation::new("fields.a.b".to_string(), DocValue::Int(2));
    apply_set_operation(&mut twice, &first).unwrap();
    apply_set_operation(&mut twice, &second).unwrap();

    let mut once = worky::value::value_clone(&base);
    apply_set_operation(&mut once, &second).unwrap();

    assert!(value_eq(&twice, &once));
}

#[test]
fn test_merge_empty_patch_is_noop_on_objects() {
    let base = obj(vec![("a", text("x")), ("b", obj(vec![("c", DocValue::Int(3))]))]);
    let mut target = worky::value::value_clone(&base);
    apply_merge_patch(&mut target, &obj(vec![]));
    assert!(value_eq(&target, &base));
}

#[test]
fn test_diff_ignores_object_entry_order() {
    // the differ skips subtrees that are equal up to object entry order,
    // arrays and leaves compared exactly
    let a = obj(vec![("x", DocValue::Int(1)), ("y", text("v"))]);
    let b = obj(vec![("y", text("v")), ("x", DocValue::Int(1))]);
    assert!(diff_values(&a, &b).is_empty());

    // a null value is not an absent key
    let c = obj(vec![("x", DocValue::Int(1)), ("y", text("v")), ("z", DocValue::Null)]);
    assert!(!diff_values(&a, &c).is_empty());
}
