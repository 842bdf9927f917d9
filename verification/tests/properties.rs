use libcgroups::systemd::dbus_native::serialize::Variant;
use libcgroups::systemd::properties::{same_text, PropertyMap};

#[test]
fn a_new_map_is_empty() {
    let properties = PropertyMap::new();
    assert_eq!(properties.len(), 0);
    assert!(properties.is_empty());
    assert!(!properties.contains_key("TasksMax"));
    assert_eq!(properties.get("TasksMax"), None);
    assert!(properties.entry_at(0).is_none());
}

#[test]
fn insert_adds_an_entry() {
    let mut properties = PropertyMap::new();
    let previous = properties.insert("MemoryMax", Variant::U64(1024));
    assert_eq!(previous, None);
    assert_eq!(properties.len(), 1);
    assert!(!properties.is_empty());
    assert!(properties.contains_key("MemoryMax"));
    assert_eq!(properties.get("MemoryMax"), Some(&Variant::U64(1024)));
    assert_eq!(properties.get("MemoryMin"), None);
}

#[test]
fn insert_replaces_and_returns_the_old_value() {
    let mut properties = PropertyMap::new();
    properties.insert("MemoryMax", Variant::U64(1024));
    properties.insert("Description", Variant::String("a container".to_string()));
    let previous = properties.insert("MemoryMax", Variant::U32(7));
    assert_eq!(previous, Some(Variant::U64(1024)));
    assert_eq!(properties.len(), 2);
    assert_eq!(properties.get("MemoryMax"), Some(&Variant::U32(7)));
    assert_eq!(
        properties.get("Description"),
        Some(&Variant::String("a container".to_string()))
    );
}

#[test]
fn entries_are_handed_out_once_each() {
    let mut properties = PropertyMap::new();
    properties.insert("A", Variant::Bool(true));
    properties.insert("B", Variant::I32(-1));
    properties.insert("A", Variant::Bool(false));
    properties.insert("C", Variant::I64(-2));

    let mut seen = Vec::new();
    let mut index = 0;
    while let Some((name, value)) = properties.entry_at(index) {
        seen.push((name.to_string(), value.clone()));
        index += 1;
    }
    assert_eq!(index, properties.len());
    seen.sort_by(|a, b| a.0.cmp(&b.0));
    assert_eq!(
        seen,
        vec![
            ("A".to_string(), Variant::Bool(false)),
            ("B".to_string(), Variant::I32(-1)),
            ("C".to_string(), Variant::I64(-2)),
        ]
    );
    assert!(properties.entry_at(3).is_none());
    assert!(properties.entry_at(usize::MAX).is_none());
}

#[test]
fn names_are_compared_as_text() {
    let mut properties = PropertyMap::new();
    properties.insert("TasksMax", Variant::U64(1));
    assert!(!properties.contains_key("tasksmax"));
    assert!(!properties.contains_key("TasksMa"));
    assert!(!properties.contains_key("TasksMaxx"));
    assert!(!properties.contains_key(""));
    let built = format!("{}{}", "Tasks", "Max");
    assert!(properties.contains_key(&built));
}

#[test]
fn same_text_compares_contents() {
    assert!(same_text("", ""));
    assert!(same_text("TasksMax", "TasksMax"));
    assert!(!same_text("TasksMax", "TasksMin"));
    assert!(!same_text("TasksMax", "TasksMa"));
    assert!(!same_text("", "a"));
    assert!(same_text("gr\u{fc}n \u{2713}", "gr\u{fc}n \u{2713}"));
    assert!(!same_text("gr\u{fc}n", "grun"));
}

#[test]
fn a_clone_is_equal() {
    let value = Variant::Struct(vec![
        Variant::String("x".to_string()),
        Variant::Array(vec![Variant::U32(1), Variant::U64(2)]),
        Variant::Bool(true),
        Variant::I32(-3),
        Variant::I64(-4),
    ]);
    assert_eq!(value.clone(), value);
    assert_ne!(Variant::U32(1), Variant::U64(1));
}
