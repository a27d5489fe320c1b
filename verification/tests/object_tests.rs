use qualia::{Object, PropValue};

#[test]
fn property_values_report_their_type() {
    let num = PropValue::Number(42);
    let text = PropValue::String("hello".to_string());

    assert_eq!(num.as_number(), Some(42));
    assert!(num.as_str().is_none());
    assert_eq!(text.as_str(), Some(&"hello".to_string()));
    assert!(text.as_number().is_none());
}

#[test]
fn objects_compare_without_regard_to_insertion_order() {
    let a = Object::new().with("x", 1i64).with("y", "two");
    let b = Object::new().with("y", "two").with("x", 1i64);
    let c = Object::new().with("x", 1i64).with("y", "three");

    assert_eq!(a, b);
    assert_ne!(a, c);
    assert_ne!(a, Object::new());
}

#[test]
fn inserting_twice_overwrites() {
    let mut o = Object::new();
    o.insert("k", "first");
    o.insert("k", "second");

    assert_eq!(o.len(), 1);
    assert_eq!(o.get("k"), Some(&PropValue::String("second".to_string())));
}

#[test]
fn merge_overwrites_on_collision_and_keeps_the_rest() {
    let mut base = Object::new().with("a", 1i64).with("b", "old");
    let patch = Object::new().with("b", "new").with("c", 3i64);

    base.merge_from(&patch);

    assert_eq!(
        base,
        Object::new().with("a", 1i64).with("b", "new").with("c", 3i64),
    );
}

#[test]
fn missing_properties_read_as_absent() {
    let o = Object::new().with("here", 1i64);

    assert!(o.contains_key("here"));
    assert!(!o.contains_key("gone"));
    assert!(o.get("gone").is_none());
    assert!(!o.is_empty());
    assert!(Object::new().is_empty());
}
