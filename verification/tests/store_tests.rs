use qualia::{Object, PropValue, Q, QueryNode, Store, StoreError};

fn obj2(k1: &str, v1: PropValue, k2: &str, v2: PropValue) -> Object {
    Object::new().with(k1, v1).with(k2, v2)
}

fn obj3(k1: &str, v1: PropValue, k2: &str, v2: PropValue, k3: &str, v3: PropValue) -> Object {
    Object::new().with(k1, v1).with(k2, v2).with(k3, v3)
}

fn s(v: &str) -> PropValue {
    PropValue::String(v.to_string())
}

fn n(v: i64) -> PropValue {
    PropValue::Number(v)
}

fn populated_store() -> Result<Store, StoreError> {
    let store = Store::new();

    let mut checkpoint = store.checkpoint()?;
    checkpoint.add(obj2("name", s("one"), "blah", s("blah")))?;
    checkpoint.add(obj2("name", s("two"), "blah", s("halb")))?;
    checkpoint.add(obj2("name", s("three"), "blah", s("BLAH")))?;
    checkpoint.add(obj2("name", s("four"), "blah", s("blahblah")))?;
    let store = checkpoint.commit("populate store")?;

    Ok(store)
}

fn sort_objects(objects: &mut Vec<Object>) {
    objects.sort_by_key(|o| {
        o.get("name")
            .expect("test objects should have a name")
            .as_str()
            .expect("`name` of test objects should be a string")
            .clone()
    })
}

#[test]
fn new_store_is_empty() -> Result<(), StoreError> {
    let store = Store::new();
    assert_eq!(store.all().len()?, 0);

    Ok(())
}

#[test]
fn added_objects_exist() -> Result<(), StoreError> {
    let store = populated_store()?;

    let all = store.all();

    assert_eq!(all.len()?, 4);
    let mut all_objects = all.iter()?;
    sort_objects(&mut all_objects);
    assert_eq!(
        all_objects,
        vec![
            obj3("name", s("four"), "blah", s("blahblah"), "object_id", n(4)),
            obj3("name", s("one"), "blah", s("blah"), "object_id", n(1)),
            obj3("name", s("three"), "blah", s("BLAH"), "object_id", n(3)),
            obj3("name", s("two"), "blah", s("halb"), "object_id", n(2)),
        ],
    );

    Ok(())
}

#[test]
fn added_objects_can_be_retrieved_one_by_one() -> Result<(), StoreError> {
    let store = populated_store()?;

    assert_eq!(
        store.query(Q.id(1)).one()?,
        obj3("name", s("one"), "blah", s("blah"), "object_id", n(1)),
    );

    assert!(store.query(Q.id(5)).one().is_err());
    assert!(store.query(Q.like("name", "blah")).one().is_err());

    Ok(())
}

#[test]
fn adding_objects_can_be_undone() -> Result<(), StoreError> {
    let mut store = populated_store()?;

    let mut checkpoint = store.checkpoint()?;
    let object_id = checkpoint.add(obj2("name", s("b"), "c", s("d")))?;
    store = checkpoint.commit("add undoable object")?;

    assert!(store.query(Q.id(object_id)).has_any()?);
    assert_eq!(store.all().len()?, 5);

    assert_eq!(store.undo()?, Some("add undoable object".to_string()));

    assert!(!store.query(Q.id(object_id)).has_any()?);
    assert_eq!(store.all().len()?, 4);

    Ok(())
}

#[test]
fn added_objects_can_be_found() -> Result<(), StoreError> {
    let store = populated_store()?;

    let found = store.query(QueryNode::PropEqual {
        name: "name".to_string(),
        value: PropValue::String("one".to_string()),
    });

    assert_eq!(found.len()?, 1);
    let mut found_objects = found.iter()?;
    sort_objects(&mut found_objects);
    assert_eq!(
        found_objects,
        vec![obj3("name", s("one"), "blah", s("blah"), "object_id", n(1))],
    );

    Ok(())
}

#[test]
fn objects_can_be_deleted() -> Result<(), StoreError> {
    let mut store = populated_store()?;

    let mut checkpoint = store.checkpoint()?;
    let object_id = checkpoint.add(obj2("name", s("b"), "c", s("d")))?;
    store = checkpoint.commit("add deleteable object")?;

    let mut checkpoint = store.checkpoint()?;
    checkpoint.query(Q.id(object_id)).delete()?;
    store = checkpoint.commit("delete deletable object")?;

    assert!(!store.query(Q.id(object_id)).has_any()?);
    assert_eq!(store.all().len()?, 4);

    Ok(())
}

#[test]
fn deleting_objects_can_be_undone() -> Result<(), StoreError> {
    let mut store = populated_store()?;

    let mut checkpoint = store.checkpoint()?;
    assert_eq!(checkpoint.query(Q.equal("name", "one")).delete()?, 1);
    store = checkpoint.commit("remove object one")?;

    assert_eq!(store.undo()?, Some("remove object one".to_string()));

    assert!(store.query(Q.equal("name", "one")).has_any()?);
    assert_eq!(store.all().len()?, 4);

    Ok(())
}

#[test]
fn can_undo_to_an_empty_store() -> Result<(), StoreError> {
    let mut store = populated_store()?;

    assert_eq!(store.undo()?, Some("populate store".to_string()));
    assert_eq!(store.all().len()?, 0);

    assert_eq!(store.undo()?, None);

    Ok(())
}

#[test]
fn objects_can_be_found_by_their_object_id() -> Result<(), StoreError> {
    let mut store = populated_store()?;

    let mut checkpoint = store.checkpoint()?;
    let object_id = checkpoint.add(obj2("name", s("b"), "c", s("d")))?;
    store = checkpoint.commit("add object for its ID")?;

    let found = store.query(Q.id(object_id));

    assert_eq!(found.len()?, 1);
    let mut found_objects = found.iter()?;
    sort_objects(&mut found_objects);
    assert_eq!(
        found_objects,
        vec![obj3("name", s("b"), "c", s("d"), "object_id", n(object_id))],
    );

    Ok(())
}

#[test]
fn objects_can_be_found_by_like() -> Result<(), StoreError> {
    let store = populated_store()?;

    let found = store.query(Q.like("blah", "blah"));

    assert_eq!(found.len()?, 2);
    let mut found_objects = found.iter()?;
    sort_objects(&mut found_objects);
    assert_eq!(
        found_objects,
        vec![
            obj3("name", s("one"), "blah", s("blah"), "object_id", n(1)),
            obj3("name", s("three"), "blah", s("BLAH"), "object_id", n(3)),
        ],
    );

    Ok(())
}

#[test]
fn objects_can_be_found_by_and() -> Result<(), StoreError> {
    let store = populated_store()?;

    let found = store.query(Q.equal("name", "one").equal("blah", "blah"));

    assert_eq!(found.len()?, 1);
    let mut found_objects = found.iter()?;
    sort_objects(&mut found_objects);
    assert_eq!(
        found_objects,
        vec![obj3("name", s("one"), "blah", s("blah"), "object_id", n(1))],
    );

    Ok(())
}

#[test]
fn objects_can_be_modified() -> Result<(), StoreError> {
    let mut store = populated_store()?;

    let mut checkpoint = store.checkpoint()?;
    assert_eq!(checkpoint.query(Q.id(1)).set(Object::new().with("name", s("wun")))?, 1);
    store = checkpoint.commit("change 1")?;

    assert_eq!(
        store.query(Q.id(1)).iter()?,
        vec![obj3("name", s("wun"), "blah", s("blah"), "object_id", n(1))],
    );

    Ok(())
}

#[test]
fn objects_modification_can_be_undone() -> Result<(), StoreError> {
    let mut store = populated_store()?;

    let mut checkpoint = store.checkpoint()?;
    assert_eq!(checkpoint.query(Q.id(1)).set(Object::new().with("name", s("wun")))?, 1);
    store = checkpoint.commit("change 1")?;

    store.undo()?;

    assert_eq!(
        store.query(Q.id(1)).iter()?,
        vec![obj3("name", s("one"), "blah", s("blah"), "object_id", n(1))],
    );

    Ok(())
}

#[test]
fn checkpoint_ids_expire_with_changes_or_undos() -> Result<(), StoreError> {
    let mut store = populated_store()?;

    let mut checkpoint = store.checkpoint()?;
    assert_eq!(checkpoint.query(Q.id(1)).set(Object::new().with("name", s("wun")))?, 1);
    store = checkpoint.commit("change 1")?;

    let before_change_checkpoint_id = store.last_checkpoint_id()?;

    let mut checkpoint = store.checkpoint()?;
    assert_eq!(checkpoint.query(Q.id(1)).set(Object::new().with("name", s("wan")))?, 1);
    store = checkpoint.commit("change 2")?;
    assert!(store.modified_since(before_change_checkpoint_id)?);

    let before_undo_checkpoint_id = store.last_checkpoint_id()?;

    store.undo()?;
    assert!(store.modified_since(before_undo_checkpoint_id)?);

    Ok(())
}

#[test]
fn rollback_discards_changes() -> Result<(), StoreError> {
    let store = populated_store()?;

    let mut checkpoint = store.checkpoint()?;
    checkpoint.add(obj2("name", s("extra"), "blah", s("blah")))?;
    let store = checkpoint.rollback();

    assert_eq!(store.all().len()?, 4);
    assert!(!store.query(Q.equal("name", "extra")).has_any()?);

    Ok(())
}

#[test]
fn empty_patch_changes_nothing() -> Result<(), StoreError> {
    let store = populated_store()?;

    let mut checkpoint = store.checkpoint()?;
    assert_eq!(checkpoint.query(Q.id(1)).set(Object::new())?, 0);
    let store = checkpoint.commit("empty change")?;

    assert_eq!(
        store.query(Q.id(1)).one()?,
        obj3("name", s("one"), "blah", s("blah"), "object_id", n(1)),
    );

    Ok(())
}

#[test]
fn add_rejects_reserved_identity_key() -> Result<(), StoreError> {
    let store = Store::new();

    let mut checkpoint = store.checkpoint()?;
    let r = checkpoint.add(Object::new().with("object_id", n(9)).with("name", s("x")));
    assert!(matches!(r, Err(StoreError::Usage(_))));

    let store = checkpoint.rollback();
    assert_eq!(store.all().len()?, 0);

    Ok(())
}

#[test]
fn one_reports_actual_count() -> Result<(), StoreError> {
    let store = populated_store()?;

    match store.all().one() {
        Err(StoreError::NotOne(found)) => assert_eq!(found, 4),
        _ => panic!("one() on four objects should report NotOne"),
    }
    match store.query(Q.id(99)).one() {
        Err(StoreError::NotOne(found)) => assert_eq!(found, 0),
        _ => panic!("one() on no objects should report NotOne"),
    }

    Ok(())
}

#[test]
fn ids_are_not_reused_after_undo() -> Result<(), StoreError> {
    let mut store = populated_store()?;

    let mut checkpoint = store.checkpoint()?;
    let first = checkpoint.add(obj2("name", s("a"), "blah", s("x")))?;
    store = checkpoint.commit("add first")?;
    assert_eq!(first, 5);

    store.undo()?;

    let mut checkpoint = store.checkpoint()?;
    let second = checkpoint.add(obj2("name", s("b"), "blah", s("y")))?;
    store = checkpoint.commit("add second")?;
    assert_eq!(second, 6);
    assert_eq!(store.all().len()?, 5);

    Ok(())
}

#[test]
fn set_rejects_reserved_identity_key() -> Result<(), StoreError> {
    let store = populated_store()?;

    let mut checkpoint = store.checkpoint()?;
    let r = checkpoint.query(Q.id(1)).set(Object::new().with("object_id", n(9)));
    assert!(matches!(r, Err(StoreError::Usage(_))));
    let store = checkpoint.rollback();

    assert_eq!(
        store.query(Q.id(1)).one()?,
        obj3("name", s("one"), "blah", s("blah"), "object_id", n(1)),
    );

    Ok(())
}
