use qualia::{
    ConversionError, Object, ObjectShape, ObjectShapePlain, PropValue, Q, Queryable, QueryBuilder,
    Store, StoreError,
};

#[derive(Debug, PartialEq)]
struct Blah {
    name: String,
}

impl Queryable for Blah {
    fn q() -> QueryBuilder {
        Q
    }
}

impl ObjectShape for Blah {
    fn to_object(&self) -> Object {
        Object::new().with("name", self.name.clone())
    }

    fn try_convert(object: Object, _store: &Store) -> Result<Self, StoreError> {
        Blah::try_from_object(object).map_err(StoreError::Conversion)
    }
}

impl ObjectShapePlain for Blah {
    fn try_from_object(object: Object) -> Result<Self, ConversionError> {
        match object.get("name") {
            Some(v) => match v.as_str() {
                Some(name) => Ok(Blah { name: name.clone() }),
                None => Err(ConversionError::FieldWrongType(
                    "name".to_string(),
                    "string".to_string(),
                )),
            },
            None => Err(ConversionError::FieldMissing("name".to_string())),
        }
    }
}

fn cache_obj2(k1: &str, v1: PropValue, k2: &str, v2: PropValue) -> Object {
    Object::new().with(k1, v1).with(k2, v2)
}

fn cs(v: &str) -> PropValue {
    PropValue::String(v.to_string())
}

fn cn(v: i64) -> PropValue {
    PropValue::Number(v)
}

fn cache_populated_store() -> Result<Store, StoreError> {
    let store = Store::new();

    let mut checkpoint = store.checkpoint()?;
    checkpoint.add(cache_obj2("name", cs("one"), "blah", cs("blah")))?;
    checkpoint.add(cache_obj2("name", cs("two"), "blah", cs("halb")))?;
    checkpoint.add(cache_obj2("name", cs("three"), "blah", cs("BLAH")))?;
    checkpoint.add(cache_obj2("name", cs("four"), "blah", cs("blahblah")))?;
    let store = checkpoint.commit("populate store")?;

    Ok(store)
}

#[test]
fn can_cache_queries() -> Result<(), StoreError> {
    let mut store = cache_populated_store()?;

    let mut cached_one_to_one = store.cached_map(Q.equal("blah", "blah"), |x, _| Ok(x))?;

    assert_eq!(
        cached_one_to_one.iter(),
        &vec![Object::new().with("name", cs("one")).with("blah", cs("blah")).with(
            "object_id",
            cn(1),
        )]
    );
    assert_eq!(cached_one_to_one.len(), 1);
    assert_eq!(cached_one_to_one.has_any(), true);
    assert_eq!(cached_one_to_one.valid(&store)?, true);

    let mut checkpoint = store.checkpoint()?;
    checkpoint.add(cache_obj2("name", cs("five"), "blah", cs("blah")))?;
    store = checkpoint.commit("add new object")?;

    assert_eq!(cached_one_to_one.len(), 1);
    assert_eq!(cached_one_to_one.has_any(), true);
    assert_eq!(
        cached_one_to_one.iter(),
        &vec![Object::new().with("name", cs("one")).with("blah", cs("blah")).with(
            "object_id",
            cn(1),
        )]
    );
    assert_eq!(cached_one_to_one.valid(&store)?, false);

    cached_one_to_one.refresh_if_needed(&store)?;
    assert_eq!(cached_one_to_one.len(), 2);
    assert_eq!(cached_one_to_one.has_any(), true);
    assert_eq!(
        cached_one_to_one.iter(),
        &vec![
            Object::new().with("name", cs("one")).with("blah", cs("blah")).with("object_id", cn(1)),
            Object::new().with("name", cs("five")).with("blah", cs("blah")).with(
                "object_id",
                cn(5),
            ),
        ]
    );
    assert_eq!(cached_one_to_one.valid(&store)?, true);

    let mut checkpoint = store.checkpoint()?;
    checkpoint.query(Q.equal("blah", "blah")).delete()?;
    store = checkpoint.commit("delete cached objects")?;

    assert_eq!(cached_one_to_one.len(), 2);
    assert_eq!(cached_one_to_one.has_any(), true);
    assert_eq!(
        cached_one_to_one.iter(),
        &vec![
            Object::new().with("name", cs("one")).with("blah", cs("blah")).with("object_id", cn(1)),
            Object::new().with("name", cs("five")).with("blah", cs("blah")).with(
                "object_id",
                cn(5),
            ),
        ]
    );
    assert_eq!(cached_one_to_one.valid(&store)?, false);

    cached_one_to_one.refresh_if_needed(&store)?;

    assert_eq!(cached_one_to_one.len(), 0);
    assert_eq!(cached_one_to_one.has_any(), false);
    assert_eq!(cached_one_to_one.iter(), &Vec::<Object>::new());
    assert_eq!(cached_one_to_one.valid(&store)?, true);

    let cached_extracted_fields = store.cached_map(Q.equal("blah", "halb"), |o, store| {
        Ok(Blah::try_convert(o, &store)?.name)
    })?;
    assert_eq!(cached_extracted_fields.iter(), &vec!["two".to_string()]);

    Ok(())
}

#[test]
fn cache_invalidated_by_undo() -> Result<(), StoreError> {
    let mut store = cache_populated_store()?;

    let mut checkpoint = store.checkpoint()?;
    checkpoint.add(cache_obj2("name", cs("five"), "blah", cs("blah")))?;
    store = checkpoint.commit("add invalidating object")?;

    let mut cached = store.cached_map(Q.equal("blah", "blah"), |x, _| Ok(x))?;
    assert_eq!(cached.len(), 2);
    assert_eq!(cached.valid(&store)?, true);

    store.undo()?;
    assert_eq!(cached.valid(&store)?, false);

    cached.refresh_if_needed(&store)?;
    assert_eq!(cached.len(), 1);
    assert_eq!(cached.valid(&store)?, true);

    Ok(())
}
