use qualia::{
    ConversionError, Object, ObjectShape, ObjectShapePlain, ObjectShapeWithId, PropValue, Q,
    Queryable, QueryBuilder, Store, StoreError,
};

fn shape_obj2(k1: &str, v1: PropValue, k2: &str, v2: PropValue) -> Object {
    Object::new().with(k1, v1).with(k2, v2)
}

fn ss(v: &str) -> PropValue {
    PropValue::String(v.to_string())
}

fn shape_populated_store() -> Result<Store, StoreError> {
    let store = Store::new();

    let mut checkpoint = store.checkpoint()?;
    checkpoint.add(shape_obj2("name", ss("one"), "blah", ss("blah")))?;
    checkpoint.add(shape_obj2("name", ss("two"), "blah", ss("halb")))?;
    checkpoint.add(shape_obj2("name", ss("three"), "blah", ss("BLAH")))?;
    checkpoint.add(shape_obj2("name", ss("four"), "blah", ss("blahblah")))?;
    let store = checkpoint.commit("populate store")?;

    Ok(store)
}

#[derive(Debug, PartialEq)]
struct Blah {
    name: String,
}

impl Queryable for Blah {
    fn q() -> QueryBuilder {
        Q
    }
}

impl ObjectShape for Blah {
    fn to_object(&self) -> Object {
        Object::new().with("name", self.name.clone())
    }

    fn try_convert(object: Object, _store: &Store) -> Result<Self, StoreError> {
        Blah::try_from_object(object).map_err(StoreError::Conversion)
    }
}

impl ObjectShapePlain for Blah {
    fn try_from_object(object: Object) -> Result<Self, ConversionError> {
        match object.get("name") {
            Some(v) => match v.as_str() {
                Some(name) => Ok(Blah { name: name.clone() }),
                None => Err(ConversionError::FieldWrongType(
                    "name".to_string(),
                    "string".to_string(),
                )),
            },
            None => Err(ConversionError::FieldMissing("name".to_string())),
        }
    }
}

#[derive(Clone, Debug, PartialEq)]
struct ShapeWithId {
    object_id: Option<i64>,
    name: String,
}

impl Queryable for ShapeWithId {
    fn q() -> QueryBuilder {
        Q
    }
}

impl ObjectShape for ShapeWithId {
    fn to_object(&self) -> Object {
        Object::new().with("name", self.name.clone())
    }

    fn try_convert(object: Object, _store: &Store) -> Result<Self, StoreError> {
        ShapeWithId::try_from_object(object).map_err(StoreError::Conversion)
    }
}

impl ObjectShapePlain for ShapeWithId {
    fn try_from_object(object: Object) -> Result<Self, ConversionError> {
        let object_id = match object.get("object_id") {
            Some(v) => match v.as_number() {
                Some(id) => Some(id),
                None => {
                    return Err(ConversionError::FieldWrongType(
                        "object_id".to_string(),
                        "number".to_string(),
                    ));
                },
            },
            None => None,
        };
        match object.get("name") {
            Some(v) => match v.as_str() {
                Some(name) => Ok(ShapeWithId { object_id, name: name.clone() }),
                None => Err(ConversionError::FieldWrongType(
                    "name".to_string(),
                    "string".to_string(),
                )),
            },
            None => Err(ConversionError::FieldMissing("name".to_string())),
        }
    }
}

impl ObjectShapeWithId for ShapeWithId {
    fn get_object_id(&self) -> Option<i64> {
        self.object_id
    }

    fn set_object_id(&mut self, object_id: i64) {
        self.object_id = Some(object_id);
    }
}

#[derive(Clone, Debug, PartialEq)]
struct ParentShape {
    object_id: Option<i64>,
}

impl Queryable for ParentShape {
    fn q() -> QueryBuilder {
        Q
    }
}

impl ObjectShape for ParentShape {
    fn to_object(&self) -> Object {
        Object::new().with("kind", ss("parent"))
    }

    fn try_convert(_object: Object, _store: &Store) -> Result<Self, StoreError> {
        Ok(ParentShape { object_id: None })
    }
}

impl ObjectShapeWithId for ParentShape {
    fn get_object_id(&self) -> Option<i64> {
        self.object_id
    }

    fn set_object_id(&mut self, object_id: i64) {
        self.object_id = Some(object_id);
    }
}

#[derive(Clone, Debug, PartialEq)]
struct ShapeWithReferenced {
    object_id: Option<i64>,
    parent_shape: ParentShape,
}

impl Queryable for ShapeWithReferenced {
    fn q() -> QueryBuilder {
        Q
    }
}

impl ObjectShape for ShapeWithReferenced {
    fn to_object(&self) -> Object {
        let mut o = Object::new();
        if let Some(pid) = self.parent_shape.object_id {
            o.insert("parent_shape", pid);
        }
        o
    }

    fn try_convert(object: Object, store: &Store) -> Result<Self, StoreError> {
        let object_id = object.get("object_id").and_then(|v| v.as_number());
        let pid = match object.get("parent_shape").and_then(|v| v.as_number()) {
            Some(pid) => pid,
            None => {
                return Err(StoreError::Conversion(ConversionError::FieldMissing(
                    "parent_shape".to_string(),
                )));
            },
        };
        let mut parent: ParentShape = store.query(Q.id(pid)).one_converted(store)?;
        parent.object_id = Some(pid);
        Ok(ShapeWithReferenced { object_id, parent_shape: parent })
    }
}

impl ObjectShapeWithId for ShapeWithReferenced {
    fn get_object_id(&self) -> Option<i64> {
        self.object_id
    }

    fn set_object_id(&mut self, object_id: i64) {
        self.object_id = Some(object_id);
    }
}

#[test]
fn objects_can_be_iterated_as_a_shape() -> Result<(), StoreError> {
    let store = shape_populated_store()?;

    let mut all_blah: Vec<Blah> = store.all().iter_as::<Blah>()?;
    all_blah.sort_by_key(|blah| blah.name.clone());

    assert_eq!(
        all_blah,
        vec![
            Blah { name: "four".to_string() },
            Blah { name: "one".to_string() },
            Blah { name: "three".to_string() },
            Blah { name: "two".to_string() },
        ],
    );

    assert_eq!(
        store.query(Q.id(1)).one_as::<Blah>()?,
        Blah { name: "one".to_string() },
    );

    assert!(store.query(Q.id(5)).one_as::<Blah>().is_err());
    assert!(store.query(Q.like("name", "blah")).one_as::<Blah>().is_err());

    Ok(())
}

#[test]
fn objects_can_be_inserted_from_a_shape() -> Result<(), StoreError> {
    let store = shape_populated_store()?;

    let mut obj = ShapeWithId { object_id: None, name: "yo".to_string() };
    let mut checkpoint = store.checkpoint()?;
    checkpoint.add_with_id(&mut obj)?;
    let store = checkpoint.commit("add undoable object")?;

    assert!(obj.object_id.is_some());
    let object_id = obj.get_object_id().unwrap();

    assert_eq!(
        store.query(Q.id(object_id)).one_as::<ShapeWithId>()?,
        ShapeWithId { object_id: Some(object_id), name: "yo".to_string() },
    );

    Ok(())
}

#[test]
fn referenced_objects_can_be_found() -> Result<(), StoreError> {
    let store = shape_populated_store()?;

    let mut parent_shape = ParentShape { object_id: None };
    let mut checkpoint = store.checkpoint()?;
    checkpoint.add_with_id(&mut parent_shape)?;

    let mut shape_with_related = ShapeWithReferenced { object_id: None, parent_shape };
    checkpoint.add_with_id(&mut shape_with_related)?;
    let store = checkpoint.commit("add related object")?;

    assert_eq!(
        store
            .query(Q.id(shape_with_related.get_object_id().unwrap()))
            .one_converted::<ShapeWithReferenced>(&store)?
            .parent_shape,
        ParentShape { object_id: shape_with_related.parent_shape.object_id },
    );

    Ok(())
}

#[test]
fn converting_fails_when_fields_missing_or_wrong_type() -> Result<(), StoreError> {
    let store = Store::new();
    let mut checkpoint = store.checkpoint()?;
    checkpoint.add(Object::new().with("blah", ss("only")))?;
    checkpoint.add(Object::new().with("name", PropValue::Number(3)))?;
    let store = checkpoint.commit("add unconvertible objects")?;

    match store.query(Q.id(1)).one_as::<Blah>() {
        Err(StoreError::Conversion(ConversionError::FieldMissing(field))) => {
            assert_eq!(field, "name");
        },
        other => panic!("expected a missing-field error, got {:?}", other),
    }
    match store.query(Q.id(2)).one_as::<Blah>() {
        Err(StoreError::Conversion(ConversionError::FieldWrongType(field, expected))) => {
            assert_eq!(field, "name");
            assert_eq!(expected, "string");
        },
        other => panic!("expected a wrong-type error, got {:?}", other),
    }

    Ok(())
}
