use qualia::{Object, PropValue, Q, Store, StoreError};

fn title_store() -> Result<Store, StoreError> {
    let store = Store::new();
    let mut checkpoint = store.checkpoint()?;
    checkpoint.add(
        Object::new().with("title", PropValue::String("why the lucky stiff".to_string())),
    )?;
    checkpoint.commit("add title")
}

#[test]
fn like_patterns_match_whole_words_in_order() -> Result<(), StoreError> {
    let store = title_store()?;

    assert!(store.query(Q.like("title", "why")).has_any()?);
    assert!(store.query(Q.like("title", "why luck*")).has_any()?);
    assert!(store.query(Q.like("title", "*tiff")).has_any()?);
    assert!(store.query(Q.like("title", "the *ck*")).has_any()?);

    assert!(!store.query(Q.like("title", "wh")).has_any()?);
    assert!(!store.query(Q.like("title", "lucky why")).has_any()?);

    Ok(())
}

#[test]
fn like_matching_ignores_ascii_case() -> Result<(), StoreError> {
    let store = title_store()?;

    assert!(store.query(Q.like("title", "WHY")).has_any()?);
    assert!(store.query(Q.like("title", "Lucky")).has_any()?);
    assert!(store.query(Q.like("title", "wHy lUcK*")).has_any()?);

    Ok(())
}

#[test]
fn like_star_stays_inside_one_word() -> Result<(), StoreError> {
    let store = title_store()?;

    // `why*stiff` would have to span three word boundaries, which `*` never does
    assert!(!store.query(Q.like("title", "why*stiff")).has_any()?);
    // `luck*` stays within "lucky"
    assert!(store.query(Q.like("title", "luck*")).has_any()?);

    Ok(())
}

#[test]
fn like_matches_number_properties_as_text() -> Result<(), StoreError> {
    let store = Store::new();
    let mut checkpoint = store.checkpoint()?;
    checkpoint.add(
        Object::new().with("name", PropValue::String("answer".to_string())).with(
            "num",
            PropValue::Number(42),
        ),
    )?;
    checkpoint.add(
        Object::new().with("name", PropValue::String("negative".to_string())).with(
            "num",
            PropValue::Number(-7),
        ),
    )?;
    let store = checkpoint.commit("add numbered")?;

    assert!(store.query(Q.like("num", "42")).has_any()?);
    assert!(store.query(Q.like("num", "4*")).has_any()?);
    assert!(!store.query(Q.like("num", "43")).has_any()?);
    assert!(store.query(Q.like("num", "7")).has_any()?);

    Ok(())
}

#[test]
fn like_on_missing_property_matches_nothing() -> Result<(), StoreError> {
    let store = title_store()?;

    assert!(!store.query(Q.like("subtitle", "why")).has_any()?);

    Ok(())
}

#[test]
fn empty_like_pattern_matches_everything() -> Result<(), StoreError> {
    let store = title_store()?;

    assert!(store.query(Q.like("title", "")).has_any()?);
    assert!(store.query(Q.like("title", "   ")).has_any()?);

    Ok(())
}
