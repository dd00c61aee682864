use functus::{Category, CategoryError, MorphismId, Object, ObjectId};

fn sample_category() -> (Category, ObjectId, ObjectId) {
    let mut category = Category::new();
    let a = category.add_object(Object::scalar("A")).unwrap();
    let b = category.add_object(Object::scalar("B")).unwrap();
    (category, a, b)
}

#[test]
fn compose_rejects_unknown_morphism() {
    let (mut category, _a, _b) = sample_category();
    let err = category
        .compose(
            &MorphismId::from("missing"),
            &MorphismId::from("also-missing"),
        )
        .unwrap_err();
    assert_eq!(err, CategoryError::UnknownMorphism("missing".to_string()));
}

#[test]
fn compose_rejects_dom_cod_mismatch() {
    let mut category = Category::new();
    let a = category.add_object(Object::scalar("A")).unwrap();
    let b = category.add_object(Object::scalar("B")).unwrap();
    let c = category.add_object(Object::scalar("C")).unwrap();
    let f = category.add_primitive_morphism("f", a, b).unwrap();
    let h = category.add_primitive_morphism("h", c.clone(), c).unwrap();

    let err = category.compose(&f, &h).unwrap_err();
    assert!(matches!(err, CategoryError::DomCodMismatch { .. }));
}

#[test]
fn identity_is_cached_per_object() {
    let (mut category, a, _b) = sample_category();
    let id1 = category.identity(&a).unwrap();
    let id2 = category.identity(&a).unwrap();
    assert_eq!(id1, id2);
}

#[test]
fn add_primitive_morphism_rejects_unknown_object() {
    let mut category = Category::new();
    let a = category.add_object(Object::scalar("A")).unwrap();
    let err = category
        .add_primitive_morphism("f", a, ObjectId::from("Missing"))
        .unwrap_err();
    assert_eq!(err, CategoryError::UnknownObject("Missing".to_string()));
}

#[test]
fn dom_cod_mismatch_names_both_sides() {
    let mut category = Category::new();
    let a = category.add_object(Object::scalar("A")).unwrap();
    let b = category.add_object(Object::scalar("B")).unwrap();
    let c = category.add_object(Object::scalar("C")).unwrap();
    let f = category.add_primitive_morphism("f", a, b).unwrap();
    let h = category.add_primitive_morphism("h", c.clone(), c).unwrap();
    let err = category.compose(&f, &h).unwrap_err();
    assert_eq!(
        err,
        CategoryError::DomCodMismatch {
            f: "f".to_string(),
            f_cod: "B".to_string(),
            g: "h".to_string(),
            g_dom: "C".to_string(),
        }
    );
}

#[test]
fn add_object_rejects_a_duplicate_identifier() {
    let mut category = Category::new();
    category.add_object(Object::scalar("A")).unwrap();
    let err = category.add_object(Object::scalar("A")).unwrap_err();
    assert_eq!(err, CategoryError::DuplicateObject(ObjectId::from("A")));
}

#[test]
fn add_object_rejects_a_forward_reference() {
    let mut category = Category::new();
    let err = category
        .add_object(Object::product(
            "User",
            vec![("address".to_string(), ObjectId::from("Address"))],
        ))
        .unwrap_err();
    assert_eq!(err, CategoryError::UnknownObject("Address".to_string()));
    assert!(category.object(&ObjectId::from("User")).is_none());
}

#[test]
fn added_object_is_found_again() {
    let mut category = Category::new();
    let s = category.add_object(Object::scalar("String")).unwrap();
    let user = Object::product("User", vec![("name".to_string(), s)]);
    let id = category.add_object(user.clone()).unwrap();
    assert_eq!(id, ObjectId::from("User"));
    assert_eq!(category.object(&id), Some(&user));
}

#[test]
fn identity_and_composite_render_as_text() {
    let mut category = Category::new();
    let a = category.add_object(Object::scalar("A")).unwrap();
    let b = category.add_object(Object::scalar("B")).unwrap();
    let c = category.add_object(Object::scalar("C")).unwrap();
    let f = category.add_primitive_morphism("f", a.clone(), b.clone()).unwrap();
    let g = category.add_primitive_morphism("g", b, c).unwrap();
    let id_a = category.identity(&a).unwrap();
    assert_eq!(id_a.render(), "id[A]");
    let fg = category.compose(&f, &g).unwrap();
    assert_eq!(fg.render(), "f;g");
    let err = category
        .compose(&fg, &MorphismId::from("nothing"))
        .unwrap_err();
    assert_eq!(err, CategoryError::UnknownMorphism("nothing".to_string()));
}

#[test]
fn re_adding_a_primitive_is_refused_and_changes_nothing() {
    let mut category = Category::new();
    let a = category.add_object(Object::scalar("A")).unwrap();
    let b = category.add_object(Object::scalar("B")).unwrap();
    let f1 = category.add_primitive_morphism("f", a.clone(), b.clone()).unwrap();
    let err = category.add_primitive_morphism("f", b.clone(), a.clone()).unwrap_err();
    assert_eq!(err, CategoryError::DuplicateMorphism(MorphismId::from("f")));
    let m = category.morphism(&f1).unwrap();
    assert_eq!(m.dom, a);
    assert_eq!(m.cod, b);
    assert_eq!(category.morphisms().count(), 1);
}

#[test]
fn composing_again_after_a_refused_re_registration_starts_where_f_starts() {
    let mut category = Category::new();
    let a = category.add_object(Object::scalar("A")).unwrap();
    let b = category.add_object(Object::scalar("B")).unwrap();
    let c = category.add_object(Object::scalar("C")).unwrap();
    let f = category.add_primitive_morphism("f", a.clone(), b.clone()).unwrap();
    let g = category.add_primitive_morphism("g", b.clone(), c.clone()).unwrap();
    let fg = category.compose(&f, &g).unwrap();
    assert!(category.add_primitive_morphism("f", c.clone(), b.clone()).is_err());
    let again = category.compose(&f, &g).unwrap();
    assert_eq!(fg, again);
    let m = category.morphism(&again).unwrap();
    assert_eq!(m.dom, a);
    assert_eq!(m.cod, c);
}

#[test]
fn as_str_gives_the_name_of_a_primitive_only() {
    let (mut category, a, b) = sample_category();
    let f = category.add_primitive_morphism("f", a.clone(), b.clone()).unwrap();
    assert_eq!(f.as_str(), Some("f"));
    let id = category.identity(&a).unwrap();
    assert_eq!(id.as_str(), None);
    let g = category.add_primitive_morphism("g", b.clone(), a.clone()).unwrap();
    let fg = category.compose(&f, &g).unwrap();
    assert_eq!(fg.as_str(), None);
    assert_eq!(fg.render(), "f;g");
}
