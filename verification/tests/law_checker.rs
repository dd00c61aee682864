use functus::{Category, CategoryError, LawChecker, Object, ObjectId};

fn user_fetch_category() -> (Category, ObjectId) {
    let mut category = Category::new();
    let idle = category.add_object(Object::scalar("Idle")).unwrap();
    let loading = category.add_object(Object::scalar("Loading")).unwrap();
    let user = category.add_object(Object::scalar("User")).unwrap();
    let api_error = category.add_object(Object::scalar("ApiError")).unwrap();
    let user_fetch = category
        .add_object(Object::coproduct(
            "UserFetch",
            vec![
                ("Idle".to_string(), idle),
                ("Loading".to_string(), loading),
                ("Success".to_string(), user),
                ("Failure".to_string(), api_error),
            ],
        ))
        .unwrap();
    (category, user_fetch)
}

#[test]
fn check_composable_rejects_dom_cod_mismatch() {
    let mut category = Category::new();
    let a = category.add_object(Object::scalar("A")).unwrap();
    let b = category.add_object(Object::scalar("B")).unwrap();
    let c = category.add_object(Object::scalar("C")).unwrap();
    let f = category.add_primitive_morphism("f", a, b).unwrap();
    let h = category.add_primitive_morphism("h", c.clone(), c).unwrap();

    let err = LawChecker::check_composable(&category, &f, &h).unwrap_err();
    assert!(matches!(err, CategoryError::DomCodMismatch { .. }));
}

#[test]
fn check_composable_accepts_a_matching_pair_without_registering_a_composed_morphism() {
    let mut category = Category::new();
    let a = category.add_object(Object::scalar("A")).unwrap();
    let b = category.add_object(Object::scalar("B")).unwrap();
    let c = category.add_object(Object::scalar("C")).unwrap();
    let f = category.add_primitive_morphism("f", a, b.clone()).unwrap();
    let g = category.add_primitive_morphism("g", b, c).unwrap();

    LawChecker::check_composable(&category, &f, &g).unwrap();
    assert_eq!(category.morphisms().count(), 2);
}

#[test]
fn check_coproduct_coverage_rejects_non_coproduct() {
    let mut category = Category::new();
    let a = category.add_object(Object::scalar("A")).unwrap();
    let err = LawChecker::check_coproduct_coverage(&category, &a).unwrap_err();
    assert_eq!(err, CategoryError::NotACoproduct(ObjectId::from("A")));
}

#[test]
fn check_coproduct_coverage_rejects_unknown_object() {
    let category = Category::new();
    let err =
        LawChecker::check_coproduct_coverage(&category, &ObjectId::from("Nowhere")).unwrap_err();
    assert_eq!(err, CategoryError::UnknownObject("Nowhere".to_string()));
}

#[test]
fn check_coproduct_coverage_reports_all_missing_variants() {
    let (category, user_fetch) = user_fetch_category();
    let err = LawChecker::check_coproduct_coverage(&category, &user_fetch).unwrap_err();
    match err {
        CategoryError::UnhandledCoproductVariants {
            coproduct,
            mut missing_variants,
        } => {
            assert_eq!(coproduct, user_fetch);
            missing_variants.sort();
            assert_eq!(
                missing_variants,
                vec!["Failure", "Idle", "Loading", "Success"]
            );
        }
        other => panic!("UnhandledCoproductVariants を期待したが {other:?} だった"),
    }
}

#[test]
fn check_coproduct_coverage_passes_once_every_variant_has_a_handler() {
    let (mut category, user_fetch) = user_fetch_category();
    let idle = ObjectId::from("Idle");
    let loading = ObjectId::from("Loading");
    let user = ObjectId::from("User");
    let api_error = ObjectId::from("ApiError");

    category
        .add_primitive_morphism("startLoading", idle, loading.clone())
        .unwrap();
    category
        .add_primitive_morphism("onSuccess", user, loading.clone())
        .unwrap();
    category
        .add_primitive_morphism("onFailure", api_error, loading)
        .unwrap();

    let err = LawChecker::check_coproduct_coverage(&category, &user_fetch).unwrap_err();
    assert_eq!(
        err,
        CategoryError::UnhandledCoproductVariants {
            coproduct: user_fetch.clone(),
            missing_variants: vec!["Loading".to_string()],
        }
    );

    category
        .add_primitive_morphism("retry", ObjectId::from("Loading"), ObjectId::from("Idle"))
        .unwrap();

    LawChecker::check_coproduct_coverage(&category, &user_fetch).unwrap();
}

#[test]
fn adding_a_handler_only_removes_its_variant_from_the_report() {
    let (mut category, user_fetch) = user_fetch_category();
    let missing = |c: &Category| match LawChecker::check_coproduct_coverage(c, &user_fetch) {
        Ok(()) => Vec::new(),
        Err(CategoryError::UnhandledCoproductVariants { missing_variants, .. }) => missing_variants,
        Err(other) => panic!("unexpected {other:?}"),
    };
    assert_eq!(missing(&category), vec!["Idle", "Loading", "Success", "Failure"]);
    category
        .add_primitive_morphism("onLoading", ObjectId::from("Loading"), ObjectId::from("User"))
        .unwrap();
    assert_eq!(missing(&category), vec!["Idle", "Success", "Failure"]);
    category
        .add_primitive_morphism("unrelated", ObjectId::from("UserFetch"), ObjectId::from("User"))
        .unwrap();
    assert_eq!(missing(&category), vec!["Idle", "Success", "Failure"]);
}
