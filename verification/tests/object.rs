use functus::{Object, ObjectId, ObjectKind};

#[test]
fn scalar_object_has_no_fields() {
    let user_id = Object::scalar("UserId");
    assert_eq!(user_id.kind, ObjectKind::Scalar);
}

#[test]
fn product_object_holds_fields_in_order() {
    let user = Object::product(
        "User",
        vec![
            ("id".to_string(), ObjectId::from("UserId")),
            ("name".to_string(), ObjectId::from("String")),
        ],
    );
    match &user.kind {
        ObjectKind::Product(fields) => {
            assert_eq!(fields[0].0, "id");
            assert_eq!(fields[1].0, "name");
        }
        other => panic!("Product を期待したが {other:?} だった"),
    }
}

#[test]
fn coproduct_object_holds_variants() {
    let fetch_state = Object::coproduct(
        "UserFetch",
        vec![
            ("Idle".to_string(), ObjectId::from("Unit")),
            ("Success".to_string(), ObjectId::from("User")),
        ],
    );
    match &fetch_state.kind {
        ObjectKind::Coproduct(variants) => assert_eq!(variants.len(), 2),
        other => panic!("Coproduct を期待したが {other:?} だった"),
    }
}

#[test]
fn object_id_reads_back_its_text() {
    let id = ObjectId::new(String::from("User"));
    assert_eq!(id.as_str(), "User");
    assert!(id.same(&ObjectId::from("User")));
    assert!(!id.same(&ObjectId::from("user")));
}
