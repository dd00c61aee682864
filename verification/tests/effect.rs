use functus::{Effect, EffectStack, ObjectId};

#[test]
fn pure_stack_has_no_layers() {
    assert!(EffectStack::pure().is_pure());
}

#[test]
fn render_nests_outer_to_inner() {
    let stack = EffectStack::wrapping(vec![
        Effect::Async,
        Effect::Fallible {
            error: ObjectId::from("ApiError"),
        },
    ]);
    let rendered = stack.render(&ObjectId::from("User"));
    assert_eq!(rendered, "Async<Result<User, ApiError>>");
}

#[test]
fn pure_stack_renders_its_payload() {
    assert_eq!(EffectStack::pure().render(&ObjectId::from("User")), "User");
    assert_eq!(EffectStack::default().layers().len(), 0);
}

#[test]
fn merge_puts_the_first_stack_outside() {
    let outer = EffectStack::wrapping(vec![Effect::Async]);
    let inner = EffectStack::wrapping(vec![Effect::Fallible {
        error: ObjectId::from("E"),
    }]);
    let merged = outer.merge(&inner);
    assert_eq!(
        merged.layers(),
        &[
            Effect::Async,
            Effect::Fallible {
                error: ObjectId::from("E")
            }
        ]
    );
    assert_eq!(merged.describe(), "Async<Result<_, E>>");
    assert_eq!(outer.merge(&EffectStack::pure()), outer);
    assert_eq!(EffectStack::pure().merge(&outer), outer);
}
