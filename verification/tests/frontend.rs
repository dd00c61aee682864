use functus::openapi::text::{
    ascii_lowercase, decimal_text, eq_ignore_ascii_case, is_json_media_type, join_texts,
    media_essence_of, schema_ref_target, supported_version,
};
use functus::{
    parse_openapi_yaml, CategoryError, Effect, FrontendError, MorphismId, ObjectId, ObjectKind,
};

fn doc(body: &str) -> String {
    format!("openapi: 3.0.3\ninfo:\n  title: t\n  version: \"1.0.0\"\n{body}")
}

#[test]
fn version_strings_follow_the_three_part_rule() {
    assert!(supported_version("3.0.0"));
    assert!(supported_version("3.0.17"));
    assert!(!supported_version("3.0.+7"));
    assert!(supported_version("3.0.4294967295"));
    assert!(supported_version("3.0.123456789012345678901234567890"));
    assert!(!supported_version("3.0.1a"));
    assert!(!supported_version("3.0."));
    assert!(!supported_version("3.0.1.2"));
    assert!(!supported_version("3.1.0"));
    assert!(!supported_version("4.0.0"));
    assert!(!supported_version("3.0.-1"));
}

#[test]
fn media_types_are_reduced_to_their_essence() {
    assert_eq!(media_essence_of(" Application/JSON ; charset=utf-8"), "application/json");
    assert_eq!(media_essence_of("text/plain"), "text/plain");
    assert!(is_json_media_type("application/json"));
    assert!(is_json_media_type("application/problem+json"));
    assert!(is_json_media_type("Application/Vnd.Api+JSON; q=1"));
    assert!(!is_json_media_type("text/plain"));
    assert!(!is_json_media_type("application/jsonx"));
}

#[test]
fn ascii_case_is_folded_and_nothing_else() {
    assert_eq!(ascii_lowercase("X-Token-É"), "x-token-É");
    assert!(eq_ignore_ascii_case("X-Token", "x-token"));
    assert!(!eq_ignore_ascii_case("X-Token", "x-tokens"));
}

#[test]
fn schema_references_are_decoded() {
    assert_eq!(schema_ref_target("#/components/schemas/User"), Some("User".to_string()));
    assert_eq!(schema_ref_target("#/components/schemas/Foo~1Bar"), Some("Foo/Bar".to_string()));
    assert_eq!(schema_ref_target("#/components/schemas/a~0b"), Some("a~b".to_string()));
    assert_eq!(schema_ref_target("#/components/schemas/"), None);
    assert_eq!(schema_ref_target("#/components/schemas/a/b"), Some("a/b".to_string()));
    assert_eq!(schema_ref_target("#/components/schemas/a~2"), Some("a~2".to_string()));
    assert_eq!(schema_ref_target("#/components/schemas/~01"), Some("~1".to_string()));
    assert_eq!(schema_ref_target("#/components/responses/NotFound"), None);
    assert_eq!(schema_ref_target("other.yaml#/components/schemas/User"), None);
}

#[test]
fn decimal_and_join_texts() {
    assert_eq!(decimal_text(0), "0");
    assert_eq!(decimal_text(204), "204");
    assert_eq!(decimal_text(65535), "65535");
    let parts = vec!["A".to_string(), "B".to_string(), "C".to_string()];
    assert_eq!(join_texts(&parts, ", "), "A, B, C");
    assert_eq!(join_texts(&Vec::new(), ", "), "");
}

#[test]
fn an_empty_document_gives_an_empty_category() {
    let category = parse_openapi_yaml(&doc("paths: {}\n")).unwrap();
    assert_eq!(category.morphisms().count(), 0);
    assert!(category.object(&ObjectId::from("Unit")).is_none());
}

#[test]
fn the_leftover_schemas_of_a_cycle_are_named_in_declaration_order() {
    let yaml = doc(
        r##"paths: {}
components:
  schemas:
    A:
      type: object
      properties:
        b:
          $ref: "#/components/schemas/B"
    B:
      type: object
      properties:
        a:
          $ref: "#/components/schemas/A"
    C:
      type: object
      properties:
        v:
          type: string
"##,
    );
    match parse_openapi_yaml(&yaml).unwrap_err() {
        FrontendError::UnsupportedSchema { schema, .. } => assert_eq!(schema, "A, B"),
        other => panic!("unexpected {other:?}"),
    }
}

#[test]
fn a_reference_to_an_undeclared_schema_is_refused_by_the_category() {
    let yaml = doc(
        r##"paths: {}
components:
  schemas:
    A:
      type: object
      properties:
        b:
          $ref: "#/components/schemas/Missing"
"##,
    );
    match parse_openapi_yaml(&yaml).unwrap_err() {
        FrontendError::Category(CategoryError::UnknownObject(name)) => assert_eq!(name, "Missing"),
        other => panic!("unexpected {other:?}"),
    }
}

#[test]
fn a_named_schema_given_by_reference_is_refused() {
    let yaml = doc(
        r##"paths: {}
components:
  schemas:
    A:
      $ref: "#/components/schemas/B"
"##,
    );
    match parse_openapi_yaml(&yaml).unwrap_err() {
        FrontendError::UnsupportedReference { context, reference } => {
            assert_eq!(context, "components.schemas.A");
            assert_eq!(reference, "#/components/schemas/B");
        }
        other => panic!("unexpected {other:?}"),
    }
}

#[test]
fn top_level_schemas_must_be_objects() {
    let yaml = doc("paths: {}\ncomponents:\n  schemas:\n    Name:\n      type: string\n");
    match parse_openapi_yaml(&yaml).unwrap_err() {
        FrontendError::UnsupportedSchema { schema, .. } => assert_eq!(schema, "Name"),
        other => panic!("unexpected {other:?}"),
    }
}

#[test]
fn arrays_nested_objects_and_composites_are_refused_with_their_place() {
    for (kind, expected) in [
        ("type: array\n          items:\n            type: string", "A.x"),
        ("type: object\n          properties:\n            y:\n              type: string", "A.x"),
        ("oneOf:\n            - type: string\n            - type: integer", "A.x"),
    ] {
        let yaml = doc(&format!(
            "paths: {{}}\ncomponents:\n  schemas:\n    A:\n      type: object\n      properties:\n        x:\n          {kind}\n"
        ));
        match parse_openapi_yaml(&yaml).unwrap_err() {
            FrontendError::UnsupportedSchema { schema, .. } => assert_eq!(schema, expected),
            other => panic!("unexpected {other:?}"),
        }
    }
}

#[test]
fn a_path_item_given_by_reference_is_refused() {
    let yaml = doc(
        r##"paths:
  /a:
    $ref: "#/components/pathItems/A"
"##,
    );
    match parse_openapi_yaml(&yaml).unwrap_err() {
        FrontendError::UnsupportedReference { context, .. } => assert_eq!(context, "paths./a"),
        other => panic!("unexpected {other:?}"),
    }
}

#[test]
fn an_operation_without_responses_of_success_is_refused() {
    let yaml = doc(
        r##"paths:
  /a:
    get:
      operationId: getA
      responses:
        "404":
          description: missing
"##,
    );
    match parse_openapi_yaml(&yaml).unwrap_err() {
        FrontendError::MissingSuccessResponse { operation_id } => assert_eq!(operation_id, "getA"),
        other => panic!("unexpected {other:?}"),
    }
}

#[test]
fn a_parameter_described_by_content_is_refused() {
    let yaml = doc(
        r##"paths:
  /a:
    get:
      operationId: getA
      parameters:
        - name: filter
          in: query
          content:
            application/json:
              schema:
                type: string
      responses:
        "200":
          description: ok
"##,
    );
    match parse_openapi_yaml(&yaml).unwrap_err() {
        FrontendError::UnsupportedSchema { schema, .. } => assert_eq!(schema, "getA.filter"),
        other => panic!("unexpected {other:?}"),
    }
}

#[test]
fn a_request_body_given_by_reference_is_refused() {
    let yaml = doc(
        r##"paths:
  /a:
    post:
      operationId: postA
      requestBody:
        $ref: "#/components/requestBodies/A"
      responses:
        "200":
          description: ok
"##,
    );
    assert!(matches!(
        parse_openapi_yaml(&yaml).unwrap_err(),
        FrontendError::UnsupportedReference { .. }
    ));
}

#[test]
fn success_labels_name_every_candidate() {
    let yaml = doc(
        r##"paths:
  /a:
    get:
      operationId: getA
      responses:
        "2XX":
          description: any
          content:
            application/json:
              schema:
                type: string
        "200":
          description: ok
          content:
            application/json:
              schema:
                type: integer
"##,
    );
    match parse_openapi_yaml(&yaml).unwrap_err() {
        FrontendError::MultipleSuccessResponsesUnsupported { operation_id, labels } => {
            assert_eq!(operation_id, "getA");
            assert_eq!(labels, vec!["2XX".to_string(), "200".to_string()]);
        }
        other => panic!("unexpected {other:?}"),
    }
}

#[test]
fn a_bodiless_error_response_stands_for_unit() {
    let yaml = doc(
        r##"paths:
  /a:
    delete:
      operationId: deleteA
      responses:
        "204":
          description: done
        "404":
          description: missing
"##,
    );
    let category = parse_openapi_yaml(&yaml).unwrap();
    let m = category.morphism(&MorphismId::from("deleteA")).unwrap();
    assert_eq!(m.dom, ObjectId::from("Unit"));
    assert_eq!(m.cod, ObjectId::from("Unit"));
    assert_eq!(
        m.effects.layers(),
        &[Effect::Async, Effect::Fallible { error: ObjectId::from("Unit") }]
    );
}

#[test]
fn shared_names_take_their_location_and_then_underscores() {
    let yaml = doc(
        r##"paths:
  /a/{id}:
    get:
      operationId: getA
      parameters:
        - name: id
          in: path
          required: true
          schema:
            type: string
        - name: id
          in: query
          schema:
            type: integer
        - name: id_path
          in: header
          schema:
            type: boolean
      responses:
        "200":
          description: ok
"##,
    );
    let category = parse_openapi_yaml(&yaml).unwrap();
    let params = category.object(&ObjectId::from("getAParams")).unwrap();
    match &params.kind {
        ObjectKind::Product(fields) => {
            let names: Vec<&str> = fields.iter().map(|(n, _)| n.as_str()).collect();
            assert_eq!(names, vec!["id_path", "id_query", "id_path_"]);
            assert_eq!(fields[2].1, ObjectId::from("Boolean"));
        }
        other => panic!("unexpected {other:?}"),
    }
}

#[test]
fn every_operation_of_a_path_becomes_a_morphism_in_method_order() {
    let yaml = doc(
        r##"paths:
  /a:
    post:
      operationId: postA
      responses:
        "201":
          description: created
    get:
      operationId: getA
      responses:
        "200":
          description: ok
"##,
    );
    let category = parse_openapi_yaml(&yaml).unwrap();
    let names: Vec<String> = category.morphisms().map(|m| m.id.render()).collect();
    assert_eq!(names, vec!["getA".to_string(), "postA".to_string()]);
}

#[test]
fn a_header_override_keeps_the_position_of_the_path_item_parameter() {
    let yaml = doc(
        r##"paths:
  /a:
    parameters:
      - name: X-Token
        in: header
        schema:
          type: string
      - name: page
        in: query
        schema:
          type: integer
    get:
      operationId: getA
      parameters:
        - name: x-token
          in: header
          schema:
            type: boolean
      responses:
        "200":
          description: ok
"##,
    );
    let category = parse_openapi_yaml(&yaml).unwrap();
    let params = category.object(&ObjectId::from("getAParams")).unwrap();
    match &params.kind {
        ObjectKind::Product(fields) => {
            assert_eq!(fields[0], ("x-token".to_string(), ObjectId::from("Boolean")));
            assert_eq!(fields[1], ("page".to_string(), ObjectId::from("Integer")));
        }
        other => panic!("unexpected {other:?}"),
    }
}

#[test]
fn every_parsed_morphism_is_an_asynchronous_operation() {
    let yaml = doc(
        r##"paths:
  /a:
    get:
      operationId: getA
      responses:
        "200":
          description: ok
    put:
      operationId: putA
      responses:
        "200":
          description: ok
        "409":
          description: conflict
          content:
            application/json:
              schema:
                type: string
"##,
    );
    let category = parse_openapi_yaml(&yaml).unwrap();
    let layers: Vec<Vec<Effect>> = category.morphisms().map(|m| m.effects.layers().to_vec()).collect();
    assert_eq!(
        layers,
        vec![
            vec![Effect::Async],
            vec![Effect::Async, Effect::Fallible { error: ObjectId::from("String") }],
        ]
    );
}

#[test]
fn two_operations_sharing_an_operation_id_are_refused() {
    let yaml = doc(
        r##"paths:
  /a:
    get:
      operationId: same
      responses:
        "200":
          description: ok
  /b:
    get:
      operationId: same
      responses:
        "200":
          description: ok
"##,
    );
    match parse_openapi_yaml(&yaml).unwrap_err() {
        FrontendError::Category(CategoryError::DuplicateMorphism(id)) => {
            assert_eq!(id, MorphismId::from("same"))
        }
        other => panic!("unexpected {other:?}"),
    }
}
