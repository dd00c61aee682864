//! Reading an OpenAPI document: serde_norway parses the YAML text into openapiv3's
//! types, and the fields the frontend reads are copied, one for one, into the
//! library's plain model.

use vstd::prelude::*;

use crate::openapi::model::{
    ApiAdditionalProperties, ApiDocument, ApiComponents, ApiMediaType, ApiObjectType, ApiOperation,
    ApiParameter, ApiParameterFormat, ApiParameterLocation, ApiPathItem, RefOr, ApiRequestBody, ApiResponse,
    ApiResponses, ApiSchema, ApiSchemaKind, SchemaOrRef, ApiStatusCode, ApiStringFormat,
};

verus! {

/// serde_norway's error type, carried unchanged in `FrontendError::Yaml`.
#[verifier::external_type_specification]
#[verifier::external_body]
pub struct ExYamlError(serde_norway::Error);

/// openapiv3's whole document.
#[verifier::external_type_specification]
#[verifier::external_body]
pub struct ExOpenApi(openapiv3::OpenAPI);

/// openapiv3's `$ref`-or-item wrapper.
#[verifier::external_type_specification]
#[verifier::external_body]
#[verifier::reject_recursive_types(T)]
pub struct ExReferenceOr<T>(openapiv3::ReferenceOr<T>);

/// openapiv3's components.
#[verifier::external_type_specification]
#[verifier::external_body]
pub struct ExComponents(openapiv3::Components);

/// openapiv3's path item.
#[verifier::external_type_specification]
#[verifier::external_body]
pub struct ExPathItem(openapiv3::PathItem);

/// openapiv3's operation.
#[verifier::external_type_specification]
#[verifier::external_body]
pub struct ExOperation(openapiv3::Operation);

/// openapiv3's parameter.
#[verifier::external_type_specification]
#[verifier::external_body]
pub struct ExParameter(openapiv3::Parameter);

/// openapiv3's responses.
#[verifier::external_type_specification]
#[verifier::external_body]
pub struct ExResponses(openapiv3::Responses);

/// openapiv3's response.
#[verifier::external_type_specification]
#[verifier::external_body]
pub struct ExResponse(openapiv3::Response);

/// openapiv3's request body.
#[verifier::external_type_specification]
#[verifier::external_body]
pub struct ExRequestBody(openapiv3::RequestBody);

/// openapiv3's media type.
#[verifier::external_type_specification]
#[verifier::external_body]
pub struct ExMediaType(openapiv3::MediaType);

/// openapiv3's schema.
#[verifier::external_type_specification]
#[verifier::external_body]
pub struct ExSchema(openapiv3::Schema);

/// openapiv3's kinds of schema.
#[verifier::external_type_specification]
#[verifier::external_body]
pub struct ExSchemaKind(openapiv3::SchemaKind);

/// openapiv3's schema types.
#[verifier::external_type_specification]
#[verifier::external_body]
pub struct ExType(openapiv3::Type);

/// openapiv3's `format` of a string schema.
#[verifier::external_type_specification]
#[verifier::external_body]
#[verifier::reject_recursive_types(T)]
pub struct ExVariantOrUnknownOrEmpty<T>(openapiv3::VariantOrUnknownOrEmpty<T>);

/// openapiv3's known string formats.
#[verifier::external_type_specification]
#[verifier::external_body]
pub struct ExStringFormat(openapiv3::StringFormat);

/// openapiv3's object schema type.
#[verifier::external_type_specification]
#[verifier::external_body]
pub struct ExObjectType(openapiv3::ObjectType);

/// openapiv3's `additionalProperties`.
#[verifier::external_type_specification]
#[verifier::external_body]
pub struct ExAdditionalProperties(openapiv3::AdditionalProperties);

/// The document that `serde_norway::from_str::<openapiv3::OpenAPI>` reads from a YAML
/// text, as the library's model; `None` where that call fails.
pub uninterp spec fn parsed_document(yaml: Seq<char>) -> Option<ApiDocument>;

/// Calls `serde_norway::from_str::<openapiv3::OpenAPI>` on `yaml` and copies the document
/// into the library's model. Claimed: the outcome depends on the text alone, and fails
/// exactly where the name `parsed_document` has no document. Nothing more is stated of
/// what the parse gives.
#[verifier::external_body]
pub(crate) fn parse_document(yaml: &str) -> (r: Result<ApiDocument, serde_norway::Error>)
    ensures
        match r {
            Ok(d) => parsed_document(yaml@) == Some(d),
            Err(_) => parsed_document(yaml@) is None,
        },
{
    match serde_norway::from_str::<openapiv3::OpenAPI>(yaml) {
        Ok(api) => Ok(copy_document(&api)),
        Err(e) => Err(e),
    }
}

/// Copies `openapi`, `paths` and `components.schemas` of an openapiv3 document.
#[verifier::external_body]
fn copy_document(api: &openapiv3::OpenAPI) -> ApiDocument {
    let mut paths = Vec::new();
    for (path, item) in api.paths.paths.iter() {
        let copied = match item {
            openapiv3::ReferenceOr::Reference { reference } => RefOr::Reference(reference.clone()),
            openapiv3::ReferenceOr::Item(item) => RefOr::Item(copy_path_item(item)),
        };
        paths.push((path.clone(), copied));
    }
    let components = match &api.components {
        Some(components) => Some(copy_components(components)),
        None => None,
    };
    ApiDocument { openapi: api.openapi.clone(), paths, components }
}

/// Copies the operations and shared parameters of an openapiv3 path item.
#[verifier::external_body]
fn copy_path_item(item: &openapiv3::PathItem) -> ApiPathItem {
    ApiPathItem {
        get: item.get.as_ref().map(copy_operation),
        put: item.put.as_ref().map(copy_operation),
        post: item.post.as_ref().map(copy_operation),
        delete: item.delete.as_ref().map(copy_operation),
        options: item.options.as_ref().map(copy_operation),
        head: item.head.as_ref().map(copy_operation),
        patch: item.patch.as_ref().map(copy_operation),
        trace: item.trace.as_ref().map(copy_operation),
        parameters: copy_parameters(&item.parameters),
    }
}

/// Copies `operationId`, parameters, request body and responses of an openapiv3 operation.
#[verifier::external_body]
fn copy_operation(op: &openapiv3::Operation) -> ApiOperation {
    let request_body = match &op.request_body {
        Some(openapiv3::ReferenceOr::Reference { reference }) => Some(RefOr::Reference(reference.clone())),
        Some(openapiv3::ReferenceOr::Item(body)) => Some(RefOr::Item(copy_request_body(body))),
        None => None,
    };
    ApiOperation {
        operation_id: op.operation_id.clone(),
        parameters: copy_parameters(&op.parameters),
        request_body,
        responses: copy_responses(&op.responses),
    }
}

/// Copies a list of openapiv3 parameters.
#[verifier::external_body]
fn copy_parameters(params: &Vec<openapiv3::ReferenceOr<openapiv3::Parameter>>) -> Vec<RefOr<ApiParameter>> {
    let mut out = Vec::new();
    for param in params.iter() {
        out.push(match param {
            openapiv3::ReferenceOr::Reference { reference } => RefOr::Reference(reference.clone()),
            openapiv3::ReferenceOr::Item(param) => RefOr::Item(copy_parameter(param)),
        });
    }
    out
}

/// Copies `in`, `name` and the schema or content of an openapiv3 parameter.
#[verifier::external_body]
fn copy_parameter(param: &openapiv3::Parameter) -> ApiParameter {
    let location = match param {
        openapiv3::Parameter::Query { .. } => ApiParameterLocation::Query,
        openapiv3::Parameter::Header { .. } => ApiParameterLocation::Header,
        openapiv3::Parameter::Path { .. } => ApiParameterLocation::Path,
        openapiv3::Parameter::Cookie { .. } => ApiParameterLocation::Cookie,
    };
    let data = param.parameter_data_ref();
    let format = match &data.format {
        openapiv3::ParameterSchemaOrContent::Schema(schema) => ApiParameterFormat::Schema(copy_schema_or_ref(schema)),
        openapiv3::ParameterSchemaOrContent::Content(_) => ApiParameterFormat::Content,
    };
    ApiParameter { location, name: data.name.clone(), format }
}

/// Copies `responses.default` and the responses by status of an openapiv3 operation.
#[verifier::external_body]
fn copy_responses(responses: &openapiv3::Responses) -> ApiResponses {
    let mut out = Vec::new();
    for (status, response) in responses.responses.iter() {
        let status = match status {
            openapiv3::StatusCode::Code(n) => ApiStatusCode::Code(*n),
            openapiv3::StatusCode::Range(n) => ApiStatusCode::Range(*n),
        };
        out.push((status, copy_response_or_ref(response)));
    }
    ApiResponses { default: responses.default.as_ref().map(copy_response_or_ref), responses: out }
}

/// Copies an openapiv3 response or `$ref` to one.
#[verifier::external_body]
fn copy_response_or_ref(response: &openapiv3::ReferenceOr<openapiv3::Response>) -> RefOr<ApiResponse> {
    match response {
        openapiv3::ReferenceOr::Reference { reference } => RefOr::Reference(reference.clone()),
        openapiv3::ReferenceOr::Item(response) => {
            let mut content = Vec::new();
            for (content_type, media) in response.content.iter() {
                content.push((content_type.clone(), copy_media_type(media)));
            }
            RefOr::Item(ApiResponse { content })
        },
    }
}

/// Copies the content of an openapiv3 request body.
#[verifier::external_body]
fn copy_request_body(body: &openapiv3::RequestBody) -> ApiRequestBody {
    let mut content = Vec::new();
    for (content_type, media) in body.content.iter() {
        content.push((content_type.clone(), copy_media_type(media)));
    }
    ApiRequestBody { content }
}

/// Copies the schema of an openapiv3 media type.
#[verifier::external_body]
fn copy_media_type(media: &openapiv3::MediaType) -> ApiMediaType {
    ApiMediaType { schema: media.schema.as_ref().map(copy_schema_or_ref) }
}

/// Copies the named schemas of openapiv3 components, in order.
#[verifier::external_body]
fn copy_components(components: &openapiv3::Components) -> ApiComponents {
    let mut schemas = Vec::new();
    for (name, schema) in components.schemas.iter() {
        schemas.push((name.clone(), copy_schema_or_ref(schema)));
    }
    ApiComponents { schemas }
}

/// Copies an openapiv3 schema or `$ref` to one.
#[verifier::external_body]
fn copy_schema_or_ref(schema: &openapiv3::ReferenceOr<openapiv3::Schema>) -> SchemaOrRef {
    match schema {
        openapiv3::ReferenceOr::Reference { reference } => SchemaOrRef::Reference(reference.clone()),
        openapiv3::ReferenceOr::Item(schema) => SchemaOrRef::Item(Box::new(copy_schema(schema))),
    }
}

/// Copies a boxed openapiv3 schema or `$ref` to one (as found among properties).
#[verifier::external_body]
fn copy_boxed_schema_or_ref(schema: &openapiv3::ReferenceOr<Box<openapiv3::Schema>>) -> SchemaOrRef {
    match schema {
        openapiv3::ReferenceOr::Reference { reference } => SchemaOrRef::Reference(reference.clone()),
        openapiv3::ReferenceOr::Item(schema) => SchemaOrRef::Item(Box::new(copy_schema(schema))),
    }
}

/// Copies `nullable` and the kind of an openapiv3 schema.
#[verifier::external_body]
fn copy_schema(schema: &openapiv3::Schema) -> ApiSchema {
    ApiSchema { nullable: schema.schema_data.nullable, kind: copy_schema_kind(&schema.schema_kind) }
}

/// Tells the kinds of an openapiv3 schema apart.
#[verifier::external_body]
fn copy_schema_kind(kind: &openapiv3::SchemaKind) -> ApiSchemaKind {
    match kind {
        openapiv3::SchemaKind::Type(ty) => copy_type(ty),
        openapiv3::SchemaKind::OneOf { .. } => ApiSchemaKind::OneOf,
        openapiv3::SchemaKind::AllOf { .. } => ApiSchemaKind::AllOf,
        openapiv3::SchemaKind::AnyOf { .. } => ApiSchemaKind::AnyOf,
        openapiv3::SchemaKind::Not { .. } => ApiSchemaKind::Not,
        openapiv3::SchemaKind::Any(_) => ApiSchemaKind::Any,
    }
}

/// Tells the types of an openapiv3 schema apart, keeping a string's format and an
/// object's properties.
#[verifier::external_body]
fn copy_type(ty: &openapiv3::Type) -> ApiSchemaKind {
    match ty {
        openapiv3::Type::String(s) => ApiSchemaKind::String(copy_string_format(&s.format)),
        openapiv3::Type::Number(_) => ApiSchemaKind::Number,
        openapiv3::Type::Integer(_) => ApiSchemaKind::Integer,
        openapiv3::Type::Boolean(_) => ApiSchemaKind::Boolean,
        openapiv3::Type::Object(o) => ApiSchemaKind::Object(copy_object_type(o)),
        openapiv3::Type::Array(_) => ApiSchemaKind::Array,
    }
}

/// Tells the formats of an openapiv3 string schema apart.
#[verifier::external_body]
fn copy_string_format(format: &openapiv3::VariantOrUnknownOrEmpty<openapiv3::StringFormat>) -> ApiStringFormat {
    match format {
        openapiv3::VariantOrUnknownOrEmpty::Item(_) => ApiStringFormat::Known,
        openapiv3::VariantOrUnknownOrEmpty::Unknown(s) => ApiStringFormat::Unknown(s.clone()),
        openapiv3::VariantOrUnknownOrEmpty::Empty => ApiStringFormat::Empty,
    }
}

/// Copies the properties and `additionalProperties` of an openapiv3 object type.
#[verifier::external_body]
fn copy_object_type(o: &openapiv3::ObjectType) -> ApiObjectType {
    let mut properties = Vec::new();
    for (name, schema) in o.properties.iter() {
        properties.push((name.clone(), copy_boxed_schema_or_ref(schema)));
    }
    let additional_properties = match &o.additional_properties {
        Some(openapiv3::AdditionalProperties::Any(b)) => Some(ApiAdditionalProperties::Any(*b)),
        Some(openapiv3::AdditionalProperties::Schema(_)) => Some(ApiAdditionalProperties::Schema),
        None => None,
    };
    ApiObjectType { properties, additional_properties }
}

} // verus!
