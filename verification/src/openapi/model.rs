//! The parts of an OpenAPI v3.0 document that the frontend reads, as plain values.

use vstd::prelude::*;

verus! {

/// A `$ref` or an inline item.
pub enum RefOr<T> {
    /// `$ref: <reference>`.
    Reference(String),
    /// The item itself.
    Item(T),
}

/// A schema, or a `$ref` to one.
pub enum SchemaOrRef {
    /// `$ref: <reference>`.
    Reference(String),
    /// An inline schema.
    Item(Box<ApiSchema>),
}

/// A whole document.
pub struct ApiDocument {
    /// The `openapi` field: the version of the specification the document follows.
    pub openapi: String,
    /// `paths`, in declaration order.
    pub paths: Vec<(String, RefOr<ApiPathItem>)>,
    /// `components`.
    pub components: Option<ApiComponents>,
}

/// `components`.
pub struct ApiComponents {
    /// `components.schemas`, in declaration order.
    pub schemas: Vec<(String, SchemaOrRef)>,
}

/// A path item: its operations by method and its shared parameters.
pub struct ApiPathItem {
    pub get: Option<ApiOperation>,
    pub put: Option<ApiOperation>,
    pub post: Option<ApiOperation>,
    pub delete: Option<ApiOperation>,
    pub options: Option<ApiOperation>,
    pub head: Option<ApiOperation>,
    pub patch: Option<ApiOperation>,
    pub trace: Option<ApiOperation>,
    /// Parameters shared by every operation of the path.
    pub parameters: Vec<RefOr<ApiParameter>>,
}

/// An operation.
pub struct ApiOperation {
    /// `operationId`.
    pub operation_id: Option<String>,
    /// ApiOperation-level parameters.
    pub parameters: Vec<RefOr<ApiParameter>>,
    /// `requestBody`.
    pub request_body: Option<RefOr<ApiRequestBody>>,
    /// `responses`.
    pub responses: ApiResponses,
}

/// `responses`.
pub struct ApiResponses {
    /// `responses.default`.
    pub default: Option<RefOr<ApiResponse>>,
    /// The responses by status, in declaration order.
    pub responses: Vec<(ApiStatusCode, RefOr<ApiResponse>)>,
}

/// A response status: an exact code, or a range such as `2XX` (held as `2`).
pub enum ApiStatusCode {
    Code(u16),
    Range(u16),
}

/// A response.
pub struct ApiResponse {
    /// Its media types by content type, in declaration order.
    pub content: Vec<(String, ApiMediaType)>,
}

/// A request body.
pub struct ApiRequestBody {
    /// Its media types by content type, in declaration order.
    pub content: Vec<(String, ApiMediaType)>,
}

/// A media type.
pub struct ApiMediaType {
    /// Its schema.
    pub schema: Option<SchemaOrRef>,
}

/// Where a parameter goes.
pub enum ApiParameterLocation {
    Query,
    Header,
    Path,
    Cookie,
}

/// A parameter.
pub struct ApiParameter {
    /// `in`.
    pub location: ApiParameterLocation,
    /// `name`.
    pub name: String,
    /// How the parameter's value is described.
    pub format: ApiParameterFormat,
}

/// How a parameter's value is described.
pub enum ApiParameterFormat {
    /// By a schema.
    Schema(SchemaOrRef),
    /// By media types (`content`).
    Content,
}

/// A schema.
pub struct ApiSchema {
    /// `nullable`.
    pub nullable: bool,
    /// The kind of schema.
    pub kind: ApiSchemaKind,
}

/// The kinds of schema.
pub enum ApiSchemaKind {
    /// `type: string`, with its `format`.
    String(ApiStringFormat),
    /// `type: number`.
    Number,
    /// `type: integer`.
    Integer,
    /// `type: boolean`.
    Boolean,
    /// `type: object`.
    Object(ApiObjectType),
    /// `type: array`.
    Array,
    /// `oneOf`.
    OneOf,
    /// `allOf`.
    AllOf,
    /// `anyOf`.
    AnyOf,
    /// `not`.
    Not,
    /// Any other combination of keywords.
    Any,
}

/// The `format` of a string schema.
pub enum ApiStringFormat {
    /// One of the formats the specification names (`date`, `date-time`, `password`, `byte`, `binary`).
    Known,
    /// Any other format, such as `uuid`.
    Unknown(String),
    /// No format.
    Empty,
}

/// `type: object`.
pub struct ApiObjectType {
    /// `properties`, in declaration order.
    pub properties: Vec<(String, SchemaOrRef)>,
    /// `additionalProperties`.
    pub additional_properties: Option<ApiAdditionalProperties>,
}

/// `additionalProperties`.
pub enum ApiAdditionalProperties {
    /// `true` or `false`.
    Any(bool),
    /// A schema for the values.
    Schema,
}

} // verus!
