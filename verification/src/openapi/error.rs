//! The errors of the OpenAPI frontend.

use vstd::prelude::*;

use crate::category::{strings_view, CategoryError, CategoryErrorView};
use crate::object::ObjectId;

verus! {

/// Why turning an OpenAPI document into a category failed.
///
/// More kinds of failure are expected, hence `#[non_exhaustive]`.
#[derive(Debug)]
#[non_exhaustive]
pub enum FrontendError {
    /// The YAML text could not be read as an OpenAPI document.
    Yaml(serde_norway::Error),
    /// The `openapi` field is not a v3.0.x version: openapiv3 reads v3.0.x only, and a
    /// v3.1 document that happens to parse would not be read correctly.
    UnsupportedOpenApiVersion {
        /// The document's `openapi` field.
        version: String,
    },
    /// A `$ref` that is not of the form `#/components/schemas/<name>`, or one in a place
    /// where only inline items are supported.
    UnsupportedReference {
        /// Where the `$ref` occurs.
        context: String,
        /// The reference.
        reference: String,
    },
    /// A schema shape this frontend does not support (nested objects, arrays, oneOf, ...).
    UnsupportedSchema {
        /// The schema's name or context.
        schema: String,
        /// Why it is not supported.
        reason: String,
    },
    /// An operation without `operationId`.
    MissingOperationId {
        /// The HTTP method.
        method: String,
        /// The path template.
        path: String,
    },
    /// An operation without any success response.
    MissingSuccessResponse {
        /// The operation.
        operation_id: String,
    },
    /// A named schema takes the name of a built-in scalar (`String`, `Uuid`, ...).
    ScalarNameCollision {
        /// The name.
        name: String,
    },
    /// The product generated for an operation's parameters takes a name already in use.
    GeneratedNameCollision {
        /// The operation.
        operation_id: String,
        /// The generated name.
        name: String,
    },
    /// The error responses (with `default`) carry different schemas, but a `Fallible`
    /// layer holds one error type.
    MultipleErrorResponsesUnsupported {
        /// The operation.
        operation_id: String,
        /// The labels (status codes) of the error responses.
        labels: Vec<String>,
    },
    /// The success responses carry different schemas, so the codomain is ambiguous.
    MultipleSuccessResponsesUnsupported {
        /// The operation.
        operation_id: String,
        /// The labels (status codes) of the success responses.
        labels: Vec<String>,
    },
    /// Registering an object or morphism in the category failed.
    Category(CategoryError),
}

/// Mathematical view of [`FrontendError`].
pub enum FrontendErrorView {
    Yaml,
    UnsupportedOpenApiVersion { version: Seq<char> },
    UnsupportedReference { context: Seq<char>, reference: Seq<char> },
    UnsupportedSchema { schema: Seq<char>, reason: Seq<char> },
    MissingOperationId { method: Seq<char>, path: Seq<char> },
    MissingSuccessResponse { operation_id: Seq<char> },
    ScalarNameCollision { name: Seq<char> },
    GeneratedNameCollision { operation_id: Seq<char>, name: Seq<char> },
    MultipleErrorResponsesUnsupported { operation_id: Seq<char>, labels: Seq<Seq<char>> },
    MultipleSuccessResponsesUnsupported { operation_id: Seq<char>, labels: Seq<Seq<char>> },
    Category(CategoryErrorView),
}

impl View for FrontendError {
    type V = FrontendErrorView;

    open spec fn view(&self) -> FrontendErrorView {
        match self {
            FrontendError::Yaml(_) => FrontendErrorView::Yaml,
            FrontendError::UnsupportedOpenApiVersion { version } => FrontendErrorView::UnsupportedOpenApiVersion {
                version: version@,
            },
            FrontendError::UnsupportedReference { context, reference } => FrontendErrorView::UnsupportedReference {
                context: context@,
                reference: reference@,
            },
            FrontendError::UnsupportedSchema { schema, reason } => FrontendErrorView::UnsupportedSchema {
                schema: schema@,
                reason: reason@,
            },
            FrontendError::MissingOperationId { method, path } => FrontendErrorView::MissingOperationId {
                method: method@,
                path: path@,
            },
            FrontendError::MissingSuccessResponse { operation_id } => FrontendErrorView::MissingSuccessResponse {
                operation_id: operation_id@,
            },
            FrontendError::ScalarNameCollision { name } => FrontendErrorView::ScalarNameCollision {
                name: name@,
            },
            FrontendError::GeneratedNameCollision { operation_id, name } => FrontendErrorView::GeneratedNameCollision {
                operation_id: operation_id@,
                name: name@,
            },
            FrontendError::MultipleErrorResponsesUnsupported { operation_id, labels } =>
                FrontendErrorView::MultipleErrorResponsesUnsupported {
                operation_id: operation_id@,
                labels: strings_view(labels@),
            },
            FrontendError::MultipleSuccessResponsesUnsupported { operation_id, labels } =>
                FrontendErrorView::MultipleSuccessResponsesUnsupported {
                operation_id: operation_id@,
                labels: strings_view(labels@),
            },
            FrontendError::Category(e) => FrontendErrorView::Category(e@),
        }
    }
}

/// The outcome of a step that yields an object identifier, as views.
pub open spec fn id_step(r: Result<ObjectId, FrontendError>) -> Result<Seq<char>, FrontendErrorView> {
    match r {
        Ok(x) => Ok(x@),
        Err(e) => Err(e@),
    }
}

/// The outcome of a step that yields nothing, as views.
pub open spec fn unit_step(r: Result<(), FrontendError>) -> Result<(), FrontendErrorView> {
    match r {
        Ok(()) => Ok(()),
        Err(e) => Err(e@),
    }
}

} // verus!
