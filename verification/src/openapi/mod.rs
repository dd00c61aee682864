//! The OpenAPI v3.0 frontend: turns a YAML document into a category.

pub mod acyclic;
pub mod components;
pub mod content;
pub mod document;
pub mod error;
pub mod fields;
pub mod laws;
pub mod model;
pub mod params;
pub mod responses;
pub mod route;
pub mod schema;
pub mod text;

use vstd::prelude::*;

use crate::category::{Category, CategoryView};
use crate::openapi::components::{register_named_schemas, spec_register_named_schemas};
use crate::openapi::document::{parse_document, parsed_document};
use crate::openapi::error::{FrontendError, FrontendErrorView};
use crate::openapi::model::ApiDocument;
use crate::openapi::route::{register_routes, spec_register_paths};
use crate::openapi::text::{is_supported_version, supported_version};

verus! {

/// The category a document describes: refused unless its `openapi` field is a v3.0.x
/// version; otherwise its named schemas, then the operations of its paths.
pub open spec fn spec_category_from_document(doc: ApiDocument) -> Result<CategoryView, FrontendErrorView> {
    if !is_supported_version(doc.openapi@) {
        Err(FrontendErrorView::UnsupportedOpenApiVersion { version: doc.openapi@ })
    } else {
        let s = spec_register_named_schemas(CategoryView::empty(), doc);
        match s.1 {
            Err(e) => Err(e),
            Ok(_) => {
                let r = spec_register_paths(s.0, doc.paths@);
                match r.1 {
                    Err(e) => Err(e),
                    Ok(_) => Ok(r.0),
                }
            },
        }
    }
}

/// The outcome of building a category, as views.
pub open spec fn category_step(r: Result<Category, FrontendError>) -> Result<CategoryView, FrontendErrorView> {
    match r {
        Ok(c) => Ok(c@),
        Err(e) => Err(e@),
    }
}

/// The category an OpenAPI document describes (see [`spec_category_from_document`]).
pub fn category_from_document(doc: &ApiDocument) -> (r: Result<Category, FrontendError>)
    ensures
        category_step(r) == spec_category_from_document(*doc),
        r matches Ok(c) ==> c@.wf(),
{
    if !supported_version(doc.openapi.as_str()) {
        return Err(FrontendError::UnsupportedOpenApiVersion { version: doc.openapi.clone() });
    }
    let mut category = Category::new();
    match register_named_schemas(&mut category, doc) {
        Err(e) => {
            return Err(e);
        },
        Ok(()) => {},
    }
    match register_routes(&mut category, &doc.paths) {
        Err(e) => Err(e),
        Ok(()) => Ok(category),
    }
}

/// Turns an OpenAPI v3.0 YAML text into a category: refused when the text is not an
/// OpenAPI document, and otherwise as [`category_from_document`] on the document.
pub fn parse_openapi_yaml(yaml: &str) -> (r: Result<Category, FrontendError>)
    ensures
        match parsed_document(yaml@) {
            None => r matches Err(FrontendError::Yaml(_)),
            Some(doc) => category_step(r) == spec_category_from_document(doc),
        },
        r matches Ok(c) ==> c@.wf(),
{
    match parse_document(yaml) {
        Err(e) => Err(FrontendError::Yaml(e)),
        Ok(doc) => category_from_document(&doc),
    }
}

} // verus!
