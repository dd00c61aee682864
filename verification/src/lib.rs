//! A categorical intermediate representation (objects, morphisms, effect stacks and
//! law checks) and an OpenAPI v3.0 frontend that builds it.

pub mod category;
pub mod effect;
pub mod law_checker;
pub mod laws;
pub mod morphism;
pub mod name;
pub mod object;
pub mod openapi;

pub use category::{Category, CategoryError};
pub use effect::{Effect, EffectStack};
pub use law_checker::LawChecker;
pub use morphism::{Morphism, MorphismId, MorphismKind};
pub use name::IntoName;
pub use object::{Object, ObjectId, ObjectKind};
pub use openapi::error::FrontendError;
pub use openapi::{category_from_document, parse_openapi_yaml};
