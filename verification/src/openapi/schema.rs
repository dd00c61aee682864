//! Schemas to objects: inline scalars, schema references, and the named schemas of
//! `components.schemas`.

use vstd::prelude::*;

use crate::category::{spec_add_object, Category, CategoryView};
use crate::object::{Object, ObjectId, ObjectShape, ObjectView};
use crate::openapi::error::{id_step, FrontendError, FrontendErrorView};
use crate::openapi::model::{ApiSchema, ApiSchemaKind, ApiStringFormat, SchemaOrRef};
use crate::openapi::text::{schema_ref_name, schema_ref_target};

verus! {

/// Why a nullable schema is refused.
pub open spec fn reason_nullable() -> Seq<char> {
    "nullable: true は IR に null 許容の表現が無いため未対応"@
}

pub(crate) fn reason_nullable_text() -> (r: String)
    ensures
        r@ == reason_nullable(),
{
    String::from_str("nullable: true は IR に null 許容の表現が無いため未対応")
}

/// Why an inline object is refused.
pub open spec fn reason_nested_object() -> Seq<char> {
    "インラインのネストしたオブジェクトは未対応。components.schemas に名前を付けて $ref で参照すること"@
}

fn reason_nested_object_text() -> (r: String)
    ensures
        r@ == reason_nested_object(),
{
    String::from_str("インラインのネストしたオブジェクトは未対応。components.schemas に名前を付けて $ref で参照すること")
}

/// Why an array is refused.
pub open spec fn reason_array() -> Seq<char> {
    "配列型は未対応"@
}

fn reason_array_text() -> (r: String)
    ensures
        r@ == reason_array(),
{
    String::from_str("配列型は未対応")
}

/// Why oneOf, anyOf, allOf, not and untyped schemas are refused.
pub open spec fn reason_composite() -> Seq<char> {
    "oneOf/anyOf/allOf/not および型の無いスキーマは未対応"@
}

fn reason_composite_text() -> (r: String)
    ensures
        r@ == reason_composite(),
{
    String::from_str("oneOf/anyOf/allOf/not および型の無いスキーマは未対応")
}

/// The scalar an inline schema stands for, or why it is refused: a string is `Uuid`
/// with the `uuid` format and `String` with any other; integers, numbers and booleans
/// are `Integer`, `Number` and `Boolean`; nullable schemas, objects, arrays and
/// composite schemas are refused.
pub open spec fn inline_scalar(s: ApiSchema) -> Result<Seq<char>, Seq<char>> {
    if s.nullable {
        Err(reason_nullable())
    } else {
        match s.kind {
            ApiSchemaKind::String(f) => Ok(
                if f matches ApiStringFormat::Unknown(x) && x@ == "uuid"@ {
                    "Uuid"@
                } else {
                    "String"@
                },
            ),
            ApiSchemaKind::Integer => Ok("Integer"@),
            ApiSchemaKind::Number => Ok("Number"@),
            ApiSchemaKind::Boolean => Ok("Boolean"@),
            ApiSchemaKind::Object(_) => Err(reason_nested_object()),
            ApiSchemaKind::Array => Err(reason_array()),
            _ => Err(reason_composite()),
        }
    }
}

/// The category with the scalar `name` registered, unless an object of that name is.
pub open spec fn spec_intern_scalar(c: CategoryView, name: Seq<char>) -> CategoryView {
    if c.has_object(name) {
        c
    } else {
        c.push_object(ObjectView { id: name, kind: ObjectShape::Scalar })
    }
}

/// Resolving an inline schema: its scalar, registered on first use.
pub open spec fn spec_resolve_inline(c: CategoryView, context: Seq<char>, s: ApiSchema) -> (CategoryView, Result<Seq<char>, FrontendErrorView>) {
    match inline_scalar(s) {
        Err(reason) => (c, Err(FrontendErrorView::UnsupportedSchema { schema: context, reason })),
        Ok(name) => (spec_intern_scalar(c, name), Ok(name)),
    }
}

/// Resolving a `$ref`: the named schema it points at, unchecked.
pub open spec fn spec_resolve_ref(context: Seq<char>, reference: Seq<char>) -> Result<Seq<char>, FrontendErrorView> {
    match schema_ref_name(reference) {
        Some(name) => Ok(name),
        None => Err(FrontendErrorView::UnsupportedReference { context, reference }),
    }
}

/// Resolving a schema or `$ref` to the identifier of its object.
pub open spec fn spec_resolve_schema(c: CategoryView, context: Seq<char>, s: SchemaOrRef) -> (CategoryView, Result<Seq<char>, FrontendErrorView>) {
    match s {
        SchemaOrRef::Reference(r) => (c, spec_resolve_ref(context, r@)),
        SchemaOrRef::Item(b) => spec_resolve_inline(c, context, *b),
    }
}

/// Registers the scalar `name` unless an object of that name is registered, and
/// returns its identifier.
pub fn intern_scalar(c: &mut Category, name: &str) -> (r: ObjectId)
    ensures
        final(c)@ == spec_intern_scalar(old(c)@, name@),
        final(c)@.wf(),
        r@ == name@,
{
    proof {
        use_type_invariant(&*c);
    }
    let id = ObjectId::new(name);
    if c.object(&id).is_none() {
        let _ = c.add_object(Object::scalar(name));
        proof {
            assert(ObjectShape::Scalar.targets().len() == 0);
        }
    }
    id
}

fn scalar_name(s: &ApiSchema) -> (r: Result<&'static str, String>)
    ensures
        match r {
            Ok(n) => inline_scalar(*s) == Ok::<Seq<char>, Seq<char>>(n@),
            Err(reason) => inline_scalar(*s) == Err::<Seq<char>, Seq<char>>(reason@),
        },
{
    if s.nullable {
        return Err(reason_nullable_text());
    }
    match &s.kind {
        ApiSchemaKind::String(f) => {
            let is_uuid = match f {
                ApiStringFormat::Unknown(x) => {
                    let uuid = String::from_str("uuid");
                    *x == uuid
                },
                _ => false,
            };
            if is_uuid {
                Ok("Uuid")
            } else {
                Ok("String")
            }
        },
        ApiSchemaKind::Integer => Ok("Integer"),
        ApiSchemaKind::Number => Ok("Number"),
        ApiSchemaKind::Boolean => Ok("Boolean"),
        ApiSchemaKind::Object(_) => Err(reason_nested_object_text()),
        ApiSchemaKind::Array => Err(reason_array_text()),
        _ => Err(reason_composite_text()),
    }
}

/// The object an inline schema stands for (see [`inline_scalar`]).
pub fn resolve_inline(c: &mut Category, context: &String, s: &ApiSchema) -> (r: Result<ObjectId, FrontendError>)
    ensures
        (final(c)@, id_step(r)) == spec_resolve_inline(old(c)@, context@, *s),
        final(c)@.wf(),
{
    proof {
        use_type_invariant(&*c);
    }
    match scalar_name(s) {
        Err(reason) => Err(FrontendError::UnsupportedSchema { schema: context.clone(), reason }),
        Ok(name) => Ok(intern_scalar(c, name)),
    }
}

/// The named schema a `$ref` points at (see [`spec_resolve_ref`]).
pub fn resolve_ref(context: &String, reference: &String) -> (r: Result<ObjectId, FrontendError>)
    ensures
        id_step(r) == spec_resolve_ref(context@, reference@),
{
    match schema_ref_target(reference.as_str()) {
        Some(name) => Ok(ObjectId(name)),
        None => Err(
            FrontendError::UnsupportedReference { context: context.clone(), reference: reference.clone() },
        ),
    }
}

/// The object a schema or `$ref` stands for (see [`spec_resolve_schema`]).
pub fn resolve_schema(c: &mut Category, context: &String, s: &SchemaOrRef) -> (r: Result<ObjectId, FrontendError>)
    ensures
        (final(c)@, id_step(r)) == spec_resolve_schema(old(c)@, context@, *s),
        final(c)@.wf(),
{
    proof {
        use_type_invariant(&*c);
    }
    match s {
        SchemaOrRef::Reference(reference) => resolve_ref(context, reference),
        SchemaOrRef::Item(b) => resolve_inline(c, context, &**b),
    }
}

} // verus!
