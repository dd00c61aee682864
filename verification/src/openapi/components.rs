//! The named schemas of `components.schemas`, registered as products in an order
//! that puts every referenced schema before the schemas that refer to it.

use vstd::prelude::*;

use crate::category::{spec_add_object, Category, CategoryView};
use crate::object::{members_view, Object, ObjectId, ObjectShape, ObjectView};
use crate::openapi::error::{FrontendError, FrontendErrorView};
use crate::openapi::model::{ApiAdditionalProperties, ApiDocument, ApiObjectType, ApiSchemaKind, SchemaOrRef};
use crate::openapi::schema::{reason_nullable, reason_nullable_text, resolve_schema, spec_resolve_schema};
use crate::openapi::text::{concat2, concat3, join, join_texts, schema_ref_name, schema_ref_target};

verus! {

/// Why a named schema that is not `type: object` is refused.
pub open spec fn reason_not_object() -> Seq<char> {
    "type: object 以外のトップレベルスキーマは未対応"@
}

fn reason_not_object_text() -> (r: String)
    ensures
        r@ == reason_not_object(),
{
    String::from_str("type: object 以外のトップレベルスキーマは未対応")
}

/// Why a dictionary (`additionalProperties` with a schema) is refused.
pub open spec fn reason_dictionary() -> Seq<char> {
    "additionalProperties に型付きスキーマを持つ辞書型は未対応"@
}

fn reason_dictionary_text() -> (r: String)
    ensures
        r@ == reason_dictionary(),
{
    String::from_str("additionalProperties に型付きスキーマを持つ辞書型は未対応")
}

/// Why schemas that never become registrable are refused.
pub open spec fn reason_cycle() -> Seq<char> {
    "components.schemas 間で循環参照している、または依存先が解決できない"@
}

fn reason_cycle_text() -> (r: String)
    ensures
        r@ == reason_cycle(),
{
    String::from_str("components.schemas 間で循環参照している、または依存先が解決できない")
}

/// The names of the built-in scalars, which no named schema may take.
pub open spec fn is_reserved_name(n: Seq<char>) -> bool {
    ||| n == "String"@
    ||| n == "Uuid"@
    ||| n == "Integer"@
    ||| n == "Number"@
    ||| n == "Boolean"@
    ||| n == "Unit"@
}

fn reserved_name(n: &String) -> (r: bool)
    ensures
        r == is_reserved_name(n@),
{
    *n == String::from_str("String") || *n == String::from_str("Uuid") || *n == String::from_str(
        "Integer",
    ) || *n == String::from_str("Number") || *n == String::from_str("Boolean") || *n
        == String::from_str("Unit")
}

/// Where an entry of `components.schemas` stands, for error messages.
pub open spec fn entry_context(name: Seq<char>) -> Seq<char> {
    "components.schemas."@ + name
}

/// Where a property of a named schema stands, for error messages.
pub open spec fn field_context(schema: Seq<char>, field: Seq<char>) -> Seq<char> {
    schema + "."@ + field
}

/// What is wrong with an entry before anything is registered: a `$ref` in place of
/// a schema, or the name of a built-in scalar.
pub open spec fn entry_error(e: (String, SchemaOrRef)) -> Option<FrontendErrorView> {
    match e.1 {
        SchemaOrRef::Reference(r) => Some(
            FrontendErrorView::UnsupportedReference { context: entry_context(e.0@), reference: r@ },
        ),
        SchemaOrRef::Item(_) => if is_reserved_name(e.0@) {
            Some(FrontendErrorView::ScalarNameCollision { name: e.0@ })
        } else {
            None
        },
    }
}

/// The first entry error, in declaration order.
pub open spec fn entries_error(es: Seq<(String, SchemaOrRef)>) -> Option<FrontendErrorView>
    decreases es.len(),
{
    if es.len() == 0 {
        None
    } else {
        match entry_error(es[0]) {
            Some(e) => Some(e),
            None => entries_error(es.drop_first()),
        }
    }
}

/// The object type a named schema must be: `type: object`, not nullable, and without
/// a schema for `additionalProperties`.
pub open spec fn top_level_object(name: Seq<char>, s: SchemaOrRef) -> Result<ApiObjectType, FrontendErrorView> {
    match s {
        SchemaOrRef::Reference(r) => Err(
            FrontendErrorView::UnsupportedReference { context: entry_context(name), reference: r@ },
        ),
        SchemaOrRef::Item(b) => if b.nullable {
            Err(FrontendErrorView::UnsupportedSchema { schema: name, reason: reason_nullable() })
        } else {
            match b.kind {
                ApiSchemaKind::Object(o) => if o.additional_properties matches Some(
                    ApiAdditionalProperties::Schema,
                ) {
                    Err(FrontendErrorView::UnsupportedSchema { schema: name, reason: reason_dictionary() })
                } else {
                    Ok(o)
                },
                _ => Err(FrontendErrorView::UnsupportedSchema { schema: name, reason: reason_not_object() }),
            }
        },
    }
}

/// The names of the entries, in declaration order.
pub open spec fn entry_names(es: Seq<(String, SchemaOrRef)>) -> Seq<Seq<char>> {
    es.map_values(|e: (String, SchemaOrRef)| e.0@)
}

/// Whether a property refers to a named schema of `known` that is not registered yet.
pub open spec fn property_waits(c: CategoryView, known: Seq<Seq<char>>, p: SchemaOrRef) -> bool {
    match p {
        SchemaOrRef::Reference(r) => match schema_ref_name(r@) {
            Some(n) => known.contains(n) && !c.has_object(n),
            None => false,
        },
        SchemaOrRef::Item(_) => false,
    }
}

/// Whether some property refers to a named schema of `known` that is not registered yet.
pub open spec fn waits(c: CategoryView, known: Seq<Seq<char>>, props: Seq<(String, SchemaOrRef)>) -> bool {
    exists|k: int| 0 <= k < props.len() && property_waits(c, known, #[trigger] props[k].1)
}

/// Resolving the properties of the named schema `name` in order, after the fields `acc`:
/// each property becomes a field named after it.
pub open spec fn spec_fields(
    c: CategoryView,
    name: Seq<char>,
    props: Seq<(String, SchemaOrRef)>,
    acc: Seq<(Seq<char>, Seq<char>)>,
) -> (CategoryView, Result<Seq<(Seq<char>, Seq<char>)>, FrontendErrorView>)
    decreases props.len(),
{
    if props.len() == 0 {
        (c, Ok(acc))
    } else {
        let step = spec_resolve_schema(c, field_context(name, props[0].0@), props[0].1);
        match step.1 {
            Err(e) => (step.0, Err(e)),
            Ok(id) => spec_fields(step.0, name, props.drop_first(), acc.push((props[0].0@, id))),
        }
    }
}

/// Registering the named schema `name` as the product of its properties.
pub open spec fn spec_register_schema(c: CategoryView, name: Seq<char>, o: ApiObjectType) -> (CategoryView, Result<(), FrontendErrorView>) {
    let fields = spec_fields(c, name, o.properties@, Seq::empty());
    match fields.1 {
        Err(e) => (fields.0, Err(e)),
        Ok(fs) => {
            let added = spec_add_object(fields.0, ObjectView { id: name, kind: ObjectShape::Product(fs) });
            match added.1 {
                Err(e) => (added.0, Err(FrontendErrorView::Category(e))),
                Ok(_) => (added.0, Ok(())),
            }
        },
    }
}

/// One entry of a pass: refused if it is not an object type, put off while it waits on
/// an unregistered named schema, and registered otherwise.
pub open spec fn spec_pass_step(
    c: CategoryView,
    es: Seq<(String, SchemaOrRef)>,
    i: usize,
    deferred: Seq<usize>,
    progressed: bool,
) -> (CategoryView, Result<(Seq<usize>, bool), FrontendErrorView>) {
    let name = es[i as int].0@;
    match top_level_object(name, es[i as int].1) {
        Err(e) => (c, Err(e)),
        Ok(o) => if waits(c, entry_names(es), o.properties@) {
            (c, Ok((deferred.push(i), progressed)))
        } else {
            let step = spec_register_schema(c, name, o);
            match step.1 {
                Err(e) => (step.0, Err(e)),
                Ok(_) => (step.0, Ok((deferred, true))),
            }
        },
    }
}

/// A pass over the pending entries in order: what is put off, and whether anything
/// was registered.
pub open spec fn spec_pass(
    c: CategoryView,
    es: Seq<(String, SchemaOrRef)>,
    pending: Seq<usize>,
    deferred: Seq<usize>,
    progressed: bool,
) -> (CategoryView, Result<(Seq<usize>, bool), FrontendErrorView>)
    decreases pending.len(),
{
    if pending.len() == 0 {
        (c, Ok((deferred, progressed)))
    } else {
        let step = spec_pass_step(c, es, pending[0], deferred, progressed);
        match step.1 {
            Err(e) => (step.0, Err(e)),
            Ok(acc) => spec_pass(step.0, es, pending.drop_first(), acc.0, acc.1),
        }
    }
}

/// A pass puts off at most the entries it was given, and fewer when it registers one.
pub proof fn lemma_pass_defers(
    c: CategoryView,
    es: Seq<(String, SchemaOrRef)>,
    pending: Seq<usize>,
    deferred: Seq<usize>,
    progressed: bool,
)
    ensures
        spec_pass(c, es, pending, deferred, progressed).1 matches Ok(acc) ==> {
            &&& acc.0.len() <= deferred.len() + pending.len()
            &&& (acc.1 && !progressed) ==> acc.0.len() < deferred.len() + pending.len()
        },
    decreases pending.len(),
{
    if pending.len() > 0 {
        let step = spec_pass_step(c, es, pending[0], deferred, progressed);
        if let Ok(acc) = step.1 {
            lemma_pass_defers(step.0, es, pending.drop_first(), acc.0, acc.1);
        }
    }
}

/// The names of the entries at the given positions.
pub open spec fn names_at(es: Seq<(String, SchemaOrRef)>, d: Seq<usize>) -> Seq<Seq<char>> {
    d.map_values(|i: usize| es[i as int].0@)
}

/// Passes until every entry is registered; refuses the entries left over when a pass
/// registers nothing.
pub open spec fn spec_fixpoint(c: CategoryView, es: Seq<(String, SchemaOrRef)>, pending: Seq<usize>) -> (CategoryView, Result<(), FrontendErrorView>)
    decreases pending.len(),
{
    if pending.len() == 0 {
        (c, Ok(()))
    } else {
        let pass = spec_pass(c, es, pending, Seq::empty(), false);
        match pass.1 {
            Err(e) => (pass.0, Err(e)),
            Ok(acc) => if !acc.1 {
                (
                    pass.0,
                    Err(
                        FrontendErrorView::UnsupportedSchema {
                            schema: join(names_at(es, acc.0), ", "@),
                            reason: reason_cycle(),
                        },
                    ),
                )
            } else {
                proof {
                    lemma_pass_defers(c, es, pending, Seq::empty(), false);
                }
                spec_fixpoint(pass.0, es, acc.0)
            },
        }
    }
}

/// The positions of `n` entries.
pub open spec fn all_entries(n: nat) -> Seq<usize> {
    Seq::new(n, |i: int| i as usize)
}

/// Registering the named schemas of a document.
pub open spec fn spec_register_named_schemas(c: CategoryView, doc: ApiDocument) -> (CategoryView, Result<(), FrontendErrorView>) {
    match doc.components {
        None => (c, Ok(())),
        Some(comp) => match entries_error(comp.schemas@) {
            Some(e) => (c, Err(e)),
            None => spec_fixpoint(c, comp.schemas@, all_entries(comp.schemas@.len())),
        },
    }
}

/// The first entry error of `es` (see [`entries_error`]).
fn check_entries(es: &Vec<(String, SchemaOrRef)>) -> (r: Result<(), FrontendError>)
    ensures
        match r {
            Ok(()) => entries_error(es@) is None,
            Err(e) => entries_error(es@) == Some(e@),
        },
{
    let mut i: usize = 0;
    proof {
        assert(es@.subrange(0, es@.len() as int) =~= es@);
    }
    while i < es.len()
        invariant
            i <= es.len(),
            entries_error(es@.subrange(i as int, es@.len() as int)) == entries_error(es@),
        decreases es.len() - i,
    {
        let ghost rest = es@.subrange(i as int, es@.len() as int);
        proof {
            assert(rest[0] == es@[i as int]);
            assert(rest.drop_first() =~= es@.subrange(i + 1, es@.len() as int));
        }
        let name = &es[i].0;
        match &es[i].1 {
            SchemaOrRef::Reference(reference) => {
                return Err(
                    FrontendError::UnsupportedReference {
                        context: concat2("components.schemas.", name.as_str()),
                        reference: reference.clone(),
                    },
                );
            },
            SchemaOrRef::Item(_) => {
                if reserved_name(name) {
                    return Err(FrontendError::ScalarNameCollision { name: name.clone() });
                }
            },
        }
        i = i + 1;
    }
    Ok(())
}

/// Whether `n` names an entry of `es`.
fn is_entry_name(es: &Vec<(String, SchemaOrRef)>, n: &String) -> (r: bool)
    ensures
        r == entry_names(es@).contains(n@),
{
    let mut i: usize = 0;
    while i < es.len()
        invariant
            i <= es.len(),
            forall|j: int| 0 <= j < i ==> (#[trigger] es@[j]).0@ != n@,
        decreases es.len() - i,
    {
        if es[i].0 == *n {
            proof {
                assert(entry_names(es@)[i as int] == n@);
            }
            return true;
        }
        i = i + 1;
    }
    proof {
        if entry_names(es@).contains(n@) {
            let j = choose|j: int| 0 <= j < entry_names(es@).len() && entry_names(es@)[j] == n@;
            assert(es@[j].0@ == n@);
        }
    }
    false
}

/// Whether a property waits on an unregistered named schema (see [`property_waits`]).
fn property_waits_exec(c: &Category, es: &Vec<(String, SchemaOrRef)>, p: &SchemaOrRef) -> (r: bool)
    ensures
        r == property_waits(c@, entry_names(es@), *p),
{
    proof {
        use_type_invariant(c);
    }
    match p {
        SchemaOrRef::Reference(reference) => match schema_ref_target(reference.as_str()) {
            Some(n) => {
                if is_entry_name(es, &n) {
                    c.object(&ObjectId(n)).is_none()
                } else {
                    false
                }
            },
            None => false,
        },
        SchemaOrRef::Item(_) => false,
    }
}

/// Whether some property waits on an unregistered named schema (see [`waits`]).
fn waits_exec(c: &Category, es: &Vec<(String, SchemaOrRef)>, props: &Vec<(String, SchemaOrRef)>) -> (r: bool)
    ensures
        r == waits(c@, entry_names(es@), props@),
{
    proof {
        use_type_invariant(c);
    }
    let mut k: usize = 0;
    while k < props.len()
        invariant
            c@.wf(),
            k <= props.len(),
            forall|j: int| 0 <= j < k ==> !property_waits(c@, entry_names(es@), #[trigger] props@[j].1),
        decreases props.len() - k,
    {
        if property_waits_exec(c, es, &props[k].1) {
            return true;
        }
        k = k + 1;
    }
    false
}

/// The outcome of resolving fields, as views.
pub open spec fn fields_step(r: Result<Vec<(String, ObjectId)>, FrontendError>) -> Result<Seq<(Seq<char>, Seq<char>)>, FrontendErrorView> {
    match r {
        Ok(v) => Ok(members_view(v@)),
        Err(e) => Err(e@),
    }
}

/// Resolves the properties of the named schema `name` (see [`spec_fields`]).
fn resolve_fields(c: &mut Category, name: &String, props: &Vec<(String, SchemaOrRef)>) -> (r: Result<Vec<(String, ObjectId)>, FrontendError>)
    ensures
        final(c)@.wf(),
        final(c)@ == spec_fields(old(c)@, name@, props@, Seq::empty()).0,
        fields_step(r) == spec_fields(old(c)@, name@, props@, Seq::empty()).1,
{
    proof {
        use_type_invariant(&*c);
    }
    let ghost c0 = c@;
    let mut out: Vec<(String, ObjectId)> = Vec::new();
    let mut i: usize = 0;
    proof {
        assert(props@.subrange(0, props@.len() as int) =~= props@);
        assert(members_view(out@) =~= Seq::<(Seq<char>, Seq<char>)>::empty());
    }
    while i < props.len()
        invariant
            c0 == old(c)@,
            c@.wf(),
            i <= props.len(),
            spec_fields(c@, name@, props@.subrange(i as int, props@.len() as int), members_view(out@))
                == spec_fields(c0, name@, props@, Seq::empty()),
        decreases props.len() - i,
    {
        let ghost rest = props@.subrange(i as int, props@.len() as int);
        proof {
            assert(rest[0] == props@[i as int]);
            assert(rest.drop_first() =~= props@.subrange(i + 1, props@.len() as int));
        }
        let context = concat3(name.as_str(), ".", props[i].0.as_str());
        match resolve_schema(c, &context, &props[i].1) {
            Err(e) => {
                return Err(e);
            },
            Ok(id) => {
                let ghost before = members_view(out@);
                out.push((props[i].0.clone(), id));
                proof {
                    assert(members_view(out@) =~= before.push((props@[i as int].0@, id@)));
                }
            },
        }
        i = i + 1;
    }
    Ok(out)
}

/// Registers the named schema `name` as the product of its properties
/// (see [`spec_register_schema`]).
fn register_schema(c: &mut Category, name: &String, o: &ApiObjectType) -> (r: Result<(), FrontendError>)
    ensures
        final(c)@.wf(),
        final(c)@ == spec_register_schema(old(c)@, name@, *o).0,
        match r {
            Ok(()) => spec_register_schema(old(c)@, name@, *o).1 is Ok,
            Err(e) => spec_register_schema(old(c)@, name@, *o).1 == Err::<(), FrontendErrorView>(e@),
        },
{
    proof {
        use_type_invariant(&*c);
    }
    let fields = match resolve_fields(c, name, &o.properties) {
        Err(e) => {
            return Err(e);
        },
        Ok(fs) => fs,
    };
    let object = Object::product(name.clone(), fields);
    proof {
        assert(object@ == ObjectView { id: name@, kind: ObjectShape::Product(members_view(fields@)) });
    }
    match c.add_object(object) {
        Err(e) => Err(FrontendError::Category(e)),
        Ok(_) => Ok(()),
    }
}

/// The named schema an entry must be (see [`top_level_object`]).
fn top_level_object_exec<'a>(name: &String, s: &'a SchemaOrRef) -> (r: Result<&'a ApiObjectType, FrontendError>)
    ensures
        match r {
            Ok(o) => top_level_object(name@, *s) == Ok::<ApiObjectType, FrontendErrorView>(*o),
            Err(e) => top_level_object(name@, *s) == Err::<ApiObjectType, FrontendErrorView>(e@),
        },
{
    match s {
        SchemaOrRef::Reference(reference) => Err(
            FrontendError::UnsupportedReference {
                context: concat2("components.schemas.", name.as_str()),
                reference: reference.clone(),
            },
        ),
        SchemaOrRef::Item(b) => {
            if b.nullable {
                return Err(FrontendError::UnsupportedSchema { schema: name.clone(), reason: reason_nullable_text() });
            }
            match &b.kind {
                ApiSchemaKind::Object(o) => {
                    if let Some(ApiAdditionalProperties::Schema) = &o.additional_properties {
                        Err(FrontendError::UnsupportedSchema { schema: name.clone(), reason: reason_dictionary_text() })
                    } else {
                        Ok(o)
                    }
                },
                _ => Err(FrontendError::UnsupportedSchema { schema: name.clone(), reason: reason_not_object_text() }),
            }
        },
    }
}

/// The outcome of a pass, as views.
pub open spec fn pass_step(r: Result<(Vec<usize>, bool), FrontendError>) -> Result<(Seq<usize>, bool), FrontendErrorView> {
    match r {
        Ok((d, p)) => Ok((d@, p)),
        Err(e) => Err(e@),
    }
}

/// One pass over the pending entries (see [`spec_pass`]).
fn run_pass(c: &mut Category, es: &Vec<(String, SchemaOrRef)>, pending: &Vec<usize>) -> (r: Result<(Vec<usize>, bool), FrontendError>)
    requires
        forall|k: int| 0 <= k < pending@.len() ==> #[trigger] pending@[k] < es@.len(),
    ensures
        final(c)@.wf(),
        final(c)@ == spec_pass(old(c)@, es@, pending@, Seq::empty(), false).0,
        pass_step(r) == spec_pass(old(c)@, es@, pending@, Seq::empty(), false).1,
        r matches Ok((d, _)) ==> forall|k: int| 0 <= k < d@.len() ==> #[trigger] d@[k] < es@.len(),
{
    proof {
        use_type_invariant(&*c);
    }
    let ghost c0 = c@;
    let mut deferred: Vec<usize> = Vec::new();
    let mut progressed = false;
    let mut k: usize = 0;
    proof {
        assert(pending@.subrange(0, pending@.len() as int) =~= pending@);
    }
    while k < pending.len()
        invariant
            c0 == old(c)@,
            c@.wf(),
            k <= pending.len(),
            forall|j: int| 0 <= j < pending@.len() ==> #[trigger] pending@[j] < es@.len(),
            forall|j: int| 0 <= j < deferred@.len() ==> #[trigger] deferred@[j] < es@.len(),
            spec_pass(c@, es@, pending@.subrange(k as int, pending@.len() as int), deferred@, progressed)
                == spec_pass(c0, es@, pending@, Seq::empty(), false),
        decreases pending.len() - k,
    {
        let ghost rest = pending@.subrange(k as int, pending@.len() as int);
        proof {
            assert(rest[0] == pending@[k as int]);
            assert(rest.drop_first() =~= pending@.subrange(k + 1, pending@.len() as int));
        }
        let i = pending[k];
        let name = &es[i].0;
        let o = match top_level_object_exec(name, &es[i].1) {
            Err(e) => {
                return Err(e);
            },
            Ok(o) => o,
        };
        if waits_exec(c, es, &o.properties) {
            deferred.push(i);
        } else {
            match register_schema(c, name, o) {
                Err(e) => {
                    return Err(e);
                },
                Ok(()) => {
                    progressed = true;
                },
            }
        }
        k = k + 1;
    }
    Ok((deferred, progressed))
}

/// The names of the entries at the positions `d`.
fn names_of(es: &Vec<(String, SchemaOrRef)>, d: &Vec<usize>) -> (r: Vec<String>)
    requires
        forall|k: int| 0 <= k < d@.len() ==> #[trigger] d@[k] < es@.len(),
    ensures
        r@.map_values(|s: String| s@) == names_at(es@, d@),
{
    let mut out: Vec<String> = Vec::new();
    let mut j: usize = 0;
    while j < d.len()
        invariant
            j <= d.len(),
            forall|k: int| 0 <= k < d@.len() ==> #[trigger] d@[k] < es@.len(),
            out@.len() == j,
            forall|t: int| 0 <= t < j ==> (#[trigger] out@[t])@ == es@[d@[t] as int].0@,
        decreases d.len() - j,
    {
        out.push(es[d[j]].0.clone());
        j = j + 1;
    }
    proof {
        assert(out@.map_values(|s: String| s@) =~= names_at(es@, d@));
    }
    out
}

/// Registers the entries of `components.schemas` (see [`spec_fixpoint`]).
fn register_entries(c: &mut Category, es: &Vec<(String, SchemaOrRef)>) -> (r: Result<(), FrontendError>)
    ensures
        final(c)@.wf(),
        final(c)@ == spec_fixpoint(old(c)@, es@, all_entries(es@.len())).0,
        match r {
            Ok(()) => spec_fixpoint(old(c)@, es@, all_entries(es@.len())).1 is Ok,
            Err(e) => spec_fixpoint(old(c)@, es@, all_entries(es@.len())).1 == Err::<(), FrontendErrorView>(e@),
        },
{
    proof {
        use_type_invariant(&*c);
    }
    let ghost c0 = c@;
    let mut pending: Vec<usize> = Vec::new();
    let mut i: usize = 0;
    while i < es.len()
        invariant
            i <= es.len(),
            pending@ == all_entries(i as nat),
        decreases es.len() - i,
    {
        pending.push(i);
        proof {
            assert(pending@ =~= all_entries((i + 1) as nat));
        }
        i = i + 1;
    }
    while pending.len() > 0
        invariant
            c0 == old(c)@,
            c@.wf(),
            forall|k: int| 0 <= k < pending@.len() ==> #[trigger] pending@[k] < es@.len(),
            spec_fixpoint(c@, es@, pending@) == spec_fixpoint(c0, es@, all_entries(es@.len())),
        decreases pending.len(),
    {
        let ghost before = c@;
        let ghost p0 = pending@;
        let (deferred, progressed) = match run_pass(c, es, &pending) {
            Err(e) => {
                return Err(e);
            },
            Ok(x) => x,
        };
        if !progressed {
            let names = names_of(es, &deferred);
            return Err(
                FrontendError::UnsupportedSchema { schema: join_texts(&names, ", "), reason: reason_cycle_text() },
            );
        }
        proof {
            lemma_pass_defers(before, es@, p0, Seq::empty(), false);
        }
        pending = deferred;
    }
    Ok(())
}

/// Registers the named schemas of `components.schemas` as products, each after the
/// named schemas it refers to, and refuses what cannot be registered (see
/// [`spec_register_named_schemas`]).
pub fn register_named_schemas(c: &mut Category, doc: &ApiDocument) -> (r: Result<(), FrontendError>)
    ensures
        final(c)@.wf(),
        final(c)@ == spec_register_named_schemas(old(c)@, *doc).0,
        match r {
            Ok(()) => spec_register_named_schemas(old(c)@, *doc).1 is Ok,
            Err(e) => spec_register_named_schemas(old(c)@, *doc).1 == Err::<(), FrontendErrorView>(e@),
        },
{
    proof {
        use_type_invariant(&*c);
    }
    match &doc.components {
        None => Ok(()),
        Some(comp) => {
            match check_entries(&comp.schemas) {
                Err(e) => Err(e),
                Ok(()) => register_entries(c, &comp.schemas),
            }
        },
    }
}

} // verus!
