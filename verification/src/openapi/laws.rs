//! What the frontend promises of the category it builds: every named schema is
//! registered, whatever order `components.schemas` declares them in, and every
//! operation becomes a morphism named after its `operationId`.

use vstd::prelude::*;

use crate::category::{spec_add_morphism, spec_add_object, CategoryView};
use crate::morphism::{MorphismKey, MorphismView};
use crate::object::ObjectView;
use crate::openapi::components::{
    all_entries, entries_error, spec_fields, spec_fixpoint, spec_pass, spec_pass_step, spec_register_named_schemas,
    spec_register_schema, top_level_object, lemma_pass_defers, entry_error, entry_names, is_reserved_name, waits,
    property_waits, field_context, names_at, reason_cycle,
};
use crate::openapi::content::spec_json_schema;
use crate::openapi::model::{ApiDocument, ApiMediaType, ApiOperation, ApiParameter, ApiPathItem, ApiRequestBody, ApiResponse, ApiResponses, RefOr, SchemaOrRef};
use crate::openapi::params::{
    has_key, key_index, keys_distinct, merge_one, param_key, spec_body, spec_domain, spec_inputs_object, spec_merge,
    spec_params, with_body,
};
use crate::openapi::responses::{spec_candidate_objects, spec_error, spec_response_object, spec_success, success_candidates, error_candidates};
use crate::openapi::route::{law_operations_complete, operation_effects, spec_operations, spec_register_operation, spec_register_ops, spec_register_paths};
use crate::openapi::schema::{spec_intern_scalar, spec_resolve_schema, spec_resolve_inline};
use crate::openapi::error::FrontendErrorView;
use crate::openapi::spec_category_from_document;

verus! {

/// Whether every object and every morphism of `c` is still in `d`.
pub open spec fn grows(c: CategoryView, d: CategoryView) -> bool {
    &&& forall|x: Seq<char>| c.has_object(x) ==> #[trigger] d.has_object(x)
    &&& forall|k: MorphismKey| c.has_morphism(k) ==> #[trigger] d.has_morphism(k)
}

pub proof fn lemma_grows_refl(c: CategoryView)
    ensures
        grows(c, c),
{
}

pub proof fn lemma_grows_trans(a: CategoryView, b: CategoryView, c: CategoryView)
    requires
        grows(a, b),
        grows(b, c),
    ensures
        grows(a, c),
{
    assert forall|x: Seq<char>| a.has_object(x) implies #[trigger] c.has_object(x) by {
        assert(b.has_object(x));
    }
    assert forall|k: MorphismKey| a.has_morphism(k) implies #[trigger] c.has_morphism(k) by {
        assert(b.has_morphism(k));
    }
}

proof fn lemma_push_object_grows(c: CategoryView, o: ObjectView)
    ensures
        grows(c, c.push_object(o)),
        c.push_object(o).has_object(o.id),
{
    let d = c.push_object(o);
    assert forall|x: Seq<char>| c.has_object(x) implies #[trigger] d.has_object(x) by {
        let i = choose|i: int| 0 <= i < c.objects.len() && (#[trigger] c.objects[i]).id == x;
        assert(d.objects[i] == c.objects[i]);
    }
    assert(d.objects[c.objects.len() as int] == o);
}

proof fn lemma_push_morphism_grows(c: CategoryView, m: MorphismView)
    ensures
        grows(c, c.push_morphism(m)),
        c.push_morphism(m).has_morphism(m.id),
{
    let d = c.push_morphism(m);
    assert forall|k: MorphismKey| c.has_morphism(k) implies #[trigger] d.has_morphism(k) by {
        let i = choose|i: int| 0 <= i < c.morphisms.len() && (#[trigger] c.morphisms[i]).id == k;
        assert(d.morphisms[i] == c.morphisms[i]);
    }
    assert(d.morphisms[c.morphisms.len() as int] == m);
}

proof fn lemma_add_object_grows(c: CategoryView, o: ObjectView)
    ensures
        grows(c, spec_add_object(c, o).0),
        spec_add_object(c, o).0.morphisms == c.morphisms,
        spec_add_object(c, o).1 is Ok ==> spec_add_object(c, o).0.has_object(o.id),
{
    lemma_grows_refl(c);
    lemma_push_object_grows(c, o);
}

proof fn lemma_add_morphism_grows(
    c: CategoryView,
    name: Seq<char>,
    dom: Seq<char>,
    cod: Seq<char>,
    effects: Seq<crate::effect::EffectView>,
)
    ensures
        grows(c, spec_add_morphism(c, name, dom, cod, effects).0),
        spec_add_morphism(c, name, dom, cod, effects).1 is Ok ==> spec_add_morphism(
            c,
            name,
            dom,
            cod,
            effects,
        ).0.has_morphism(MorphismKey::Primitive(name)),
{
    lemma_grows_refl(c);
    let m = MorphismView {
        id: MorphismKey::Primitive(name),
        dom,
        cod,
        kind: crate::morphism::KindView::Primitive,
        effects,
    };
    lemma_push_morphism_grows(c, m);
}

pub proof fn lemma_intern_grows(c: CategoryView, name: Seq<char>)
    ensures
        grows(c, spec_intern_scalar(c, name)),
        spec_intern_scalar(c, name).morphisms == c.morphisms,
        spec_intern_scalar(c, name).has_object(name),
{
    lemma_grows_refl(c);
    lemma_push_object_grows(c, ObjectView { id: name, kind: crate::object::ObjectShape::Scalar });
}

pub proof fn lemma_resolve_grows(c: CategoryView, context: Seq<char>, s: SchemaOrRef)
    ensures
        grows(c, spec_resolve_schema(c, context, s).0),
        spec_resolve_schema(c, context, s).0.morphisms == c.morphisms,
{
    lemma_grows_refl(c);
    if let SchemaOrRef::Item(b) = s {
        if spec_resolve_inline(c, context, *b).1 is Ok {
            lemma_intern_grows(c, spec_resolve_inline(c, context, *b).1->Ok_0);
        }
    }
}

pub proof fn lemma_fields_grows(
    c: CategoryView,
    name: Seq<char>,
    props: Seq<(String, SchemaOrRef)>,
    acc: Seq<(Seq<char>, Seq<char>)>,
)
    ensures
        grows(c, spec_fields(c, name, props, acc).0),
        spec_fields(c, name, props, acc).0.morphisms == c.morphisms,
    decreases props.len(),
{
    lemma_grows_refl(c);
    if props.len() > 0 {
        let step = spec_resolve_schema(c, crate::openapi::components::field_context(name, props[0].0@), props[0].1);
        lemma_resolve_grows(c, crate::openapi::components::field_context(name, props[0].0@), props[0].1);
        if let Ok(id) = step.1 {
            lemma_fields_grows(step.0, name, props.drop_first(), acc.push((props[0].0@, id)));
            lemma_grows_trans(c, step.0, spec_fields(step.0, name, props.drop_first(), acc.push((props[0].0@, id))).0);
        }
    }
}

pub proof fn lemma_register_schema_grows(c: CategoryView, name: Seq<char>, o: crate::openapi::model::ApiObjectType)
    ensures
        grows(c, spec_register_schema(c, name, o).0),
        spec_register_schema(c, name, o).0.morphisms == c.morphisms,
        spec_register_schema(c, name, o).1 is Ok ==> spec_register_schema(c, name, o).0.has_object(name),
{
    let fields = spec_fields(c, name, o.properties@, Seq::empty());
    lemma_fields_grows(c, name, o.properties@, Seq::empty());
    if let Ok(fs) = fields.1 {
        let ov = ObjectView { id: name, kind: crate::object::ObjectShape::Product(fs) };
        lemma_add_object_grows(fields.0, ov);
        lemma_grows_trans(c, fields.0, spec_add_object(fields.0, ov).0);
    }
}

/// A pass keeps what was registered, and registers each pending entry it does not put off.
proof fn lemma_pass_registers(
    c: CategoryView,
    es: Seq<(String, SchemaOrRef)>,
    pending: Seq<usize>,
    deferred: Seq<usize>,
    progressed: bool,
)
    ensures
        grows(c, spec_pass(c, es, pending, deferred, progressed).0),
        spec_pass(c, es, pending, deferred, progressed).0.morphisms == c.morphisms,
        spec_pass(c, es, pending, deferred, progressed).1 matches Ok(acc) ==> {
            &&& forall|j: int| 0 <= j < deferred.len() ==> acc.0.contains(#[trigger] deferred[j])
            &&& forall|k: int|
                0 <= k < pending.len() ==> acc.0.contains(#[trigger] pending[k]) || spec_pass(
                    c,
                    es,
                    pending,
                    deferred,
                    progressed,
                ).0.has_object(es[pending[k] as int].0@)
        },
    decreases pending.len(),
{
    let r = spec_pass(c, es, pending, deferred, progressed);
    if pending.len() == 0 {
        lemma_grows_refl(c);
        if let Ok(acc) = r.1 {
            assert forall|j: int| 0 <= j < deferred.len() implies acc.0.contains(#[trigger] deferred[j]) by {
                assert(acc.0[j] == deferred[j]);
            }
        }
    } else {
        let i = pending[0];
        let name = es[i as int].0@;
        let step = spec_pass_step(c, es, i, deferred, progressed);
        lemma_grows_refl(c);
        if let Ok(o) = top_level_object(name, es[i as int].1) {
            lemma_register_schema_grows(c, name, o);
        }
        if let Ok(acc1) = step.1 {
            lemma_pass_registers(step.0, es, pending.drop_first(), acc1.0, acc1.1);
            lemma_grows_trans(c, step.0, r.0);
            if let Ok(acc) = r.1 {
                let registered = acc1.0 == deferred;
                if !registered {
                    assert(acc1.0 == deferred.push(i));
                }
                assert forall|j: int| 0 <= j < deferred.len() implies acc.0.contains(#[trigger] deferred[j]) by {
                    assert(acc1.0[j] == deferred[j]);
                }
                assert forall|k: int| 0 <= k < pending.len() implies acc.0.contains(#[trigger] pending[k])
                    || r.0.has_object(es[pending[k] as int].0@) by {
                    if k > 0 {
                        assert(pending.drop_first()[k - 1] == pending[k]);
                    } else if registered {
                        assert(step.0.has_object(name));
                    } else {
                        assert(acc1.0[deferred.len() as int] == i);
                    }
                }
            }
        }
    }
}

/// Passes until nothing is pending keep what was registered and register every entry.
proof fn lemma_fixpoint_registers(c: CategoryView, es: Seq<(String, SchemaOrRef)>, pending: Seq<usize>)
    ensures
        grows(c, spec_fixpoint(c, es, pending).0),
        spec_fixpoint(c, es, pending).0.morphisms == c.morphisms,
        spec_fixpoint(c, es, pending).1 is Ok ==> forall|k: int|
            0 <= k < pending.len() ==> spec_fixpoint(c, es, pending).0.has_object(#[trigger] es[pending[k] as int].0@),
    decreases pending.len(),
{
    lemma_grows_refl(c);
    if pending.len() > 0 {
        let pass = spec_pass(c, es, pending, Seq::empty(), false);
        lemma_pass_registers(c, es, pending, Seq::empty(), false);
        if let Ok(acc) = pass.1 {
            if acc.1 {
                lemma_pass_defers(c, es, pending, Seq::empty(), false);
                let r = spec_fixpoint(pass.0, es, acc.0);
                lemma_fixpoint_registers(pass.0, es, acc.0);
                lemma_grows_trans(c, pass.0, r.0);
                if r.1 is Ok {
                    assert forall|k: int| 0 <= k < pending.len() implies r.0.has_object(
                        #[trigger] es[pending[k] as int].0@,
                    ) by {
                        if acc.0.contains(pending[k]) {
                            let j = choose|j: int| 0 <= j < acc.0.len() && acc.0[j] == pending[k];
                            assert(r.0.has_object(es[acc.0[j] as int].0@));
                        } else {
                            assert(pass.0.has_object(es[pending[k] as int].0@));
                        }
                    }
                }
            }
        }
    }
}

/// Every named schema is registered once the named schemas of a document are, in
/// whatever order `components.schemas` declares them; nothing registered before is lost.
pub proof fn law_named_schemas_registered(c: CategoryView, doc: ApiDocument)
    ensures
        grows(c, spec_register_named_schemas(c, doc).0),
        spec_register_named_schemas(c, doc).0.morphisms == c.morphisms,
        spec_register_named_schemas(c, doc).1 is Ok ==> (doc.components matches Some(comp) ==> forall|k: int|
            0 <= k < comp.schemas@.len() ==> spec_register_named_schemas(c, doc).0.has_object(
                #[trigger] comp.schemas@[k].0@,
            )),
{
    lemma_grows_refl(c);
    if let Some(comp) = doc.components {
        if entries_error(comp.schemas@) is None {
            let es = comp.schemas@;
            let all = all_entries(es.len());
            vstd::std_specs::vec::axiom_spec_len(&comp.schemas);
            lemma_fixpoint_registers(c, es, all);
            if spec_fixpoint(c, es, all).1 is Ok {
                assert forall|k: int| 0 <= k < es.len() implies spec_fixpoint(c, es, all).0.has_object(
                    #[trigger] es[k].0@,
                ) by {
                    assert(all[k] as int == k);
                    assert(spec_fixpoint(c, es, all).0.has_object(es[all[k] as int].0@));
                }
            }
        }
    }
}

proof fn lemma_json_grows(c: CategoryView, context: Seq<char>, content: Seq<(String, ApiMediaType)>, found: Option<Seq<char>>)
    ensures
        grows(c, spec_json_schema(c, context, content, found).0),
        spec_json_schema(c, context, content, found).0.morphisms == c.morphisms,
    decreases content.len(),
{
    lemma_grows_refl(c);
    if content.len() > 0 {
        if crate::openapi::text::is_json_media(content[0].0@) && content[0].1.schema is Some {
            let step = spec_resolve_schema(c, context, content[0].1.schema->Some_0);
            lemma_resolve_grows(c, context, content[0].1.schema->Some_0);
            if let Ok(id) = step.1 {
                lemma_json_grows(step.0, context, content.drop_first(), Some(id));
                lemma_grows_trans(c, step.0, spec_json_schema(step.0, context, content.drop_first(), Some(id)).0);
            }
        } else {
            lemma_json_grows(c, context, content.drop_first(), found);
        }
    }
}

proof fn lemma_params_grows(
    c: CategoryView,
    op: Seq<char>,
    ps: Seq<RefOr<ApiParameter>>,
    acc: Seq<(Seq<char>, Seq<char>, Seq<char>)>,
)
    ensures
        grows(c, spec_params(c, op, ps, acc).0),
        spec_params(c, op, ps, acc).0.morphisms == c.morphisms,
    decreases ps.len(),
{
    lemma_grows_refl(c);
    if ps.len() > 0 {
        if let RefOr::Item(p) = ps[0] {
            if let crate::openapi::model::ApiParameterFormat::Schema(sc) = p.format {
                let ctx = op + " の parameter "@ + p.name@;
                let step = spec_resolve_schema(c, ctx, sc);
                lemma_resolve_grows(c, ctx, sc);
                if let Ok(id) = step.1 {
                    let acc2 = acc.push((p.name@, crate::openapi::params::location_label(p.location), id));
                    lemma_params_grows(step.0, op, ps.drop_first(), acc2);
                    lemma_grows_trans(c, step.0, spec_params(step.0, op, ps.drop_first(), acc2).0);
                }
            }
        }
    }
}

proof fn lemma_domain_grows(
    c: CategoryView,
    op: Seq<char>,
    path_params: Seq<RefOr<ApiParameter>>,
    op_params: Seq<RefOr<ApiParameter>>,
    rb: Option<RefOr<ApiRequestBody>>,
)
    ensures
        grows(c, spec_domain(c, op, path_params, op_params, rb).0),
        spec_domain(c, op, path_params, op_params, rb).0.morphisms == c.morphisms,
{
    let merged = spec_merge(Seq::empty(), path_params + op_params);
    let ps = spec_params(c, op, merged, Seq::empty());
    lemma_params_grows(c, op, merged, Seq::empty());
    if let Ok(es) = ps.1 {
        let b = spec_body(ps.0, op, rb);
        lemma_grows_refl(ps.0);
        if let Some(RefOr::Item(body)) = rb {
            lemma_json_grows(ps.0, op + " の requestBody"@, body.content@, None);
        }
        lemma_grows_trans(c, ps.0, b.0);
        if let Ok(body) = b.1 {
            let all = with_body(es, body);
            let r = spec_inputs_object(b.0, op, all);
            lemma_grows_refl(b.0);
            lemma_intern_grows(b.0, "Unit"@);
            if all.len() > 1 {
                let name = op + "Params"@;
                lemma_add_object_grows(
                    b.0,
                    ObjectView {
                        id: name,
                        kind: crate::object::ObjectShape::Product(crate::openapi::fields::input_fields(all)),
                    },
                );
            }
            lemma_grows_trans(c, b.0, r.0);
        }
    }
}

proof fn lemma_response_grows(c: CategoryView, op: Seq<char>, label: Seq<char>, r: RefOr<ApiResponse>)
    ensures
        grows(c, spec_response_object(c, op, label, r).0),
        spec_response_object(c, op, label, r).0.morphisms == c.morphisms,
{
    lemma_grows_refl(c);
    if let RefOr::Item(resp) = r {
        let ctx = op + " の "@ + label + " レスポンス"@;
        let m = spec_json_schema(c, ctx, resp.content@, None);
        lemma_json_grows(c, ctx, resp.content@, None);
        lemma_intern_grows(m.0, "Unit"@);
        lemma_grows_trans(c, m.0, spec_intern_scalar(m.0, "Unit"@));
    }
}

proof fn lemma_candidates_grows(
    c: CategoryView,
    op: Seq<char>,
    cands: Seq<(Seq<char>, RefOr<ApiResponse>)>,
    acc: Seq<Seq<char>>,
)
    ensures
        grows(c, spec_candidate_objects(c, op, cands, acc).0),
        spec_candidate_objects(c, op, cands, acc).0.morphisms == c.morphisms,
    decreases cands.len(),
{
    lemma_grows_refl(c);
    if cands.len() > 0 {
        let step = spec_response_object(c, op, cands[0].0, cands[0].1);
        lemma_response_grows(c, op, cands[0].0, cands[0].1);
        if let Ok(id) = step.1 {
            lemma_candidates_grows(step.0, op, cands.drop_first(), acc.push(id));
            lemma_grows_trans(c, step.0, spec_candidate_objects(step.0, op, cands.drop_first(), acc.push(id)).0);
        }
    }
}

proof fn lemma_responses_grow(c: CategoryView, op: Seq<char>, resps: ApiResponses)
    ensures
        grows(c, spec_success(c, op, resps).0),
        spec_success(c, op, resps).0.morphisms == c.morphisms,
        grows(c, spec_error(c, op, resps).0),
        spec_error(c, op, resps).0.morphisms == c.morphisms,
{
    lemma_grows_refl(c);
    lemma_candidates_grows(c, op, success_candidates(resps), Seq::empty());
    lemma_candidates_grows(c, op, error_candidates(resps), Seq::empty());
}

/// Whether effects are those the frontend gives an operation: asynchronous, then
/// fallible where the operation has an error type.
pub open spec fn operation_like(l: Seq<crate::effect::EffectView>) -> bool {
    ||| l == seq![crate::effect::EffectView::Async]
    ||| (l.len() == 2 && l[0] == crate::effect::EffectView::Async && l[1] is Fallible)
}

/// Whether every morphism of `c` carries the effects of an operation.
pub open spec fn all_operation_like(c: CategoryView) -> bool {
    forall|i: int| 0 <= i < c.morphisms.len() ==> operation_like((#[trigger] c.morphisms[i]).effects)
}

proof fn lemma_push_operation_like(c: CategoryView, m: MorphismView)
    requires
        all_operation_like(c),
        operation_like(m.effects),
    ensures
        all_operation_like(c.push_morphism(m)),
{
    let d = c.push_morphism(m);
    assert forall|i: int| 0 <= i < d.morphisms.len() implies operation_like((#[trigger] d.morphisms[i]).effects) by {
        if i < c.morphisms.len() {
            assert(d.morphisms[i] == c.morphisms[i]);
        }
    }
}

/// Registering an operation keeps what was registered; when it succeeds, the operation
/// has an `operationId` and a morphism of that name is registered.
proof fn lemma_register_operation(c: CategoryView, path: Seq<char>, method: Seq<char>, pi: ApiPathItem, op: ApiOperation)
    ensures
        grows(c, spec_register_operation(c, path, method, pi, op).0),
        spec_register_operation(c, path, method, pi, op).1 is Ok ==> (op.operation_id matches Some(id)
            && spec_register_operation(c, path, method, pi, op).0.has_morphism(MorphismKey::Primitive(id@))),
        all_operation_like(c) ==> all_operation_like(spec_register_operation(c, path, method, pi, op).0),
{
    lemma_grows_refl(c);
    if let Some(id) = op.operation_id {
        let d = spec_domain(c, id@, pi.parameters@, op.parameters@, op.request_body);
        lemma_domain_grows(c, id@, pi.parameters@, op.parameters@, op.request_body);
        if let Ok(dom) = d.1 {
            let s = spec_success(d.0, id@, op.responses);
            lemma_responses_grow(d.0, id@, op.responses);
            lemma_grows_trans(c, d.0, s.0);
            if let Ok(cod) = s.1 {
                let er = spec_error(s.0, id@, op.responses);
                lemma_responses_grow(s.0, id@, op.responses);
                lemma_grows_trans(c, s.0, er.0);
                if let Ok(err) = er.1 {
                    if all_operation_like(c) {
                        assert(all_operation_like(er.0));
                        let m = MorphismView {
                            id: MorphismKey::Primitive(id@),
                            dom,
                            cod,
                            kind: crate::morphism::KindView::Primitive,
                            effects: operation_effects(err),
                        };
                        lemma_push_operation_like(er.0, m);
                    }
                    lemma_add_morphism_grows(er.0, id@, dom, cod, operation_effects(err));
                    lemma_grows_trans(c, er.0, spec_add_morphism(er.0, id@, dom, cod, operation_effects(err)).0);
                }
            }
        }
    }
}

/// Whether an operation has an `operationId` under which `c` has a morphism.
pub open spec fn op_registered(c: CategoryView, o: ApiOperation) -> bool {
    o.operation_id matches Some(id) && c.has_morphism(MorphismKey::Primitive(id@))
}

/// Whether every operation of `ops` has an `operationId` under which `c` has a morphism.
pub open spec fn ops_registered(c: CategoryView, ops: Seq<(Seq<char>, ApiOperation)>) -> bool {
    forall|k: int| 0 <= k < ops.len() ==> op_registered(c, (#[trigger] ops[k]).1)
}

proof fn lemma_ops_registered_grows(c: CategoryView, d: CategoryView, ops: Seq<(Seq<char>, ApiOperation)>)
    requires
        ops_registered(c, ops),
        grows(c, d),
    ensures
        ops_registered(d, ops),
{
    assert forall|k: int| 0 <= k < ops.len() implies op_registered(d, (#[trigger] ops[k]).1) by {
        if let Some(id) = ops[k].1.operation_id {
            assert(c.has_morphism(MorphismKey::Primitive(id@)));
        }
    }
}

proof fn lemma_register_ops(c: CategoryView, path: Seq<char>, pi: ApiPathItem, ops: Seq<(Seq<char>, ApiOperation)>)
    ensures
        grows(c, spec_register_ops(c, path, pi, ops).0),
        spec_register_ops(c, path, pi, ops).1 is Ok ==> ops_registered(spec_register_ops(c, path, pi, ops).0, ops),
        all_operation_like(c) ==> all_operation_like(spec_register_ops(c, path, pi, ops).0),
    decreases ops.len(),
{
    lemma_grows_refl(c);
    if ops.len() > 0 {
        let step = spec_register_operation(c, path, ops[0].0, pi, ops[0].1);
        lemma_register_operation(c, path, ops[0].0, pi, ops[0].1);
        if step.1 is Ok {
            let r = spec_register_ops(step.0, path, pi, ops.drop_first());
            lemma_register_ops(step.0, path, pi, ops.drop_first());
            lemma_grows_trans(c, step.0, r.0);
            if r.1 is Ok {
                assert forall|k: int| 0 <= k < ops.len() implies op_registered(r.0, (#[trigger] ops[k]).1) by {
                    if k > 0 {
                        assert(ops.drop_first()[k - 1] == ops[k]);
                    } else {
                        let id = ops[0].1.operation_id->Some_0;
                        assert(step.0.has_morphism(MorphismKey::Primitive(id@)));
                    }
                }
            }
        }
    }
}

/// Whether a path item is inline and every operation of it is registered in `c`.
pub open spec fn path_registered(c: CategoryView, p: RefOr<ApiPathItem>) -> bool {
    p matches RefOr::Item(pi) && ops_registered(c, spec_operations(pi))
}

/// Whether every path item of `paths` is inline and every operation of it is registered in `c`.
pub open spec fn paths_registered(c: CategoryView, paths: Seq<(String, RefOr<ApiPathItem>)>) -> bool {
    forall|k: int| 0 <= k < paths.len() ==> path_registered(c, (#[trigger] paths[k]).1)
}

proof fn lemma_register_paths(c: CategoryView, paths: Seq<(String, RefOr<ApiPathItem>)>)
    ensures
        grows(c, spec_register_paths(c, paths).0),
        spec_register_paths(c, paths).1 is Ok ==> paths_registered(spec_register_paths(c, paths).0, paths),
        all_operation_like(c) ==> all_operation_like(spec_register_paths(c, paths).0),
    decreases paths.len(),
{
    lemma_grows_refl(c);
    if paths.len() > 0 {
        if let RefOr::Item(pi) = paths[0].1 {
            let step = spec_register_ops(c, paths[0].0@, pi, spec_operations(pi));
            lemma_register_ops(c, paths[0].0@, pi, spec_operations(pi));
            if step.1 is Ok {
                let r = spec_register_paths(step.0, paths.drop_first());
                lemma_register_paths(step.0, paths.drop_first());
                lemma_grows_trans(c, step.0, r.0);
                if r.1 is Ok {
                    lemma_ops_registered_grows(step.0, r.0, spec_operations(pi));
                    assert forall|k: int| 0 <= k < paths.len() implies path_registered(r.0, (#[trigger] paths[k]).1) by {
                        if k > 0 {
                            assert(paths.drop_first()[k - 1] == paths[k]);
                        }
                    }
                }
            }
        }
    }
}

/// The category built from a document has every named schema of `components.schemas`
/// as an object, whatever order they are declared in, and every operation of `paths`
/// as a morphism named after its `operationId`.
pub proof fn law_document_registered(doc: ApiDocument)
    ensures
        spec_category_from_document(doc) matches Ok(cv) ==> {
            &&& (doc.components matches Some(comp) ==> forall|k: int|
                0 <= k < comp.schemas@.len() ==> cv.has_object(#[trigger] comp.schemas@[k].0@))
            &&& paths_registered(cv, doc.paths@)
        },
{
    let c0 = CategoryView::empty();
    let s = spec_register_named_schemas(c0, doc);
    law_named_schemas_registered(c0, doc);
    if s.1 is Ok {
        let r = spec_register_paths(s.0, doc.paths@);
        lemma_register_paths(s.0, doc.paths@);
        if r.1 is Ok {
            if let Some(comp) = doc.components {
                assert forall|k: int| 0 <= k < comp.schemas@.len() implies r.0.has_object(
                    #[trigger] comp.schemas@[k].0@,
                ) by {
                    assert(s.0.has_object(comp.schemas@[k].0@));
                }
            }
        }
    }
}

/// Every morphism of the category built from a document is an operation: asynchronous,
/// and then fallible where the operation has an error type.
pub proof fn law_document_morphisms_are_operations(doc: ApiDocument)
    ensures
        spec_category_from_document(doc) matches Ok(cv) ==> all_operation_like(cv),
{
    let c0 = CategoryView::empty();
    let s = spec_register_named_schemas(c0, doc);
    law_named_schemas_registered(c0, doc);
    assert(all_operation_like(s.0));
    lemma_register_paths(s.0, doc.paths@);
}

/// Whether no parameter after position `j` of `s` has the key of `s[j]`.
pub open spec fn last_of_key(s: Seq<RefOr<ApiParameter>>, j: int) -> bool {
    forall|j2: int| j < j2 < s.len() ==> param_key(#[trigger] s[j2]) != param_key(s[j])
}

proof fn lemma_merge_one(acc: Seq<RefOr<ApiParameter>>, p: RefOr<ApiParameter>)
    requires
        keys_distinct(acc),
    ensures
        keys_distinct(merge_one(acc, p)),
        merge_one(acc, p).contains(p),
        forall|x: RefOr<ApiParameter>| #[trigger] merge_one(acc, p).contains(x) ==> acc.contains(x) || x == p,
        forall|x: RefOr<ApiParameter>|
            acc.contains(x) && param_key(x) != param_key(p) ==> #[trigger] merge_one(acc, p).contains(x),
{
    let r = merge_one(acc, p);
    if has_key(acc, p) {
        let k = key_index(acc, p);
        assert(param_key(acc[k]) == param_key(p));
        assert forall|i: int, j: int| 0 <= i < j < r.len() implies param_key(#[trigger] r[i]) != param_key(
            #[trigger] r[j],
        ) by {
            assert(param_key(r[i]) == param_key(acc[i]));
            assert(param_key(r[j]) == param_key(acc[j]));
        }
        assert(r[k] == p);
        assert forall|x: RefOr<ApiParameter>| #[trigger] r.contains(x) implies acc.contains(x) || x == p by {
            let i = choose|i: int| 0 <= i < r.len() && r[i] == x;
            if i != k {
                assert(acc[i] == x);
            }
        }
        assert forall|x: RefOr<ApiParameter>| acc.contains(x) && param_key(x) != param_key(p) implies #[trigger] r.contains(
            x,
        ) by {
            let i = choose|i: int| 0 <= i < acc.len() && acc[i] == x;
            assert(i != k);
            assert(r[i] == x);
        }
    } else {
        assert forall|i: int, j: int| 0 <= i < j < r.len() implies param_key(#[trigger] r[i]) != param_key(
            #[trigger] r[j],
        ) by {
            if j == acc.len() {
                assert(r[i] == acc[i]);
                assert(param_key(acc[i]) != param_key(p));
            } else {
                assert(r[i] == acc[i]);
                assert(r[j] == acc[j]);
            }
        }
        assert(r[acc.len() as int] == p);
        assert forall|x: RefOr<ApiParameter>| #[trigger] r.contains(x) implies acc.contains(x) || x == p by {
            let i = choose|i: int| 0 <= i < r.len() && r[i] == x;
            if i < acc.len() {
                assert(acc[i] == x);
            }
        }
        assert forall|x: RefOr<ApiParameter>| acc.contains(x) && param_key(x) != param_key(p) implies #[trigger] r.contains(
            x,
        ) by {
            let i = choose|i: int| 0 <= i < acc.len() && acc[i] == x;
            assert(r[i] == x);
        }
    }
}

proof fn lemma_merge(acc: Seq<RefOr<ApiParameter>>, rest: Seq<RefOr<ApiParameter>>)
    requires
        keys_distinct(acc),
    ensures
        keys_distinct(spec_merge(acc, rest)),
        forall|x: RefOr<ApiParameter>| #[trigger] spec_merge(acc, rest).contains(x) ==> acc.contains(x) || rest.contains(x),
        forall|j: int| 0 <= j < rest.len() && last_of_key(rest, j) ==> spec_merge(acc, rest).contains(#[trigger] rest[j]),
        forall|x: RefOr<ApiParameter>|
            acc.contains(x) && !has_key(rest, x) ==> #[trigger] spec_merge(acc, rest).contains(x),
    decreases rest.len(),
{
    if rest.len() > 0 {
        let p = rest[0];
        let tail = rest.drop_first();
        let acc1 = merge_one(acc, p);
        lemma_merge_one(acc, p);
        lemma_merge(acc1, tail);
        let r = spec_merge(acc, rest);
        assert(r == spec_merge(acc1, tail));
        assert forall|x: RefOr<ApiParameter>| #[trigger] r.contains(x) implies acc.contains(x) || rest.contains(x) by {
            if acc1.contains(x) {
                if x == p {
                    assert(rest[0] == x);
                }
            } else {
                let i = choose|i: int| 0 <= i < tail.len() && tail[i] == x;
                assert(rest[i + 1] == x);
            }
        }
        assert forall|j: int| 0 <= j < rest.len() && last_of_key(rest, j) implies r.contains(#[trigger] rest[j]) by {
            if j == 0 {
                assert forall|i: int| 0 <= i < tail.len() implies param_key(#[trigger] tail[i]) != param_key(p) by {
                    assert(tail[i] == rest[i + 1]);
                }
                assert(!has_key(tail, p));
            } else {
                assert(tail[j - 1] == rest[j]);
                assert forall|j2: int| j - 1 < j2 < tail.len() implies param_key(#[trigger] tail[j2]) != param_key(
                    tail[j - 1],
                ) by {
                    assert(tail[j2] == rest[j2 + 1]);
                }
            }
        }
        assert forall|x: RefOr<ApiParameter>| acc.contains(x) && !has_key(rest, x) implies #[trigger] r.contains(x) by {
            assert(param_key(rest[0]) != param_key(x));
            assert(acc1.contains(x));
            assert forall|i: int| 0 <= i < tail.len() implies param_key(#[trigger] tail[i]) != param_key(x) by {
                assert(tail[i] == rest[i + 1]);
            }
        }
    }
}

/// The parameters of an operation are those of its path item followed by its own, one
/// for each key: no two share a key, each comes from the path item or the operation,
/// and the one given last for a key is kept, so an operation's parameter overrides the
/// path item's parameter with the same name and location.
pub proof fn law_parameters_merged(path: Seq<RefOr<ApiParameter>>, op: Seq<RefOr<ApiParameter>>)
    ensures
        keys_distinct(spec_merge(Seq::empty(), path + op)),
        forall|x: RefOr<ApiParameter>| #[trigger] spec_merge(Seq::empty(), path + op).contains(x) ==> (path + op).contains(x),
        forall|j: int|
            0 <= j < (path + op).len() && last_of_key(path + op, j) ==> spec_merge(Seq::empty(), path + op).contains(
                #[trigger] (path + op)[j],
            ),
{
    let empty = Seq::<RefOr<ApiParameter>>::empty();
    lemma_merge(empty, path + op);
}

/// Whether some parameter among the first `n` of `s` has key `k`.
pub open spec fn occurs_before(s: Seq<RefOr<ApiParameter>>, k: (Seq<char>, int), n: int) -> bool {
    exists|j: int| 0 <= j < n && j < s.len() && #[trigger] param_key(s[j]) == k
}

/// Whether the keys of `acc` are exactly those of `seen`, in the order in which they
/// first occur in `seen`.
pub open spec fn ordered_by_first(acc: Seq<RefOr<ApiParameter>>, seen: Seq<RefOr<ApiParameter>>) -> bool {
    &&& forall|i: int| 0 <= i < acc.len() ==> occurs_before(seen, param_key(#[trigger] acc[i]), seen.len() as int)
    &&& forall|j: int| 0 <= j < seen.len() ==> has_key(acc, #[trigger] seen[j])
    &&& forall|i1: int, i2: int, j2: int|
        0 <= i1 < i2 < acc.len() && 0 <= j2 < seen.len() && param_key(#[trigger] seen[j2]) == param_key(
            #[trigger] acc[i2],
        ) ==> occurs_before(seen, param_key(#[trigger] acc[i1]), j2)
}

proof fn lemma_merge_order(acc: Seq<RefOr<ApiParameter>>, seen: Seq<RefOr<ApiParameter>>, rest: Seq<RefOr<ApiParameter>>)
    requires
        keys_distinct(acc),
        ordered_by_first(acc, seen),
    ensures
        ordered_by_first(spec_merge(acc, rest), seen + rest),
    decreases rest.len(),
{
    if rest.len() == 0 {
        assert(seen + rest =~= seen);
    } else {
        let p = rest[0];
        let acc1 = merge_one(acc, p);
        let seen1 = seen.push(p);
        lemma_merge_one(acc, p);
        let n = seen.len() as int;
        assert(seen1[n] == p);
        if has_key(acc, p) {
            let k = key_index(acc, p);
            assert(param_key(acc[k]) == param_key(p));
            assert forall|i: int| 0 <= i < acc1.len() implies param_key(#[trigger] acc1[i]) == param_key(acc[i]) by {}
            assert forall|i: int| 0 <= i < acc1.len() implies occurs_before(seen1, param_key(#[trigger] acc1[i]), seen1.len() as int) by {
                assert(occurs_before(seen, param_key(acc[i]), n));
                let j = choose|j: int| 0 <= j < n && j < seen.len() && #[trigger] param_key(seen[j]) == param_key(acc[i]);
                assert(seen1[j] == seen[j]);
            }
            assert forall|j: int| 0 <= j < seen1.len() implies has_key(acc1, #[trigger] seen1[j]) by {
                if j < n {
                    assert(seen1[j] == seen[j]);
                    assert(has_key(acc, seen[j]));
                    let i = choose|i: int| 0 <= i < acc.len() && #[trigger] param_key(acc[i]) == param_key(seen[j]);
                    assert(param_key(acc1[i]) == param_key(acc[i]));
                } else {
                    assert(param_key(acc1[k]) == param_key(p));
                }
            }
            assert forall|i1: int, i2: int, j2: int|
                0 <= i1 < i2 < acc1.len() && 0 <= j2 < seen1.len() && param_key(#[trigger] seen1[j2]) == param_key(
                    #[trigger] acc1[i2],
                ) implies occurs_before(seen1, param_key(#[trigger] acc1[i1]), j2) by {
                assert(param_key(acc1[i1]) == param_key(acc[i1]));
                assert(param_key(acc1[i2]) == param_key(acc[i2]));
                if j2 < n {
                    assert(seen1[j2] == seen[j2]);
                    assert(param_key(seen[j2]) == param_key(acc[i2]));
                    assert(occurs_before(seen, param_key(acc[i1]), j2));
                    let j1 = choose|j1: int| 0 <= j1 < j2 && j1 < seen.len() && #[trigger] param_key(seen[j1]) == param_key(acc[i1]);
                    assert(seen1[j1] == seen[j1]);
                } else {
                    assert(occurs_before(seen, param_key(acc[i2]), n));
                    let j = choose|j: int| 0 <= j < n && j < seen.len() && #[trigger] param_key(seen[j]) == param_key(acc[i2]);
                    assert(param_key(seen[j]) == param_key(acc[i2]));
                    assert(occurs_before(seen, param_key(acc[i1]), j));
                    let j1 = choose|j1: int| 0 <= j1 < j && j1 < seen.len() && #[trigger] param_key(seen[j1]) == param_key(acc[i1]);
                    assert(seen1[j1] == seen[j1]);
                }
            }
        } else {
            assert(acc1 == acc.push(p));
            let m = acc.len() as int;
            assert forall|j: int| 0 <= j < n implies param_key(#[trigger] seen[j]) != param_key(p) by {
                assert(has_key(acc, seen[j]));
                let i = choose|i: int| 0 <= i < acc.len() && #[trigger] param_key(acc[i]) == param_key(seen[j]);
                if param_key(seen[j]) == param_key(p) {
                    assert(has_key(acc, p));
                }
            }
            assert forall|i: int| 0 <= i < acc1.len() implies occurs_before(seen1, param_key(#[trigger] acc1[i]), seen1.len() as int) by {
                if i < m {
                    assert(acc1[i] == acc[i]);
                    assert(occurs_before(seen, param_key(acc[i]), n));
                    let j = choose|j: int| 0 <= j < n && j < seen.len() && #[trigger] param_key(seen[j]) == param_key(acc[i]);
                    assert(seen1[j] == seen[j]);
                } else {
                    assert(param_key(seen1[n]) == param_key(acc1[i]));
                }
            }
            assert forall|j: int| 0 <= j < seen1.len() implies has_key(acc1, #[trigger] seen1[j]) by {
                if j < n {
                    assert(seen1[j] == seen[j]);
                    assert(has_key(acc, seen[j]));
                    let i = choose|i: int| 0 <= i < acc.len() && #[trigger] param_key(acc[i]) == param_key(seen[j]);
                    assert(acc1[i] == acc[i]);
                } else {
                    assert(acc1[m] == p);
                }
            }
            assert forall|i1: int, i2: int, j2: int|
                0 <= i1 < i2 < acc1.len() && 0 <= j2 < seen1.len() && param_key(#[trigger] seen1[j2]) == param_key(
                    #[trigger] acc1[i2],
                ) implies occurs_before(seen1, param_key(#[trigger] acc1[i1]), j2) by {
                assert(acc1[i1] == acc[i1]);
                if i2 < m {
                    assert(acc1[i2] == acc[i2]);
                    if j2 < n {
                        assert(seen1[j2] == seen[j2]);
                        assert(occurs_before(seen, param_key(acc[i1]), j2));
                        let j1 = choose|j1: int| 0 <= j1 < j2 && j1 < seen.len() && #[trigger] param_key(seen[j1]) == param_key(acc[i1]);
                        assert(seen1[j1] == seen[j1]);
                    } else {
                        assert(param_key(acc[i2]) == param_key(p));
                        assert(has_key(acc, p));
                    }
                } else {
                    assert(acc1[i2] == p);
                    if j2 < n {
                        assert(seen1[j2] == seen[j2]);
                        assert(param_key(seen[j2]) != param_key(p));
                    }
                    assert(j2 == n);
                    assert(occurs_before(seen, param_key(acc[i1]), n));
                    let j1 = choose|j1: int| 0 <= j1 < n && j1 < seen.len() && #[trigger] param_key(seen[j1]) == param_key(acc[i1]);
                    assert(seen1[j1] == seen[j1]);
                }
            }
        }
        lemma_merge_order(acc1, seen1, rest.drop_first());
        assert(seen1 + rest.drop_first() =~= seen + rest);
    }
}

proof fn lemma_last_of_key_exists(s: Seq<RefOr<ApiParameter>>, j0: int)
    requires
        0 <= j0 < s.len(),
    ensures
        exists|j: int| j0 <= j < s.len() && param_key(#[trigger] s[j]) == param_key(s[j0]) && last_of_key(s, j),
    decreases s.len() - j0,
{
    if last_of_key(s, j0) {
        assert(param_key(s[j0]) == param_key(s[j0]));
    } else {
        let j2 = choose|j2: int| j0 < j2 < s.len() && param_key(#[trigger] s[j2]) == param_key(s[j0]);
        lemma_last_of_key_exists(s, j2);
        let j = choose|j: int| j2 <= j < s.len() && param_key(#[trigger] s[j]) == param_key(s[j2]) && last_of_key(s, j);
        assert(param_key(s[j]) == param_key(s[j0]));
    }
}

/// The order of an operation's parameters: one for each key given, each the last
/// parameter given with that key, in the order in which the keys first occur among the
/// path item's parameters followed by the operation's.
pub proof fn law_parameters_order(path: Seq<RefOr<ApiParameter>>, op: Seq<RefOr<ApiParameter>>)
    ensures
        ordered_by_first(spec_merge(Seq::empty(), path + op), path + op),
        forall|i: int|
            0 <= i < spec_merge(Seq::empty(), path + op).len() ==> exists|j: int|
                0 <= j < (path + op).len() && (path + op)[j] == #[trigger] spec_merge(Seq::empty(), path + op)[i]
                    && last_of_key(path + op, j),
{
    let l = path + op;
    let empty = Seq::<RefOr<ApiParameter>>::empty();
    assert(ordered_by_first(empty, empty));
    lemma_merge_order(empty, empty, l);
    assert(empty + l =~= l);
    lemma_merge(empty, l);
    let m = spec_merge(empty, l);
    assert forall|i: int| 0 <= i < m.len() implies exists|j: int|
        0 <= j < l.len() && l[j] == #[trigger] m[i] && last_of_key(l, j) by {
        assert(m.contains(m[i]));
        assert(l.contains(m[i]));
        let j0 = choose|j0: int| 0 <= j0 < l.len() && l[j0] == m[i];
        lemma_last_of_key_exists(l, j0);
        let j = choose|j: int| j0 <= j < l.len() && param_key(#[trigger] l[j]) == param_key(l[j0]) && last_of_key(l, j);
        assert(m.contains(l[j]));
        let i2 = choose|i2: int| 0 <= i2 < m.len() && m[i2] == l[j];
        if i2 != i {
            if i2 < i {
                assert(param_key(m[i2]) != param_key(m[i]));
            } else {
                assert(param_key(m[i]) != param_key(m[i2]));
            }
        }
    }
}

/// Whether `c` registers none of the names `s`.
pub open spec fn none_of(c: CategoryView, s: Set<Seq<char>>) -> bool {
    forall|x: Seq<char>| s.contains(x) ==> !#[trigger] c.has_object(x)
}

/// Whether a property is a `$ref` to a named schema of `s`.
pub open spec fn ref_into(p: SchemaOrRef, s: Set<Seq<char>>) -> bool {
    match p {
        SchemaOrRef::Reference(r) => match crate::openapi::text::schema_ref_name(r@) {
            Some(n) => s.contains(n),
            None => false,
        },
        SchemaOrRef::Item(_) => false,
    }
}

/// Whether some property is a `$ref` to a named schema of `s`.
pub open spec fn refs_into(props: Seq<(String, SchemaOrRef)>, s: Set<Seq<char>>) -> bool {
    exists|k: int| 0 <= k < props.len() && ref_into(#[trigger] props[k].1, s)
}

/// Whether every named schema of `s` that is an object type refers to a named schema of
/// `s`, as the schemas of a `$ref` cycle do.
pub open spec fn refers_into(es: Seq<(String, SchemaOrRef)>, s: Set<Seq<char>>) -> bool {
    forall|i: int|
        0 <= i < es.len() && s.contains(#[trigger] es[i].0@) ==> (top_level_object(es[i].0@, es[i].1) matches Ok(o)
            ==> refs_into(o.properties@, s))
}

/// Whether every name of `s` is the name of an entry.
pub open spec fn s_known(es: Seq<(String, SchemaOrRef)>, s: Set<Seq<char>>) -> bool {
    forall|x: Seq<char>| s.contains(x) ==> #[trigger] entry_names(es).contains(x)
}

/// Whether no entry has a name of `s`.
pub open spec fn entries_outside(es: Seq<(String, SchemaOrRef)>, s: Set<Seq<char>>) -> bool {
    forall|i: int| 0 <= i < es.len() ==> !s.contains(#[trigger] es[i].0@)
}

proof fn lemma_push_none(c: CategoryView, o: ObjectView, s: Set<Seq<char>>)
    requires
        none_of(c, s),
        !s.contains(o.id),
    ensures
        none_of(c.push_object(o), s),
{
    let d = c.push_object(o);
    assert forall|x: Seq<char>| s.contains(x) implies !#[trigger] d.has_object(x) by {
        if d.has_object(x) {
            let i = choose|i: int| 0 <= i < d.objects.len() && (#[trigger] d.objects[i]).id == x;
            if i == c.objects.len() {
                assert(d.objects[i] == o);
            } else {
                assert(c.objects[i] == d.objects[i]);
                assert(c.has_object(x));
            }
        }
    }
}

proof fn lemma_resolve_none(c: CategoryView, context: Seq<char>, p: SchemaOrRef, s: Set<Seq<char>>)
    requires
        none_of(c, s),
        forall|x: Seq<char>| s.contains(x) ==> !#[trigger] is_reserved_name(x),
    ensures
        none_of(spec_resolve_schema(c, context, p).0, s),
{
    if let SchemaOrRef::Item(b) = p {
        if let Ok(n) = crate::openapi::schema::inline_scalar(*b) {
            assert(is_reserved_name(n));
            if !c.has_object(n) {
                lemma_push_none(c, ObjectView { id: n, kind: crate::object::ObjectShape::Scalar }, s);
            }
        }
    }
}

pub proof fn lemma_fields_none(
    c: CategoryView,
    name: Seq<char>,
    props: Seq<(String, SchemaOrRef)>,
    acc: Seq<(Seq<char>, Seq<char>)>,
    s: Set<Seq<char>>,
)
    requires
        none_of(c, s),
        forall|x: Seq<char>| s.contains(x) ==> !#[trigger] is_reserved_name(x),
    ensures
        none_of(spec_fields(c, name, props, acc).0, s),
    decreases props.len(),
{
    if props.len() > 0 {
        let ctx = field_context(name, props[0].0@);
        let step = spec_resolve_schema(c, ctx, props[0].1);
        lemma_resolve_none(c, ctx, props[0].1, s);
        if let Ok(id) = step.1 {
            lemma_fields_none(step.0, name, props.drop_first(), acc.push((props[0].0@, id)), s);
        }
    }
}

proof fn lemma_pass_none(
    c: CategoryView,
    es: Seq<(String, SchemaOrRef)>,
    pending: Seq<usize>,
    deferred: Seq<usize>,
    progressed: bool,
    s: Set<Seq<char>>,
)
    requires
        none_of(c, s),
        forall|x: Seq<char>| s.contains(x) ==> !#[trigger] is_reserved_name(x),
        s_known(es, s) || entries_outside(es, s),
        refers_into(es, s),
        forall|k: int| 0 <= k < pending.len() ==> #[trigger] pending[k] < es.len(),
        forall|k: int| 0 <= k < deferred.len() ==> #[trigger] deferred[k] < es.len(),
    ensures
        none_of(spec_pass(c, es, pending, deferred, progressed).0, s),
        spec_pass(c, es, pending, deferred, progressed).1 matches Ok(acc) ==> forall|k: int|
            0 <= k < acc.0.len() ==> #[trigger] acc.0[k] < es.len(),
    decreases pending.len(),
{
    if pending.len() > 0 {
        let i = pending[0];
        let name = es[i as int].0@;
        let step = spec_pass_step(c, es, i, deferred, progressed);
        if let Ok(o) = top_level_object(name, es[i as int].1) {
            if !waits(c, entry_names(es), o.properties@) {
                if s.contains(name) {
                    assert(!entries_outside(es, s));
                    assert(s_known(es, s));
                    assert(refs_into(o.properties@, s));
                    let k = choose|k: int| 0 <= k < o.properties@.len() && ref_into(#[trigger] o.properties@[k].1, s);
                    if let SchemaOrRef::Reference(r) = o.properties@[k].1 {
                        let n = crate::openapi::text::schema_ref_name(r@)->Some_0;
                        assert(entry_names(es).contains(n));
                        assert(property_waits(c, entry_names(es), o.properties@[k].1));
                    }
                }
                let fields = spec_fields(c, name, o.properties@, Seq::empty());
                lemma_fields_none(c, name, o.properties@, Seq::empty(), s);
                if let Ok(fs) = fields.1 {
                    let ov = ObjectView { id: name, kind: crate::object::ObjectShape::Product(fs) };
                    if !fields.0.has_object(name) {
                        lemma_push_none(fields.0, ov, s);
                    }
                }
            }
        }
        if let Ok(acc1) = step.1 {
            assert forall|k: int| 0 <= k < pending.drop_first().len() implies #[trigger] pending.drop_first()[k] < es.len() by {
                assert(pending.drop_first()[k] == pending[k + 1]);
            }
            assert forall|k: int| 0 <= k < acc1.0.len() implies #[trigger] acc1.0[k] < es.len() by {
                if k < deferred.len() {
                    assert(acc1.0[k] == deferred[k]);
                }
            }
            lemma_pass_none(step.0, es, pending.drop_first(), acc1.0, acc1.1, s);
        }
    }
}

proof fn lemma_fixpoint_none(c: CategoryView, es: Seq<(String, SchemaOrRef)>, pending: Seq<usize>, s: Set<Seq<char>>)
    requires
        none_of(c, s),
        forall|x: Seq<char>| s.contains(x) ==> !#[trigger] is_reserved_name(x),
        s_known(es, s) || entries_outside(es, s),
        refers_into(es, s),
        forall|k: int| 0 <= k < pending.len() ==> #[trigger] pending[k] < es.len(),
    ensures
        none_of(spec_fixpoint(c, es, pending).0, s),
    decreases pending.len(),
{
    if pending.len() > 0 {
        let pass = spec_pass(c, es, pending, Seq::empty(), false);
        lemma_pass_none(c, es, pending, Seq::empty(), false, s);
        if let Ok(acc) = pass.1 {
            if acc.1 {
                lemma_pass_defers(c, es, pending, Seq::empty(), false);
                lemma_fixpoint_none(pass.0, es, acc.0, s);
            }
        }
    }
}

proof fn lemma_entries_fine(es: Seq<(String, SchemaOrRef)>)
    requires
        entries_error(es) is None,
    ensures
        forall|i: int| 0 <= i < es.len() ==> !is_reserved_name(#[trigger] es[i].0@),
    decreases es.len(),
{
    if es.len() > 0 {
        assert(entry_error(es[0]) is None);
        lemma_entries_fine(es.drop_first());
        assert forall|i: int| 0 <= i < es.len() implies !is_reserved_name(#[trigger] es[i].0@) by {
            if i > 0 {
                assert(es.drop_first()[i - 1] == es[i]);
            }
        }
    }
}

/// A `$ref` cycle is refused: where every object schema among some named schemas `s`
/// refers to a schema of `s` (a schema referring to itself, two referring to each other,
/// ...), registering the named schemas fails, and none of `s` is registered.
pub proof fn law_reference_cycle_refused(c: CategoryView, doc: ApiDocument, s: Set<Seq<char>>)
    requires
        doc.components matches Some(comp) && refers_into(comp.schemas@, s) && forall|x: Seq<char>|
            s.contains(x) ==> #[trigger] entry_names(comp.schemas@).contains(x),
        exists|x: Seq<char>| s.contains(x),
        none_of(c, s),
    ensures
        spec_register_named_schemas(c, doc).1 is Err,
        none_of(spec_register_named_schemas(c, doc).0, s),
{
    let comp = doc.components->Some_0;
    let es = comp.schemas@;
    if entries_error(es) is None {
        lemma_entries_fine(es);
        assert forall|x: Seq<char>| s.contains(x) implies !#[trigger] is_reserved_name(x) by {
            assert(entry_names(es).contains(x));
            let k = choose|k: int| 0 <= k < entry_names(es).len() && entry_names(es)[k] == x;
            assert(es[k].0@ == x);
        }
        let all = all_entries(es.len());
        vstd::std_specs::vec::axiom_spec_len(&comp.schemas);
        lemma_fixpoint_none(c, es, all, s);
        law_named_schemas_registered(c, doc);
        let x = choose|x: Seq<char>| s.contains(x);
        assert(entry_names(es).contains(x));
        let k = choose|k: int| 0 <= k < entry_names(es).len() && entry_names(es)[k] == x;
        assert(es[k].0@ == x);
    }
}

/// A pass that registers nothing puts off every pending entry, so the error then
/// names every schema still pending, in order.
pub proof fn law_stalled_pass_names_pending(c: CategoryView, es: Seq<(String, SchemaOrRef)>, pending: Seq<usize>)
    requires
        pending.len() > 0,
        spec_pass(c, es, pending, Seq::empty(), false).1 matches Ok(acc) && !acc.1,
    ensures
        spec_fixpoint(c, es, pending).1 == Err::<(), FrontendErrorView>(
            FrontendErrorView::UnsupportedSchema {
                schema: crate::openapi::text::join(names_at(es, pending), ", "@),
                reason: reason_cycle(),
            },
        ),
{
    lemma_stalled_pass(c, es, pending, Seq::empty());
    assert(Seq::<usize>::empty() + pending =~= pending);
}

proof fn lemma_stalled_pass(c: CategoryView, es: Seq<(String, SchemaOrRef)>, pending: Seq<usize>, deferred: Seq<usize>)
    ensures
        spec_pass(c, es, pending, deferred, false).1 matches Ok(acc) ==> (!acc.1 ==> acc.0 == deferred + pending),
    decreases pending.len(),
{
    if pending.len() == 0 {
        assert(deferred + pending =~= deferred);
    } else {
        let step = spec_pass_step(c, es, pending[0], deferred, false);
        if let Ok(acc1) = step.1 {
            lemma_stalled_pass(step.0, es, pending.drop_first(), acc1.0);
            if !acc1.1 {
                assert(acc1.0 == deferred.push(pending[0]));
                assert(deferred.push(pending[0]) + pending.drop_first() =~= deferred + pending);
            } else {
                lemma_progress_stays(step.0, es, pending.drop_first(), acc1.0);
            }
        }
    }
}

proof fn lemma_progress_stays(c: CategoryView, es: Seq<(String, SchemaOrRef)>, pending: Seq<usize>, deferred: Seq<usize>)
    ensures
        spec_pass(c, es, pending, deferred, true).1 matches Ok(acc) ==> acc.1,
    decreases pending.len(),
{
    if pending.len() > 0 {
        let step = spec_pass_step(c, es, pending[0], deferred, true);
        if let Ok(acc1) = step.1 {
            lemma_progress_stays(step.0, es, pending.drop_first(), acc1.0);
        }
    }
}

/// The fields resolved from `props` follow `acc`, one per property, and a `$ref`
/// property's field holds the named schema it refers to.
proof fn lemma_fields_targets(
    c: CategoryView,
    name: Seq<char>,
    props: Seq<(String, SchemaOrRef)>,
    acc: Seq<(Seq<char>, Seq<char>)>,
)
    ensures
        spec_fields(c, name, props, acc).1 matches Ok(fs) ==> {
            &&& fs.len() == acc.len() + props.len()
            &&& forall|k: int| 0 <= k < acc.len() ==> fs[k] == #[trigger] acc[k]
            &&& forall|k: int|
                0 <= k < props.len() ==> (#[trigger] crate::openapi::acyclic::ref_target(props[k].1) matches Some(n)
                    ==> fs[acc.len() + k].1 == n)
        },
    decreases props.len(),
{
    if props.len() > 0 {
        let ctx = field_context(name, props[0].0@);
        let step = spec_resolve_schema(c, ctx, props[0].1);
        if let Ok(id) = step.1 {
            let acc2 = acc.push((props[0].0@, id));
            let rest = props.drop_first();
            lemma_fields_targets(step.0, name, rest, acc2);
            if let Ok(fs) = spec_fields(c, name, props, acc).1 {
                assert forall|k: int| 0 <= k < acc.len() implies fs[k] == #[trigger] acc[k] by {
                    assert(acc2[k] == acc[k]);
                }
                assert forall|k: int|
                    0 <= k < props.len() implies (#[trigger] crate::openapi::acyclic::ref_target(props[k].1) matches Some(n)
                    ==> fs[acc.len() + k].1 == n) by {
                    if k == 0 {
                        assert(fs[acc.len() as int] == acc2[acc.len() as int]);
                    } else {
                        assert(rest[k - 1] == props[k]);
                        assert(acc2.len() + (k - 1) == acc.len() + k);
                    }
                }
            }
        }
    }
}

/// A named schema with a `$ref` to a name that is not registered, and is not a built-in
/// scalar's, cannot be registered.
proof fn lemma_register_fails(c: CategoryView, name: Seq<char>, o: crate::openapi::model::ApiObjectType, k: int, n: Seq<char>)
    requires
        0 <= k < o.properties@.len(),
        crate::openapi::acyclic::ref_target(o.properties@[k].1) == Some(n),
        !c.has_object(n),
        !is_reserved_name(n),
    ensures
        spec_register_schema(c, name, o).1 is Err,
{
    let props = o.properties@;
    let fields = spec_fields(c, name, props, Seq::empty());
    lemma_fields_targets(c, name, props, Seq::empty());
    if let Ok(fs) = fields.1 {
        crate::openapi::acyclic::lemma_fields_only_reserved(c, name, props, Seq::empty(), n);
        let ov = ObjectView { id: name, kind: crate::object::ObjectShape::Product(fs) };
        assert(fs[k].1 == n);
        assert(ov.kind.targets()[k] == n);
        crate::category::lemma_first_missing(fields.0, ov.kind.targets());
    }
}

proof fn lemma_step_none(
    c: CategoryView,
    es: Seq<(String, SchemaOrRef)>,
    i: usize,
    deferred: Seq<usize>,
    progressed: bool,
    s: Set<Seq<char>>,
)
    requires
        none_of(c, s),
        forall|x: Seq<char>| s.contains(x) ==> !#[trigger] is_reserved_name(x),
        s_known(es, s) || entries_outside(es, s),
        refers_into(es, s),
        i < es.len(),
        forall|t: int| 0 <= t < deferred.len() ==> #[trigger] deferred[t] < es.len(),
    ensures
        none_of(spec_pass_step(c, es, i, deferred, progressed).0, s),
{
    lemma_pass_none(c, es, seq![i], deferred, progressed, s);
    let step = spec_pass_step(c, es, i, deferred, progressed);
    assert(seq![i].drop_first() =~= Seq::<usize>::empty());
    if let Ok(acc) = step.1 {
        assert(spec_pass(c, es, seq![i], deferred, progressed).0 == spec_pass(step.0, es, Seq::empty(), acc.0, acc.1).0);
    }
}

/// While `n` stays unregistered, entry `i`, which refers to `n`, is always put off.
proof fn lemma_pass_keeps(
    c: CategoryView,
    es: Seq<(String, SchemaOrRef)>,
    pending: Seq<usize>,
    deferred: Seq<usize>,
    progressed: bool,
    i: usize,
    k: int,
    n: Seq<char>,
)
    requires
        none_of(c, Set::empty().insert(n)),
        !is_reserved_name(n),
        entries_outside(es, Set::empty().insert(n)),
        i < es.len(),
        top_level_object(es[i as int].0@, es[i as int].1) matches Ok(o) && 0 <= k < o.properties@.len()
            && crate::openapi::acyclic::ref_target(o.properties@[k].1) == Some(n),
        forall|t: int| 0 <= t < pending.len() ==> #[trigger] pending[t] < es.len(),
        forall|t: int| 0 <= t < deferred.len() ==> #[trigger] deferred[t] < es.len(),
    ensures
        spec_pass(c, es, pending, deferred, progressed).1 matches Ok(acc) ==> ((pending.contains(i) || deferred.contains(i))
            ==> acc.0.contains(i)),
    decreases pending.len(),
{
    let sn = Set::empty().insert(n);
    if pending.len() == 0 {
        assert(pending.len() == 0 ==> !pending.contains(i));
    } else {
        let i0 = pending[0];
        let step = spec_pass_step(c, es, i0, deferred, progressed);
        let rest = pending.drop_first();
        assert forall|x: Seq<char>| sn.contains(x) implies !#[trigger] is_reserved_name(x) by {}
        assert(refers_into(es, sn));
        lemma_step_none(c, es, i0, deferred, progressed, sn);
        if i0 == i {
            let o = top_level_object(es[i as int].0@, es[i as int].1)->Ok_0;
            if !waits(c, entry_names(es), o.properties@) {
                assert(!c.has_object(n));
                lemma_register_fails(c, es[i as int].0@, o, k, n);
            }
        }
        if let Ok(acc1) = step.1 {
            assert forall|t: int| 0 <= t < rest.len() implies #[trigger] rest[t] < es.len() by {
                assert(rest[t] == pending[t + 1]);
            }
            assert(acc1.0 == deferred || acc1.0 == deferred.push(i0));
            assert forall|t: int| 0 <= t < acc1.0.len() implies #[trigger] acc1.0[t] < es.len() by {
                if t < deferred.len() {
                    assert(acc1.0[t] == deferred[t]);
                }
            }
            lemma_pass_keeps(step.0, es, rest, acc1.0, acc1.1, i, k, n);
            if pending.contains(i) || deferred.contains(i) {
                if deferred.contains(i) {
                    let t = choose|t: int| 0 <= t < deferred.len() && deferred[t] == i;
                    assert(acc1.0[t] == i);
                } else if i0 == i {
                    assert(acc1.0 == deferred.push(i0));
                    assert(acc1.0[deferred.len() as int] == i);
                } else {
                    let t = choose|t: int| 0 <= t < pending.len() && pending[t] == i;
                    assert(t != 0);
                    assert(rest[t - 1] == i);
                }
            }
        }
    }
}

proof fn lemma_fixpoint_fails(c: CategoryView, es: Seq<(String, SchemaOrRef)>, pending: Seq<usize>, i: usize, k: int, n: Seq<char>)
    requires
        none_of(c, Set::empty().insert(n)),
        !is_reserved_name(n),
        entries_outside(es, Set::empty().insert(n)),
        i < es.len(),
        top_level_object(es[i as int].0@, es[i as int].1) matches Ok(o) && 0 <= k < o.properties@.len()
            && crate::openapi::acyclic::ref_target(o.properties@[k].1) == Some(n),
        forall|t: int| 0 <= t < pending.len() ==> #[trigger] pending[t] < es.len(),
        pending.contains(i),
    ensures
        spec_fixpoint(c, es, pending).1 is Err,
    decreases pending.len(),
{
    let sn = Set::empty().insert(n);
    let pass = spec_pass(c, es, pending, Seq::empty(), false);
    lemma_pass_keeps(c, es, pending, Seq::empty(), false, i, k, n);
    assert forall|x: Seq<char>| sn.contains(x) implies !#[trigger] is_reserved_name(x) by {}
    assert(refers_into(es, sn));
    lemma_pass_none(c, es, pending, Seq::empty(), false, sn);
    if let Ok(acc) = pass.1 {
        if acc.1 {
            lemma_pass_defers(c, es, pending, Seq::empty(), false);
            lemma_fixpoint_fails(pass.0, es, acc.0, i, k, n);
        }
    }
}

/// A `$ref` to a name that `components.schemas` does not declare, and that is neither
/// registered nor a built-in scalar's, makes registering the named schemas fail.
pub proof fn law_undeclared_reference_refused(c: CategoryView, doc: ApiDocument, i: int, k: int, n: Seq<char>)
    requires
        doc.components matches Some(comp) && 0 <= i < comp.schemas@.len() && !entry_names(comp.schemas@).contains(n)
            && (top_level_object(comp.schemas@[i].0@, comp.schemas@[i].1) matches Ok(o) && 0 <= k
            < o.properties@.len() && crate::openapi::acyclic::ref_target(o.properties@[k].1) == Some(n)),
        !is_reserved_name(n),
        !c.has_object(n),
    ensures
        spec_register_named_schemas(c, doc).1 is Err,
{
    let comp = doc.components->Some_0;
    let es = comp.schemas@;
    if entries_error(es) is None {
        let sn = Set::empty().insert(n);
        assert forall|x: Seq<char>| sn.contains(x) implies !#[trigger] c.has_object(x) by {}
        assert forall|j: int| 0 <= j < es.len() implies !sn.contains(#[trigger] es[j].0@) by {
            assert(entry_names(es)[j] == es[j].0@);
        }
        let all = all_entries(es.len());
        vstd::std_specs::vec::axiom_spec_len(&comp.schemas);
        assert(all[i] == i as usize);
        lemma_fixpoint_fails(c, es, all, i as usize, k, n);
    }
}

proof fn lemma_json_keeps(c: CategoryView, context: Seq<char>, content: Seq<(String, ApiMediaType)>, found: Option<Seq<char>>)
    requires
        c.wf(),
    ensures
        spec_json_schema(c, context, content, found).0.wf(),
        forall|x: Seq<char>| c.has_object(x) ==> #[trigger] spec_json_schema(c, context, content, found).0.find_object(x) == c.find_object(x),
    decreases content.len(),
{
    if content.len() > 0 {
        if crate::openapi::text::is_json_media(content[0].0@) && content[0].1.schema is Some {
            let sc = content[0].1.schema->Some_0;
            let step = spec_resolve_schema(c, context, sc);
            crate::openapi::acyclic::lemma_resolve_keeps(c, context, sc);
            lemma_resolve_grows(c, context, sc);
            if let Ok(id) = step.1 {
                lemma_json_keeps(step.0, context, content.drop_first(), Some(id));
                assert forall|x: Seq<char>| c.has_object(x) implies #[trigger] spec_json_schema(c, context, content, found).0.find_object(x)
                    == c.find_object(x) by {
                    assert(step.0.has_object(x));
                }
            }
        } else {
            lemma_json_keeps(c, context, content.drop_first(), found);
        }
    }
}

proof fn lemma_params_keeps(
    c: CategoryView,
    op: Seq<char>,
    ps: Seq<RefOr<ApiParameter>>,
    acc: Seq<(Seq<char>, Seq<char>, Seq<char>)>,
)
    requires
        c.wf(),
    ensures
        spec_params(c, op, ps, acc).0.wf(),
        forall|x: Seq<char>| c.has_object(x) ==> #[trigger] spec_params(c, op, ps, acc).0.find_object(x) == c.find_object(x),
    decreases ps.len(),
{
    if ps.len() > 0 {
        if let RefOr::Item(p) = ps[0] {
            if let crate::openapi::model::ApiParameterFormat::Schema(sc) = p.format {
                let ctx = op + " の parameter "@ + p.name@;
                let step = spec_resolve_schema(c, ctx, sc);
                crate::openapi::acyclic::lemma_resolve_keeps(c, ctx, sc);
                lemma_resolve_grows(c, ctx, sc);
                if let Ok(id) = step.1 {
                    let acc2 = acc.push((p.name@, crate::openapi::params::location_label(p.location), id));
                    lemma_params_keeps(step.0, op, ps.drop_first(), acc2);
                    assert forall|x: Seq<char>| c.has_object(x) implies #[trigger] spec_params(c, op, ps, acc).0.find_object(x)
                        == c.find_object(x) by {
                        assert(step.0.has_object(x));
                    }
                }
            }
        }
    }
}

/// The domain of an operation, stated directly. Its inputs are its merged parameters,
/// each as its name, location and object, then its JSON request body, if any, under the
/// name `body`. With no input the domain is `Unit`; with one, that input's object; with
/// several, the product `<operationId>Params` of all of them, which must be a new name,
/// registered with the inputs as fields (see `law_field_names_distinct`).
pub proof fn law_domain_exact(
    c: CategoryView,
    op: Seq<char>,
    path_params: Seq<RefOr<ApiParameter>>,
    op_params: Seq<RefOr<ApiParameter>>,
    rb: Option<RefOr<ApiRequestBody>>,
)
    requires
        c.wf(),
    ensures
        ({
            let ps = spec_params(c, op, spec_merge(Seq::empty(), path_params + op_params), Seq::empty());
            let b = spec_body(ps.0, op, rb);
            let (r, d) = spec_domain(c, op, path_params, op_params, rb);
            &&& r.wf()
            &&& ps.1 matches Err(e) ==> d == Err::<Seq<char>, FrontendErrorView>(e) && r == ps.0
            &&& (ps.1 is Ok && b.1 is Err) ==> r == b.0 && d is Err
            &&& (ps.1 matches Ok(es0) ==> b.1 matches Ok(body) ==> {
                let es = with_body(es0, body);
                let name = op + "Params"@;
                &&& es.len() == 0 ==> d == Ok::<Seq<char>, FrontendErrorView>("Unit"@) && r.has_object("Unit"@)
                &&& es.len() == 1 ==> d == Ok::<Seq<char>, FrontendErrorView>(es[0].2) && r == b.0
                &&& (es.len() >= 2 && b.0.has_object(name)) ==> d == Err::<Seq<char>, FrontendErrorView>(
                    FrontendErrorView::GeneratedNameCollision { operation_id: op, name },
                )
                &&& (es.len() >= 2 && d is Ok) ==> d == Ok::<Seq<char>, FrontendErrorView>(name) && !b.0.has_object(name)
                    && r.find_object(name) == Some(
                    ObjectView {
                        id: name,
                        kind: crate::object::ObjectShape::Product(crate::openapi::fields::input_fields(es)),
                    },
                )
            })
        }),
{
    let merged = spec_merge(Seq::empty(), path_params + op_params);
    let ps = spec_params(c, op, merged, Seq::empty());
    lemma_params_keeps(c, op, merged, Seq::empty());
    let b = spec_body(ps.0, op, rb);
    if let Some(RefOr::Item(body)) = rb {
        lemma_json_keeps(ps.0, op + " の requestBody"@, body.content@, None);
    }
    if let Ok(es0) = ps.1 {
        if let Ok(body) = b.1 {
            let es = with_body(es0, body);
            let name = op + "Params"@;
            if es.len() == 0 {
                let o = ObjectView { id: "Unit"@, kind: crate::object::ObjectShape::Scalar };
                lemma_intern_grows(b.0, "Unit"@);
                if !b.0.has_object("Unit"@) {
                    crate::category::lemma_first_missing(b.0, o.kind.targets());
                    crate::category::lemma_add_object_wf(b.0, o);
                }
            } else if es.len() >= 2 && !b.0.has_object(name) {
                let ov = ObjectView {
                    id: name,
                    kind: crate::object::ObjectShape::Product(crate::openapi::fields::input_fields(es)),
                };
                crate::category::lemma_add_object_wf(b.0, ov);
                if spec_add_object(b.0, ov).1 is Ok {
                    crate::category::lemma_push_object_finds(b.0, ov, name);
                }
            }
        }
    }
}

/// The operations of a path item under its eight methods, in the order GET, PUT, POST,
/// DELETE, OPTIONS, HEAD, PATCH, TRACE, each where the method is present.
pub open spec fn method_slots(pi: ApiPathItem) -> Seq<Option<ApiOperation>> {
    seq![pi.get, pi.put, pi.post, pi.delete, pi.options, pi.head, pi.patch, pi.trace]
}

/// No method is skipped: in the category built from a document, every operation of every
/// path item, under any of the eight methods (`patch` and `trace` as much as `get`), has
/// an `operationId` and is a morphism named after it.
pub proof fn law_every_method_registered(doc: ApiDocument)
    ensures
        spec_category_from_document(doc) matches Ok(cv) ==> forall|k: int, m: int|
            0 <= k < doc.paths@.len() && 0 <= m < 8 ==> (doc.paths@[k].1 is Item && (#[trigger] method_slots(
                doc.paths@[k].1->Item_0,
            )[m] matches Some(o) ==> o.operation_id is Some && cv.has_morphism(
                MorphismKey::Primitive(o.operation_id->Some_0@),
            ))),
{
    law_document_registered(doc);
    if let Ok(cv) = spec_category_from_document(doc) {
        assert forall|k: int, m: int|
            0 <= k < doc.paths@.len() && 0 <= m < 8 implies (doc.paths@[k].1 is Item && (#[trigger] method_slots(
                doc.paths@[k].1->Item_0,
            )[m] matches Some(o) ==> o.operation_id is Some && cv.has_morphism(
                MorphismKey::Primitive(o.operation_id->Some_0@),
            ))) by {
            assert(path_registered(cv, doc.paths@[k].1));
            let pi = doc.paths@[k].1->Item_0;
            let ops = spec_operations(pi);
            assert(ops_registered(cv, ops));
            law_operations_complete(pi);
            if let Some(o) = method_slots(pi)[m] {
                let names = seq!["GET"@, "PUT"@, "POST"@, "DELETE"@, "OPTIONS"@, "HEAD"@, "PATCH"@, "TRACE"@];
                assert(ops.contains((names[m], o)));
                let j = choose|j: int| 0 <= j < ops.len() && ops[j] == (names[m], o);
                assert(op_registered(cv, ops[j].1));
            }
        }
    }
}

} // verus!
