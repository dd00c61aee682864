//! The operations of `paths`, each registered as an effectful primitive morphism from
//! its inputs to its success type, asynchronous and, where it has an error type,
//! fallible.

use vstd::prelude::*;

use crate::category::{spec_add_morphism, Category, CategoryView};
use crate::effect::{layers_view, Effect, EffectStack, EffectView};
use crate::openapi::content::opt_id_step;
use crate::openapi::error::{unit_step, FrontendError, FrontendErrorView};
use crate::openapi::model::{ApiOperation, ApiPathItem, RefOr};
use crate::openapi::params::{resolve_domain, spec_domain};
use crate::openapi::responses::{resolve_error_response, resolve_success_response, spec_error, spec_success};
use crate::openapi::text::concat2;

verus! {

/// The operation `o` under method `m`, if there is one.
pub open spec fn method_entry(m: Seq<char>, o: Option<ApiOperation>) -> Seq<(Seq<char>, ApiOperation)> {
    match o {
        Some(x) => seq![(m, x)],
        None => Seq::empty(),
    }
}

/// The operations of a path item with their methods, in the order GET, PUT, POST,
/// DELETE, OPTIONS, HEAD, PATCH, TRACE.
pub open spec fn spec_operations(p: ApiPathItem) -> Seq<(Seq<char>, ApiOperation)> {
    method_entry("GET"@, p.get) + method_entry("PUT"@, p.put) + method_entry("POST"@, p.post)
        + method_entry("DELETE"@, p.delete) + method_entry("OPTIONS"@, p.options) + method_entry(
        "HEAD"@,
        p.head,
    ) + method_entry("PATCH"@, p.patch) + method_entry("TRACE"@, p.trace)
}

/// The view of a list of operations with their methods.
pub open spec fn ops_view(v: Seq<(&str, &ApiOperation)>) -> Seq<(Seq<char>, ApiOperation)> {
    v.map_values(|x: (&str, &ApiOperation)| (x.0@, *x.1))
}

fn add_method<'a>(out: &mut Vec<(&'static str, &'a ApiOperation)>, m: &'static str, o: &'a Option<ApiOperation>)
    ensures
        ops_view(final(out)@) == ops_view(old(out)@) + method_entry(m@, *o),
{
    let ghost before = ops_view(out@);
    match o {
        Some(x) => {
            out.push((m, x));
            proof {
                assert(ops_view(out@) =~= before + seq![(m@, *x)]);
            }
        },
        None => {
            proof {
                assert(ops_view(out@) =~= before + Seq::<(Seq<char>, ApiOperation)>::empty());
            }
        },
    }
}

/// The operations of a path item with their methods (see [`spec_operations`]).
pub fn operations(p: &ApiPathItem) -> (r: Vec<(&'static str, &ApiOperation)>)
    ensures
        ops_view(r@) == spec_operations(*p),
{
    let mut out: Vec<(&'static str, &ApiOperation)> = Vec::new();
    proof {
        assert(ops_view(out@) =~= Seq::<(Seq<char>, ApiOperation)>::empty());
    }
    add_method(&mut out, "GET", &p.get);
    add_method(&mut out, "PUT", &p.put);
    add_method(&mut out, "POST", &p.post);
    add_method(&mut out, "DELETE", &p.delete);
    add_method(&mut out, "OPTIONS", &p.options);
    add_method(&mut out, "HEAD", &p.head);
    add_method(&mut out, "PATCH", &p.patch);
    add_method(&mut out, "TRACE", &p.trace);
    proof {
        assert(ops_view(out@) =~= spec_operations(*p));
    }
    out
}

/// The effects of an operation: asynchronous, then fallible where it has an error type.
pub open spec fn operation_effects(err: Option<Seq<char>>) -> Seq<EffectView> {
    match err {
        None => seq![EffectView::Async],
        Some(e) => seq![EffectView::Async, EffectView::Fallible(e)],
    }
}

/// Registering the operation `op` of path `path` under `method`.
pub open spec fn spec_register_operation(
    c: CategoryView,
    path: Seq<char>,
    method: Seq<char>,
    pi: ApiPathItem,
    op: ApiOperation,
) -> (CategoryView, Result<(), FrontendErrorView>) {
    match op.operation_id {
        None => (c, Err(FrontendErrorView::MissingOperationId { method, path })),
        Some(id) => {
            let d = spec_domain(c, id@, pi.parameters@, op.parameters@, op.request_body);
            match d.1 {
                Err(e) => (d.0, Err(e)),
                Ok(dom) => {
                    let s = spec_success(d.0, id@, op.responses);
                    match s.1 {
                        Err(e) => (s.0, Err(e)),
                        Ok(cod) => {
                            let er = spec_error(s.0, id@, op.responses);
                            match er.1 {
                                Err(e) => (er.0, Err(e)),
                                Ok(err) => {
                                    let m = spec_add_morphism(er.0, id@, dom, cod, operation_effects(err));
                                    match m.1 {
                                        Err(e) => (m.0, Err(FrontendErrorView::Category(e))),
                                        Ok(_) => (m.0, Ok(())),
                                    }
                                },
                            }
                        },
                    }
                },
            }
        },
    }
}

/// Registering the operations `ops` of path `path` in order.
pub open spec fn spec_register_ops(
    c: CategoryView,
    path: Seq<char>,
    pi: ApiPathItem,
    ops: Seq<(Seq<char>, ApiOperation)>,
) -> (CategoryView, Result<(), FrontendErrorView>)
    decreases ops.len(),
{
    if ops.len() == 0 {
        (c, Ok(()))
    } else {
        let step = spec_register_operation(c, path, ops[0].0, pi, ops[0].1);
        match step.1 {
            Err(e) => (step.0, Err(e)),
            Ok(_) => spec_register_ops(step.0, path, pi, ops.drop_first()),
        }
    }
}

/// Registering the operations of `paths` in order; a path item given by `$ref` is refused.
pub open spec fn spec_register_paths(c: CategoryView, paths: Seq<(String, RefOr<ApiPathItem>)>) -> (CategoryView, Result<(), FrontendErrorView>)
    decreases paths.len(),
{
    if paths.len() == 0 {
        (c, Ok(()))
    } else {
        match paths[0].1 {
            RefOr::Reference(r) => (
                c,
                Err(FrontendErrorView::UnsupportedReference { context: "paths."@ + paths[0].0@, reference: r@ }),
            ),
            RefOr::Item(pi) => {
                let step = spec_register_ops(c, paths[0].0@, pi, spec_operations(pi));
                match step.1 {
                    Err(e) => (step.0, Err(e)),
                    Ok(_) => spec_register_paths(step.0, paths.drop_first()),
                }
            },
        }
    }
}

/// Registers operation `op` of path `path` (see [`spec_register_operation`]).
pub fn register_operation(c: &mut Category, path: &String, method: &str, pi: &ApiPathItem, op: &ApiOperation) -> (r: Result<(), FrontendError>)
    ensures
        final(c)@.wf(),
        (final(c)@, unit_step(r)) == spec_register_operation(old(c)@, path@, method@, *pi, *op),
{
    proof {
        use_type_invariant(&*c);
    }
    let id = match &op.operation_id {
        None => {
            return Err(FrontendError::MissingOperationId { method: String::from_str(method), path: path.clone() });
        },
        Some(id) => id,
    };
    let dom = match resolve_domain(c, id, &pi.parameters, &op.parameters, &op.request_body) {
        Err(e) => {
            return Err(e);
        },
        Ok(d) => d,
    };
    let cod = match resolve_success_response(c, id, &op.responses) {
        Err(e) => {
            return Err(e);
        },
        Ok(x) => x,
    };
    let err = match resolve_error_response(c, id, &op.responses) {
        Err(e) => {
            return Err(e);
        },
        Ok(x) => x,
    };
    let mut layers: Vec<Effect> = Vec::new();
    layers.push(Effect::Async);
    match err {
        Some(e) => {
            layers.push(Effect::Fallible { error: e });
        },
        None => {},
    }
    proof {
        assert(layers_view(layers@) =~= operation_effects(opt_id_step(Ok(err))->Ok_0));
    }
    match c.add_effectful_primitive_morphism(id.clone(), dom, cod, EffectStack::wrapping(layers)) {
        Err(e) => Err(FrontendError::Category(e)),
        Ok(_) => Ok(()),
    }
}

fn register_ops(c: &mut Category, path: &String, pi: &ApiPathItem) -> (r: Result<(), FrontendError>)
    ensures
        final(c)@.wf(),
        (final(c)@, unit_step(r)) == spec_register_ops(old(c)@, path@, *pi, spec_operations(*pi)),
{
    proof {
        use_type_invariant(&*c);
    }
    let ghost c0 = c@;
    let ops = operations(pi);
    let ghost all = ops_view(ops@);
    let mut i: usize = 0;
    proof {
        assert(all.subrange(0, all.len() as int) =~= all);
    }
    while i < ops.len()
        invariant
            c0 == old(c)@,
            c@.wf(),
            i <= ops.len(),
            all == ops_view(ops@),
            all == spec_operations(*pi),
            spec_register_ops(c@, path@, *pi, all.subrange(i as int, all.len() as int))
                == spec_register_ops(c0, path@, *pi, all),
        decreases ops.len() - i,
    {
        let ghost rest = all.subrange(i as int, all.len() as int);
        proof {
            assert(rest[0] == all[i as int]);
            assert(rest.drop_first() =~= all.subrange(i + 1, all.len() as int));
        }
        match register_operation(c, path, ops[i].0, pi, ops[i].1) {
            Err(e) => {
                return Err(e);
            },
            Ok(()) => {},
        }
        i = i + 1;
    }
    Ok(())
}

/// Registers the operations of `paths` (see [`spec_register_paths`]).
pub fn register_routes(c: &mut Category, paths: &Vec<(String, RefOr<ApiPathItem>)>) -> (r: Result<(), FrontendError>)
    ensures
        final(c)@.wf(),
        (final(c)@, unit_step(r)) == spec_register_paths(old(c)@, paths@),
{
    proof {
        use_type_invariant(&*c);
    }
    let ghost c0 = c@;
    let mut i: usize = 0;
    proof {
        assert(paths@.subrange(0, paths@.len() as int) =~= paths@);
    }
    while i < paths.len()
        invariant
            c0 == old(c)@,
            c@.wf(),
            i <= paths.len(),
            spec_register_paths(c@, paths@.subrange(i as int, paths@.len() as int))
                == spec_register_paths(c0, paths@),
        decreases paths.len() - i,
    {
        let ghost rest = paths@.subrange(i as int, paths@.len() as int);
        proof {
            assert(rest[0] == paths@[i as int]);
            assert(rest.drop_first() =~= paths@.subrange(i + 1, paths@.len() as int));
        }
        match &paths[i].1 {
            RefOr::Reference(reference) => {
                return Err(
                    FrontendError::UnsupportedReference {
                        context: concat2("paths.", paths[i].0.as_str()),
                        reference: reference.clone(),
                    },
                );
            },
            RefOr::Item(pi) => {
                match register_ops(c, &paths[i].0, pi) {
                    Err(e) => {
                        return Err(e);
                    },
                    Ok(()) => {},
                }
            },
        }
        i = i + 1;
    }
    Ok(())
}

proof fn lemma_concat_contains<A>(a: Seq<A>, b: Seq<A>)
    ensures
        forall|x: A| #[trigger] (a + b).contains(x) <==> (a.contains(x) || b.contains(x)),
{
    assert forall|x: A| #[trigger] (a + b).contains(x) <==> (a.contains(x) || b.contains(x)) by {
        if (a + b).contains(x) {
            let k = choose|k: int| 0 <= k < (a + b).len() && (a + b)[k] == x;
            if k < a.len() {
                assert(a[k] == x);
            } else {
                assert(b[k - a.len()] == x);
            }
        }
        if a.contains(x) {
            let k = choose|k: int| 0 <= k < a.len() && a[k] == x;
            assert((a + b)[k] == x);
        }
        if b.contains(x) {
            let k = choose|k: int| 0 <= k < b.len() && b[k] == x;
            assert((a + b)[a.len() + k] == x);
        }
    }
}

proof fn lemma_entry_contains(m: Seq<char>, o: Option<ApiOperation>)
    ensures
        forall|x: (Seq<char>, ApiOperation)| #[trigger] method_entry(m, o).contains(x) <==> (x.0 == m && o == Some(x.1)),
{
    assert forall|x: (Seq<char>, ApiOperation)| #[trigger] method_entry(m, o).contains(x) <==> (x.0 == m && o == Some(x.1)) by {
        if let Some(y) = o {
            if x.0 == m && o == Some(x.1) {
                assert(method_entry(m, o)[0] == x);
            }
        }
    }
}

/// The operations of a path item are exactly those present under its eight methods,
/// each paired with its method's name: an operation under PATCH, say, is among them as
/// `("PATCH", operation)`, every one of them is the operation of the method it names,
/// and there are as many of them as methods present, so none comes twice.
pub proof fn law_operations_complete(p: ApiPathItem)
    ensures
        p.get matches Some(o) ==> spec_operations(p).contains(("GET"@, o)),
        p.put matches Some(o) ==> spec_operations(p).contains(("PUT"@, o)),
        p.post matches Some(o) ==> spec_operations(p).contains(("POST"@, o)),
        p.delete matches Some(o) ==> spec_operations(p).contains(("DELETE"@, o)),
        p.options matches Some(o) ==> spec_operations(p).contains(("OPTIONS"@, o)),
        p.head matches Some(o) ==> spec_operations(p).contains(("HEAD"@, o)),
        p.patch matches Some(o) ==> spec_operations(p).contains(("PATCH"@, o)),
        p.trace matches Some(o) ==> spec_operations(p).contains(("TRACE"@, o)),
        spec_operations(p).len() == (if p.get is Some { 1int } else { 0 }) + (if p.put is Some { 1int } else { 0 })
            + (if p.post is Some { 1int } else { 0 }) + (if p.delete is Some { 1int } else { 0 }) + (if p.options is Some {
            1int
        } else {
            0
        }) + (if p.head is Some { 1int } else { 0 }) + (if p.patch is Some { 1int } else { 0 }) + (if p.trace is Some {
            1int
        } else {
            0
        }),
        forall|x: (Seq<char>, ApiOperation)|
            #[trigger] spec_operations(p).contains(x) ==> {
                ||| x.0 == "GET"@ && p.get == Some(x.1)
                ||| x.0 == "PUT"@ && p.put == Some(x.1)
                ||| x.0 == "POST"@ && p.post == Some(x.1)
                ||| x.0 == "DELETE"@ && p.delete == Some(x.1)
                ||| x.0 == "OPTIONS"@ && p.options == Some(x.1)
                ||| x.0 == "HEAD"@ && p.head == Some(x.1)
                ||| x.0 == "PATCH"@ && p.patch == Some(x.1)
                ||| x.0 == "TRACE"@ && p.trace == Some(x.1)
            },
{
    let e1 = method_entry("GET"@, p.get);
    let e2 = method_entry("PUT"@, p.put);
    let e3 = method_entry("POST"@, p.post);
    let e4 = method_entry("DELETE"@, p.delete);
    let e5 = method_entry("OPTIONS"@, p.options);
    let e6 = method_entry("HEAD"@, p.head);
    let e7 = method_entry("PATCH"@, p.patch);
    let e8 = method_entry("TRACE"@, p.trace);
    lemma_entry_contains("GET"@, p.get);
    lemma_entry_contains("PUT"@, p.put);
    lemma_entry_contains("POST"@, p.post);
    lemma_entry_contains("DELETE"@, p.delete);
    lemma_entry_contains("OPTIONS"@, p.options);
    lemma_entry_contains("HEAD"@, p.head);
    lemma_entry_contains("PATCH"@, p.patch);
    lemma_entry_contains("TRACE"@, p.trace);
    let s2 = e1 + e2;
    let s3 = s2 + e3;
    let s4 = s3 + e4;
    let s5 = s4 + e5;
    let s6 = s5 + e6;
    let s7 = s6 + e7;
    let s8 = s7 + e8;
    lemma_concat_contains(e1, e2);
    lemma_concat_contains(s2, e3);
    lemma_concat_contains(s3, e4);
    lemma_concat_contains(s4, e5);
    lemma_concat_contains(s5, e6);
    lemma_concat_contains(s6, e7);
    lemma_concat_contains(s7, e8);
    assert(spec_operations(p) == s8);
}

} // verus!
