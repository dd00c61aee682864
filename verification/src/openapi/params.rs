//! The domain of an operation: its parameters (path item level, overridden by operation
//! level) and its JSON request body, as one object.

use vstd::prelude::*;

use crate::category::{spec_add_object, Category, CategoryView};
use crate::object::{members_view, Object, ObjectId, ObjectShape, ObjectView};
use crate::openapi::content::{json_schema, opt_id_step, spec_json_schema};
use crate::openapi::error::{id_step, FrontendError, FrontendErrorView};
use crate::openapi::fields::{input_field_names, input_fields, inputs_view, law_field_names_distinct, Input};
use crate::openapi::model::{ApiParameter, ApiParameterFormat, ApiParameterLocation, ApiRequestBody, RefOr};
use crate::openapi::schema::{intern_scalar, resolve_schema, spec_intern_scalar, spec_resolve_schema};
use crate::openapi::text::{concat2, concat3, eq_ignore_ascii_case, lower};

verus! {

/// A number for each parameter location.
pub open spec fn location_tag(l: ApiParameterLocation) -> int {
    match l {
        ApiParameterLocation::Query => 0,
        ApiParameterLocation::Header => 1,
        ApiParameterLocation::Path => 2,
        ApiParameterLocation::Cookie => 3,
    }
}

fn location_code(l: &ApiParameterLocation) -> (r: u8)
    ensures
        r == location_tag(*l),
{
    match l {
        ApiParameterLocation::Query => 0,
        ApiParameterLocation::Header => 1,
        ApiParameterLocation::Path => 2,
        ApiParameterLocation::Cookie => 3,
    }
}

/// What identifies a parameter: its name and location, header names up to ASCII case;
/// a `$ref` is identified by the reference itself.
pub open spec fn param_key(p: RefOr<ApiParameter>) -> (Seq<char>, int) {
    match p {
        RefOr::Reference(r) => (r@, 4),
        RefOr::Item(q) => (
            if q.location is Header {
                lower(q.name@)
            } else {
                q.name@
            },
            location_tag(q.location),
        ),
    }
}

fn same_key(a: &RefOr<ApiParameter>, b: &RefOr<ApiParameter>) -> (r: bool)
    ensures
        r == (param_key(*a) == param_key(*b)),
{
    match (a, b) {
        (RefOr::Reference(x), RefOr::Reference(y)) => *x == *y,
        (RefOr::Item(p), RefOr::Item(q)) => {
            if location_code(&p.location) != location_code(&q.location) {
                return false;
            }
            match p.location {
                ApiParameterLocation::Header => eq_ignore_ascii_case(p.name.as_str(), q.name.as_str()),
                _ => p.name == q.name,
            }
        },
        (RefOr::Reference(_), RefOr::Item(q)) => {
            proof {
                assert(location_tag(q.location) != 4);
            }
            false
        },
        (RefOr::Item(p), RefOr::Reference(_)) => {
            proof {
                assert(location_tag(p.location) != 4);
            }
            false
        },
    }
}

/// Whether a parameter of `acc` has the key of `p`.
pub open spec fn has_key(acc: Seq<RefOr<ApiParameter>>, p: RefOr<ApiParameter>) -> bool {
    exists|i: int| 0 <= i < acc.len() && #[trigger] param_key(acc[i]) == param_key(p)
}

/// The position of the parameter of `acc` with the key of `p`.
pub open spec fn key_index(acc: Seq<RefOr<ApiParameter>>, p: RefOr<ApiParameter>) -> int {
    choose|i: int| 0 <= i < acc.len() && #[trigger] param_key(acc[i]) == param_key(p)
}

/// `p` added to `acc`: in place of the parameter with its key, or at the end.
pub open spec fn merge_one(acc: Seq<RefOr<ApiParameter>>, p: RefOr<ApiParameter>) -> Seq<RefOr<ApiParameter>> {
    if has_key(acc, p) {
        acc.update(key_index(acc, p), p)
    } else {
        acc.push(p)
    }
}

/// The parameters of `rest` added one by one to `acc`.
pub open spec fn spec_merge(acc: Seq<RefOr<ApiParameter>>, rest: Seq<RefOr<ApiParameter>>) -> Seq<RefOr<ApiParameter>>
    decreases rest.len(),
{
    if rest.len() == 0 {
        acc
    } else {
        spec_merge(merge_one(acc, rest[0]), rest.drop_first())
    }
}

/// Whether no two parameters share a key.
pub open spec fn keys_distinct(s: Seq<RefOr<ApiParameter>>) -> bool {
    forall|i: int, j: int| 0 <= i < j < s.len() ==> param_key(#[trigger] s[i]) != param_key(#[trigger] s[j])
}

/// The parameters behind a list of references.
pub open spec fn derefs(s: Seq<&RefOr<ApiParameter>>) -> Seq<RefOr<ApiParameter>> {
    s.map_values(|p: &RefOr<ApiParameter>| *p)
}

fn merge_into<'a>(merged: &mut Vec<&'a RefOr<ApiParameter>>, p: &'a RefOr<ApiParameter>)
    requires
        keys_distinct(derefs(old(merged)@)),
    ensures
        derefs(final(merged)@) == merge_one(derefs(old(merged)@), *p),
        keys_distinct(derefs(final(merged)@)),
{
    let ghost acc = derefs(merged@);
    let mut i: usize = 0;
    while i < merged.len()
        invariant
            i <= merged.len(),
            acc == derefs(merged@),
            acc == derefs(old(merged)@),
            keys_distinct(acc),
            forall|j: int| 0 <= j < i ==> #[trigger] param_key(acc[j]) != param_key(*p),
        decreases merged.len() - i,
    {
        if same_key(merged[i], p) {
            proof {
                assert(param_key(acc[i as int]) == param_key(*p));
                assert(has_key(acc, *p));
                let k = key_index(acc, *p);
                assert(param_key(acc[k]) == param_key(*p));
                if k != i {
                    if k < i {
                        assert(param_key(acc[k]) != param_key(acc[i as int]));
                    } else {
                        assert(param_key(acc[i as int]) != param_key(acc[k]));
                    }
                }
            }
            merged.set(i, p);
            proof {
                assert(derefs(merged@) =~= acc.update(i as int, *p));
                let s = derefs(merged@);
                assert forall|a: int, b: int| 0 <= a < b < s.len() implies param_key(#[trigger] s[a])
                    != param_key(#[trigger] s[b]) by {
                    assert(param_key(s[a]) == param_key(acc[a]));
                    assert(param_key(s[b]) == param_key(acc[b]));
                }
            }
            return;
        }
        i = i + 1;
    }
    proof {
        assert(!has_key(acc, *p));
    }
    merged.push(p);
    proof {
        assert(derefs(merged@) =~= acc.push(*p));
    }
}

/// The parameters of an operation: those of its path item, each overridden by the
/// operation's parameter with the same key, then the operation's other parameters.
pub fn merge_parameters<'a>(path: &'a Vec<RefOr<ApiParameter>>, op: &'a Vec<RefOr<ApiParameter>>) -> (r: Vec<&'a RefOr<ApiParameter>>)
    ensures
        derefs(r@) == spec_merge(Seq::empty(), path@ + op@),
        keys_distinct(derefs(r@)),
{
    let ghost all = path@ + op@;
    let mut merged: Vec<&'a RefOr<ApiParameter>> = Vec::new();
    let mut i: usize = 0;
    proof {
        assert(derefs(merged@) =~= Seq::<RefOr<ApiParameter>>::empty());
        assert(all.subrange(0, all.len() as int) =~= all);
    }
    while i < path.len()
        invariant
            i <= path.len(),
            all == path@ + op@,
            keys_distinct(derefs(merged@)),
            spec_merge(derefs(merged@), all.subrange(i as int, all.len() as int)) == spec_merge(Seq::empty(), all),
        decreases path.len() - i,
    {
        let ghost rest = all.subrange(i as int, all.len() as int);
        proof {
            assert(rest[0] == path@[i as int]);
            assert(rest.drop_first() =~= all.subrange(i + 1, all.len() as int));
        }
        merge_into(&mut merged, &path[i]);
        i = i + 1;
    }
    let mut j: usize = 0;
    while j < op.len()
        invariant
            j <= op.len(),
            i == path.len(),
            all == path@ + op@,
            keys_distinct(derefs(merged@)),
            spec_merge(derefs(merged@), all.subrange(i + j, all.len() as int)) == spec_merge(Seq::empty(), all),
        decreases op.len() - j,
    {
        let ghost rest = all.subrange(i + j, all.len() as int);
        proof {
            assert(rest[0] == op@[j as int]);
            assert(rest.drop_first() =~= all.subrange(i + j + 1, all.len() as int));
        }
        merge_into(&mut merged, &op[j]);
        j = j + 1;
    }
    proof {
        assert(all.subrange(all.len() as int, all.len() as int) =~= Seq::<RefOr<ApiParameter>>::empty());
    }
    merged
}

/// The name of a parameter location, as OpenAPI writes it.
pub open spec fn location_label(l: ApiParameterLocation) -> Seq<char> {
    match l {
        ApiParameterLocation::Query => "query"@,
        ApiParameterLocation::Header => "header"@,
        ApiParameterLocation::Path => "path"@,
        ApiParameterLocation::Cookie => "cookie"@,
    }
}

fn location_text(l: &ApiParameterLocation) -> (r: String)
    ensures
        r@ == location_label(*l),
{
    match l {
        ApiParameterLocation::Query => String::from_str("query"),
        ApiParameterLocation::Header => String::from_str("header"),
        ApiParameterLocation::Path => String::from_str("path"),
        ApiParameterLocation::Cookie => String::from_str("cookie"),
    }
}

/// Why a parameter described by `content` is refused.
pub open spec fn reason_content_parameter() -> Seq<char> {
    "content 形式の parameter は未対応"@
}

fn reason_content_parameter_text() -> (r: String)
    ensures
        r@ == reason_content_parameter(),
{
    String::from_str("content 形式の parameter は未対応")
}

/// Resolving the parameters `ps` of operation `op` in order, after the inputs `acc`.
pub open spec fn spec_params(
    c: CategoryView,
    op: Seq<char>,
    ps: Seq<RefOr<ApiParameter>>,
    acc: Seq<(Seq<char>, Seq<char>, Seq<char>)>,
) -> (CategoryView, Result<Seq<(Seq<char>, Seq<char>, Seq<char>)>, FrontendErrorView>)
    decreases ps.len(),
{
    if ps.len() == 0 {
        (c, Ok(acc))
    } else {
        match ps[0] {
            RefOr::Reference(r) => (
                c,
                Err(FrontendErrorView::UnsupportedReference { context: op + " の parameter"@, reference: r@ }),
            ),
            RefOr::Item(p) => match p.format {
                ApiParameterFormat::Content => (
                    c,
                    Err(
                        FrontendErrorView::UnsupportedSchema {
                            schema: op + "."@ + p.name@,
                            reason: reason_content_parameter(),
                        },
                    ),
                ),
                ApiParameterFormat::Schema(s) => {
                    let step = spec_resolve_schema(c, op + " の parameter "@ + p.name@, s);
                    match step.1 {
                        Err(e) => (step.0, Err(e)),
                        Ok(id) => spec_params(
                            step.0,
                            op,
                            ps.drop_first(),
                            acc.push((p.name@, location_label(p.location), id)),
                        ),
                    }
                },
            },
        }
    }
}

/// Resolving the request body of operation `op`: its JSON schema, if it has one.
pub open spec fn spec_body(c: CategoryView, op: Seq<char>, rb: Option<RefOr<ApiRequestBody>>) -> (CategoryView, Result<Option<Seq<char>>, FrontendErrorView>) {
    match rb {
        None => (c, Ok(None)),
        Some(RefOr::Reference(r)) => (
            c,
            Err(FrontendErrorView::UnsupportedReference { context: op + " の requestBody"@, reference: r@ }),
        ),
        Some(RefOr::Item(b)) => spec_json_schema(c, op + " の requestBody"@, b.content@, None),
    }
}

/// The inputs of an operation: its parameters, then its body under the name `body`.
pub open spec fn with_body(
    es: Seq<(Seq<char>, Seq<char>, Seq<char>)>,
    body: Option<Seq<char>>,
) -> Seq<(Seq<char>, Seq<char>, Seq<char>)> {
    match body {
        Some(id) => es.push(("body"@, "body"@, id)),
        None => es,
    }
}

/// The domain of inputs `es` of operation `op`: `Unit` for none, the input's object
/// for one, and for more the product `<op>Params` of all of them, which must be a
/// new name.
pub open spec fn spec_inputs_object(c: CategoryView, op: Seq<char>, es: Seq<(Seq<char>, Seq<char>, Seq<char>)>) -> (CategoryView, Result<Seq<char>, FrontendErrorView>) {
    if es.len() == 0 {
        (spec_intern_scalar(c, "Unit"@), Ok("Unit"@))
    } else if es.len() == 1 {
        (c, Ok(es[0].2))
    } else {
        let name = op + "Params"@;
        if c.has_object(name) {
            (c, Err(FrontendErrorView::GeneratedNameCollision { operation_id: op, name }))
        } else {
            let added = spec_add_object(c, ObjectView { id: name, kind: ObjectShape::Product(input_fields(es)) });
            match added.1 {
                Err(e) => (added.0, Err(FrontendErrorView::Category(e))),
                Ok(_) => (added.0, Ok(name)),
            }
        }
    }
}

/// The domain of operation `op`, from the parameters of its path item, its own
/// parameters and its request body.
pub open spec fn spec_domain(
    c: CategoryView,
    op: Seq<char>,
    path_params: Seq<RefOr<ApiParameter>>,
    op_params: Seq<RefOr<ApiParameter>>,
    rb: Option<RefOr<ApiRequestBody>>,
) -> (CategoryView, Result<Seq<char>, FrontendErrorView>) {
    let ps = spec_params(c, op, spec_merge(Seq::empty(), path_params + op_params), Seq::empty());
    match ps.1 {
        Err(e) => (ps.0, Err(e)),
        Ok(es) => {
            let b = spec_body(ps.0, op, rb);
            match b.1 {
                Err(e) => (b.0, Err(e)),
                Ok(body) => spec_inputs_object(b.0, op, with_body(es, body)),
            }
        },
    }
}

/// The outcome of resolving inputs, as views.
pub open spec fn inputs_step(r: Result<Vec<Input>, FrontendError>) -> Result<Seq<(Seq<char>, Seq<char>, Seq<char>)>, FrontendErrorView> {
    match r {
        Ok(v) => Ok(inputs_view(v@)),
        Err(e) => Err(e@),
    }
}

fn resolve_params(c: &mut Category, op: &String, ps: &Vec<&RefOr<ApiParameter>>) -> (r: Result<Vec<Input>, FrontendError>)
    ensures
        final(c)@.wf(),
        final(c)@ == spec_params(old(c)@, op@, derefs(ps@), Seq::empty()).0,
        inputs_step(r) == spec_params(old(c)@, op@, derefs(ps@), Seq::empty()).1,
{
    proof {
        use_type_invariant(&*c);
    }
    let ghost c0 = c@;
    let ghost all = derefs(ps@);
    let mut out: Vec<Input> = Vec::new();
    let mut i: usize = 0;
    proof {
        assert(all.subrange(0, all.len() as int) =~= all);
        assert(inputs_view(out@) =~= Seq::<(Seq<char>, Seq<char>, Seq<char>)>::empty());
    }
    while i < ps.len()
        invariant
            c0 == old(c)@,
            c@.wf(),
            i <= ps.len(),
            all == derefs(ps@),
            spec_params(c@, op@, all.subrange(i as int, all.len() as int), inputs_view(out@))
                == spec_params(c0, op@, all, Seq::empty()),
        decreases ps.len() - i,
    {
        let ghost rest = all.subrange(i as int, all.len() as int);
        proof {
            assert(rest[0] == *ps@[i as int]);
            assert(rest.drop_first() =~= all.subrange(i + 1, all.len() as int));
        }
        match ps[i] {
            RefOr::Reference(reference) => {
                return Err(
                    FrontendError::UnsupportedReference {
                        context: concat2(op.as_str(), " の parameter"),
                        reference: reference.clone(),
                    },
                );
            },
            RefOr::Item(p) => match &p.format {
                ApiParameterFormat::Content => {
                    return Err(
                        FrontendError::UnsupportedSchema {
                            schema: concat3(op.as_str(), ".", p.name.as_str()),
                            reason: reason_content_parameter_text(),
                        },
                    );
                },
                ApiParameterFormat::Schema(s) => {
                    let context = concat3(op.as_str(), " の parameter ", p.name.as_str());
                    let id = match resolve_schema(c, &context, s) {
                        Err(e) => {
                            return Err(e);
                        },
                        Ok(id) => id,
                    };
                    let ghost before = inputs_view(out@);
                    out.push((p.name.clone(), location_text(&p.location), id));
                    proof {
                        assert(inputs_view(out@) =~= before.push((p.name@, location_label(p.location), id@)));
                    }
                },
            },
        }
        i = i + 1;
    }
    Ok(out)
}

fn resolve_body(c: &mut Category, op: &String, rb: &Option<RefOr<ApiRequestBody>>) -> (r: Result<Option<ObjectId>, FrontendError>)
    ensures
        final(c)@.wf(),
        final(c)@ == spec_body(old(c)@, op@, *rb).0,
        opt_id_step(r) == spec_body(old(c)@, op@, *rb).1,
{
    proof {
        use_type_invariant(&*c);
    }
    match rb {
        None => Ok(None),
        Some(RefOr::Reference(reference)) => Err(
            FrontendError::UnsupportedReference {
                context: concat2(op.as_str(), " の requestBody"),
                reference: reference.clone(),
            },
        ),
        Some(RefOr::Item(b)) => {
            let context = concat2(op.as_str(), " の requestBody");
            json_schema(c, &context, &b.content)
        },
    }
}

fn inputs_object(c: &mut Category, op: &String, es: &Vec<Input>) -> (r: Result<ObjectId, FrontendError>)
    ensures
        final(c)@.wf(),
        (final(c)@, id_step(r)) == spec_inputs_object(old(c)@, op@, inputs_view(es@)),
{
    proof {
        use_type_invariant(&*c);
    }
    let ghost v = inputs_view(es@);
    if es.len() == 0 {
        return Ok(intern_scalar(c, "Unit"));
    }
    if es.len() == 1 {
        return Ok(es[0].2.clone());
    }
    let name = concat2(op.as_str(), "Params");
    if c.object(&ObjectId(name.clone())).is_some() {
        return Err(FrontendError::GeneratedNameCollision { operation_id: op.clone(), name });
    }
    let names = input_field_names(es);
    proof {
        law_field_names_distinct(v);
    }
    let mut fields: Vec<(String, ObjectId)> = Vec::new();
    let mut k: usize = 0;
    while k < es.len()
        invariant
            k <= es.len(),
            v == inputs_view(es@),
            names@.map_values(|s: String| s@) == crate::openapi::fields::field_names(v),
            names@.len() == es@.len(),
            fields@.len() == k,
            forall|t: int| 0 <= t < k ==> (#[trigger] members_view(fields@)[t]) == input_fields(v)[t],
        decreases es.len() - k,
    {
        let ghost before = fields@;
        fields.push((names[k].clone(), es[k].2.clone()));
        proof {
            assert(names@.map_values(|s: String| s@)[k as int] == names@[k as int]@);
            assert forall|t: int| 0 <= t < k + 1 implies (#[trigger] members_view(fields@)[t]) == input_fields(v)[t] by {
                if t < k {
                    assert(members_view(fields@)[t] == members_view(before)[t]);
                }
            }
        }
        k = k + 1;
    }
    proof {
        assert(members_view(fields@) =~= input_fields(v));
    }
    let object = Object::product(name.clone(), fields);
    match c.add_object(object) {
        Err(e) => Err(FrontendError::Category(e)),
        Ok(_) => Ok(ObjectId(name)),
    }
}

/// The domain of operation `op` (see [`spec_domain`]).
pub fn resolve_domain(
    c: &mut Category,
    op: &String,
    path_params: &Vec<RefOr<ApiParameter>>,
    op_params: &Vec<RefOr<ApiParameter>>,
    rb: &Option<RefOr<ApiRequestBody>>,
) -> (r: Result<ObjectId, FrontendError>)
    ensures
        final(c)@.wf(),
        (final(c)@, id_step(r)) == spec_domain(old(c)@, op@, path_params@, op_params@, *rb),
{
    proof {
        use_type_invariant(&*c);
    }
    let merged = merge_parameters(path_params, op_params);
    let mut es = match resolve_params(c, op, &merged) {
        Err(e) => {
            return Err(e);
        },
        Ok(es) => es,
    };
    let body = match resolve_body(c, op, rb) {
        Err(e) => {
            return Err(e);
        },
        Ok(b) => b,
    };
    let ghost before = inputs_view(es@);
    match body {
        Some(id) => {
            es.push((String::from_str("body"), String::from_str("body"), id));
            proof {
                assert(inputs_view(es@) =~= before.push(("body"@, "body"@, id@)));
            }
        },
        None => {},
    }
    inputs_object(c, op, &es)
}

/// How parameters are told apart, stated directly: a parameter's key is its location and
/// its name, the name compared up to ASCII case for a header and exactly otherwise; a
/// `$ref` is keyed by its reference and never shares a key with an inline parameter.
pub proof fn law_parameter_keys(p: ApiParameter, q: ApiParameter, r: String)
    ensures
        param_key(RefOr::Item(p)) == param_key(RefOr::Item(q)) <==> (location_tag(p.location) == location_tag(
            q.location,
        ) && if p.location is Header {
            lower(p.name@) == lower(q.name@)
        } else {
            p.name@ == q.name@
        }),
        param_key(RefOr::Reference(r)) != param_key(RefOr::Item(p)),
{
    if location_tag(p.location) == location_tag(q.location) {
        assert(p.location is Header <==> q.location is Header);
    }
}

} // verus!
