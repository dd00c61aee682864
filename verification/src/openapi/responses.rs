//! The codomain and the error type of an operation, from its responses.
//!
//! The success candidates are the responses with a 2xx code or the `2XX` range, or,
//! where there is none, `default`. The error candidates are the other responses, with
//! `default` where it is not a success candidate. A response without a JSON body
//! stands for `Unit`. Candidates that stand for different objects are refused.

use vstd::prelude::*;

use crate::category::{Category, CategoryView};
use crate::object::ObjectId;
use crate::openapi::content::{json_schema, spec_json_schema};
use crate::openapi::error::{id_step, FrontendError, FrontendErrorView};
use crate::openapi::model::{ApiResponse, ApiResponses, ApiStatusCode, RefOr};
use crate::openapi::schema::{intern_scalar, spec_intern_scalar};
use crate::openapi::text::{concat2, concat3, decimal, decimal_text};

verus! {

/// Whether a status is a success: a code from 200 to 299, or the range `2XX`.
pub open spec fn is_success(s: ApiStatusCode) -> bool {
    match s {
        ApiStatusCode::Code(n) => 200 <= n <= 299,
        ApiStatusCode::Range(n) => n == 2,
    }
}

fn success_status(s: &ApiStatusCode) -> (r: bool)
    ensures
        r == is_success(*s),
{
    match s {
        ApiStatusCode::Code(n) => 200 <= *n && *n <= 299,
        ApiStatusCode::Range(n) => *n == 2,
    }
}

/// The label of a status: its code, or its range as `<n>XX`.
pub open spec fn status_label(s: ApiStatusCode) -> Seq<char> {
    match s {
        ApiStatusCode::Code(n) => decimal(n as nat),
        ApiStatusCode::Range(n) => decimal(n as nat) + "XX"@,
    }
}

fn status_text(s: &ApiStatusCode) -> (r: String)
    ensures
        r@ == status_label(*s),
{
    match s {
        ApiStatusCode::Code(n) => decimal_text(*n),
        ApiStatusCode::Range(n) => {
            let d = decimal_text(*n);
            concat2(d.as_str(), "XX")
        },
    }
}

/// The responses of `rs` whose status is a success (or is not, by `success`), with
/// their labels, in declaration order.
pub open spec fn explicit_candidates(rs: Seq<(ApiStatusCode, RefOr<ApiResponse>)>, success: bool) -> Seq<(Seq<char>, RefOr<ApiResponse>)>
    decreases rs.len(),
{
    if rs.len() == 0 {
        Seq::empty()
    } else {
        let rest = explicit_candidates(rs.drop_last(), success);
        if is_success(rs.last().0) == success {
            rest.push((status_label(rs.last().0), rs.last().1))
        } else {
            rest
        }
    }
}

/// The success candidates: the success responses, or else `default`.
pub open spec fn success_candidates(resps: ApiResponses) -> Seq<(Seq<char>, RefOr<ApiResponse>)> {
    let ex = explicit_candidates(resps.responses@, true);
    if ex.len() > 0 {
        ex
    } else {
        match resps.default {
            Some(d) => seq![("default"@, d)],
            None => Seq::empty(),
        }
    }
}

/// The error candidates: the other responses, and `default` where some success
/// response exists.
pub open spec fn error_candidates(resps: ApiResponses) -> Seq<(Seq<char>, RefOr<ApiResponse>)> {
    let ex = explicit_candidates(resps.responses@, false);
    if explicit_candidates(resps.responses@, true).len() > 0 && resps.default is Some {
        ex.push(("default"@, resps.default->Some_0))
    } else {
        ex
    }
}

/// The object response `r` of operation `op`, labelled `label`, stands for: its JSON
/// schema, or `Unit` where it has none.
pub open spec fn spec_response_object(c: CategoryView, op: Seq<char>, label: Seq<char>, r: RefOr<ApiResponse>) -> (CategoryView, Result<Seq<char>, FrontendErrorView>) {
    match r {
        RefOr::Reference(x) => (
            c,
            Err(FrontendErrorView::UnsupportedReference { context: op + " の response "@ + label, reference: x@ }),
        ),
        RefOr::Item(resp) => {
            let m = spec_json_schema(c, op + " の "@ + label + " レスポンス"@, resp.content@, None);
            match m.1 {
                Err(e) => (m.0, Err(e)),
                Ok(None) => (spec_intern_scalar(m.0, "Unit"@), Ok("Unit"@)),
                Ok(Some(id)) => (m.0, Ok(id)),
            }
        },
    }
}

/// The objects of the candidates `cands`, in order, after `acc`.
pub open spec fn spec_candidate_objects(
    c: CategoryView,
    op: Seq<char>,
    cands: Seq<(Seq<char>, RefOr<ApiResponse>)>,
    acc: Seq<Seq<char>>,
) -> (CategoryView, Result<Seq<Seq<char>>, FrontendErrorView>)
    decreases cands.len(),
{
    if cands.len() == 0 {
        (c, Ok(acc))
    } else {
        let step = spec_response_object(c, op, cands[0].0, cands[0].1);
        match step.1 {
            Err(e) => (step.0, Err(e)),
            Ok(id) => spec_candidate_objects(step.0, op, cands.drop_first(), acc.push(id)),
        }
    }
}

/// Whether all identifiers are the first.
pub open spec fn all_same(ids: Seq<Seq<char>>) -> bool {
    forall|k: int| 0 <= k < ids.len() ==> #[trigger] ids[k] == ids[0]
}

/// The labels of candidates.
pub open spec fn candidate_labels(cands: Seq<(Seq<char>, RefOr<ApiResponse>)>) -> Seq<Seq<char>> {
    cands.map_values(|x: (Seq<char>, RefOr<ApiResponse>)| x.0)
}

/// The codomain of operation `op`: the one object its success candidates stand for.
pub open spec fn spec_success(c: CategoryView, op: Seq<char>, resps: ApiResponses) -> (CategoryView, Result<Seq<char>, FrontendErrorView>) {
    let cands = success_candidates(resps);
    if cands.len() == 0 {
        (c, Err(FrontendErrorView::MissingSuccessResponse { operation_id: op }))
    } else {
        let r = spec_candidate_objects(c, op, cands, Seq::empty());
        match r.1 {
            Err(e) => (r.0, Err(e)),
            Ok(ids) => if all_same(ids) {
                (r.0, Ok(ids[0]))
            } else {
                (
                    r.0,
                    Err(
                        FrontendErrorView::MultipleSuccessResponsesUnsupported {
                            operation_id: op,
                            labels: candidate_labels(cands),
                        },
                    ),
                )
            },
        }
    }
}

/// The error type of operation `op`: the one object its error candidates stand for,
/// or none where there is no error candidate.
pub open spec fn spec_error(c: CategoryView, op: Seq<char>, resps: ApiResponses) -> (CategoryView, Result<Option<Seq<char>>, FrontendErrorView>) {
    let cands = error_candidates(resps);
    if cands.len() == 0 {
        (c, Ok(None))
    } else {
        let r = spec_candidate_objects(c, op, cands, Seq::empty());
        match r.1 {
            Err(e) => (r.0, Err(e)),
            Ok(ids) => if all_same(ids) {
                (r.0, Ok(Some(ids[0])))
            } else {
                (
                    r.0,
                    Err(
                        FrontendErrorView::MultipleErrorResponsesUnsupported {
                            operation_id: op,
                            labels: candidate_labels(cands),
                        },
                    ),
                )
            },
        }
    }
}

/// The view of candidates.
pub open spec fn cands_view(v: Seq<(String, &RefOr<ApiResponse>)>) -> Seq<(Seq<char>, RefOr<ApiResponse>)> {
    v.map_values(|x: (String, &RefOr<ApiResponse>)| (x.0@, *x.1))
}

fn explicit<'a>(rs: &'a Vec<(ApiStatusCode, RefOr<ApiResponse>)>, success: bool) -> (r: Vec<(String, &'a RefOr<ApiResponse>)>)
    ensures
        cands_view(r@) == explicit_candidates(rs@, success),
{
    let mut out: Vec<(String, &'a RefOr<ApiResponse>)> = Vec::new();
    let mut i: usize = 0;
    proof {
        assert(cands_view(out@) =~= explicit_candidates(rs@.subrange(0, 0), success));
    }
    while i < rs.len()
        invariant
            i <= rs.len(),
            cands_view(out@) == explicit_candidates(rs@.subrange(0, i as int), success),
        decreases rs.len() - i,
    {
        proof {
            assert(rs@.subrange(0, i + 1).drop_last() =~= rs@.subrange(0, i as int));
        }
        if success_status(&rs[i].0) == success {
            let ghost before = cands_view(out@);
            out.push((status_text(&rs[i].0), &rs[i].1));
            proof {
                assert(cands_view(out@) =~= before.push((status_label(rs@[i as int].0), rs@[i as int].1)));
            }
        }
        i = i + 1;
    }
    proof {
        assert(rs@.subrange(0, rs@.len() as int) =~= rs@);
    }
    out
}

fn success_cands<'a>(resps: &'a ApiResponses) -> (r: Vec<(String, &'a RefOr<ApiResponse>)>)
    ensures
        cands_view(r@) == success_candidates(*resps),
{
    let ex = explicit(&resps.responses, true);
    if ex.len() > 0 {
        return ex;
    }
    let mut out: Vec<(String, &'a RefOr<ApiResponse>)> = Vec::new();
    match &resps.default {
        Some(d) => {
            out.push((String::from_str("default"), d));
            proof {
                assert(cands_view(out@) =~= seq![("default"@, *d)]);
            }
        },
        None => {
            proof {
                assert(cands_view(out@) =~= Seq::<(Seq<char>, RefOr<ApiResponse>)>::empty());
            }
        },
    }
    out
}

fn error_cands<'a>(resps: &'a ApiResponses) -> (r: Vec<(String, &'a RefOr<ApiResponse>)>)
    ensures
        cands_view(r@) == error_candidates(*resps),
{
    let mut ex = explicit(&resps.responses, false);
    let succ = explicit(&resps.responses, true);
    if succ.len() > 0 {
        match &resps.default {
            Some(d) => {
                let ghost before = cands_view(ex@);
                ex.push((String::from_str("default"), d));
                proof {
                    assert(cands_view(ex@) =~= before.push(("default"@, *d)));
                }
            },
            None => {},
        }
    }
    ex
}

fn response_object(c: &mut Category, op: &String, label: &String, r: &RefOr<ApiResponse>) -> (res: Result<ObjectId, FrontendError>)
    ensures
        final(c)@.wf(),
        (final(c)@, id_step(res)) == spec_response_object(old(c)@, op@, label@, *r),
{
    proof {
        use_type_invariant(&*c);
    }
    match r {
        RefOr::Reference(x) => Err(
            FrontendError::UnsupportedReference {
                context: concat3(op.as_str(), " の response ", label.as_str()),
                reference: x.clone(),
            },
        ),
        RefOr::Item(resp) => {
            let head = concat3(op.as_str(), " の ", label.as_str());
            let context = concat2(head.as_str(), " レスポンス");
            match json_schema(c, &context, &resp.content) {
                Err(e) => Err(e),
                Ok(None) => Ok(intern_scalar(c, "Unit")),
                Ok(Some(id)) => Ok(id),
            }
        },
    }
}

/// The view of object identifiers.
pub open spec fn ids_view(v: Seq<ObjectId>) -> Seq<Seq<char>> {
    v.map_values(|x: ObjectId| x@)
}

fn candidate_objects(c: &mut Category, op: &String, cands: &Vec<(String, &RefOr<ApiResponse>)>) -> (r: Result<Vec<ObjectId>, FrontendError>)
    ensures
        final(c)@.wf(),
        final(c)@ == spec_candidate_objects(old(c)@, op@, cands_view(cands@), Seq::empty()).0,
        match r {
            Ok(ids) => spec_candidate_objects(old(c)@, op@, cands_view(cands@), Seq::empty()).1
                == Ok::<Seq<Seq<char>>, FrontendErrorView>(ids_view(ids@)),
            Err(e) => spec_candidate_objects(old(c)@, op@, cands_view(cands@), Seq::empty()).1
                == Err::<Seq<Seq<char>>, FrontendErrorView>(e@),
        },
{
    proof {
        use_type_invariant(&*c);
    }
    let ghost c0 = c@;
    let ghost all = cands_view(cands@);
    let mut out: Vec<ObjectId> = Vec::new();
    let mut i: usize = 0;
    proof {
        assert(all.subrange(0, all.len() as int) =~= all);
        assert(ids_view(out@) =~= Seq::<Seq<char>>::empty());
    }
    while i < cands.len()
        invariant
            c0 == old(c)@,
            c@.wf(),
            i <= cands.len(),
            all == cands_view(cands@),
            spec_candidate_objects(c@, op@, all.subrange(i as int, all.len() as int), ids_view(out@))
                == spec_candidate_objects(c0, op@, all, Seq::empty()),
        decreases cands.len() - i,
    {
        let ghost rest = all.subrange(i as int, all.len() as int);
        proof {
            assert(rest[0] == all[i as int]);
            assert(rest.drop_first() =~= all.subrange(i + 1, all.len() as int));
        }
        let id = match response_object(c, op, &cands[i].0, cands[i].1) {
            Err(e) => {
                return Err(e);
            },
            Ok(id) => id,
        };
        let ghost before = ids_view(out@);
        out.push(id);
        proof {
            assert(ids_view(out@) =~= before.push(id@));
        }
        i = i + 1;
    }
    Ok(out)
}

fn same_ids(ids: &Vec<ObjectId>) -> (r: bool)
    requires
        ids@.len() > 0,
    ensures
        r == all_same(ids_view(ids@)),
{
    let ghost v = ids_view(ids@);
    let mut k: usize = 0;
    while k < ids.len()
        invariant
            k <= ids.len(),
            ids@.len() > 0,
            v == ids_view(ids@),
            forall|t: int| 0 <= t < k ==> #[trigger] v[t] == v[0],
        decreases ids.len() - k,
    {
        if !ids[k].same(&ids[0]) {
            proof {
                assert(v[k as int] != v[0]);
            }
            return false;
        }
        k = k + 1;
    }
    true
}

fn labels_of(cands: &Vec<(String, &RefOr<ApiResponse>)>) -> (r: Vec<String>)
    ensures
        r@.map_values(|s: String| s@) == candidate_labels(cands_view(cands@)),
{
    let mut out: Vec<String> = Vec::new();
    let mut i: usize = 0;
    while i < cands.len()
        invariant
            i <= cands.len(),
            out@.len() == i,
            forall|t: int| 0 <= t < i ==> (#[trigger] out@[t])@ == cands@[t].0@,
        decreases cands.len() - i,
    {
        out.push(cands[i].0.clone());
        i = i + 1;
    }
    proof {
        assert(out@.map_values(|s: String| s@) =~= candidate_labels(cands_view(cands@)));
    }
    out
}

/// The codomain of operation `op` (see [`spec_success`]).
pub fn resolve_success_response(c: &mut Category, op: &String, resps: &ApiResponses) -> (r: Result<ObjectId, FrontendError>)
    ensures
        final(c)@.wf(),
        (final(c)@, id_step(r)) == spec_success(old(c)@, op@, *resps),
{
    proof {
        use_type_invariant(&*c);
    }
    let cands = success_cands(resps);
    if cands.len() == 0 {
        return Err(FrontendError::MissingSuccessResponse { operation_id: op.clone() });
    }
    let ids = match candidate_objects(c, op, &cands) {
        Err(e) => {
            return Err(e);
        },
        Ok(ids) => ids,
    };
    proof {
        assert(ids_view(ids@).len() == cands@.len()) by {
            lemma_candidate_objects_len(old(c)@, op@, cands_view(cands@), Seq::empty());
        }
    }
    if same_ids(&ids) {
        Ok(ids[0].clone())
    } else {
        Err(FrontendError::MultipleSuccessResponsesUnsupported { operation_id: op.clone(), labels: labels_of(&cands) })
    }
}

/// The error type of operation `op` (see [`spec_error`]).
pub fn resolve_error_response(c: &mut Category, op: &String, resps: &ApiResponses) -> (r: Result<Option<ObjectId>, FrontendError>)
    ensures
        final(c)@.wf(),
        final(c)@ == spec_error(old(c)@, op@, *resps).0,
        crate::openapi::content::opt_id_step(r) == spec_error(old(c)@, op@, *resps).1,
{
    proof {
        use_type_invariant(&*c);
    }
    let cands = error_cands(resps);
    if cands.len() == 0 {
        return Ok(None);
    }
    let ids = match candidate_objects(c, op, &cands) {
        Err(e) => {
            return Err(e);
        },
        Ok(ids) => ids,
    };
    proof {
        assert(ids_view(ids@).len() == cands@.len()) by {
            lemma_candidate_objects_len(old(c)@, op@, cands_view(cands@), Seq::empty());
        }
    }
    if same_ids(&ids) {
        Ok(Some(ids[0].clone()))
    } else {
        Err(FrontendError::MultipleErrorResponsesUnsupported { operation_id: op.clone(), labels: labels_of(&cands) })
    }
}

/// Each candidate gives one object.
proof fn lemma_candidate_objects_len(
    c: CategoryView,
    op: Seq<char>,
    cands: Seq<(Seq<char>, RefOr<ApiResponse>)>,
    acc: Seq<Seq<char>>,
)
    ensures
        spec_candidate_objects(c, op, cands, acc).1 matches Ok(ids) ==> ids.len() == acc.len() + cands.len(),
    decreases cands.len(),
{
    if cands.len() > 0 {
        let step = spec_response_object(c, op, cands[0].0, cands[0].1);
        if let Ok(id) = step.1 {
            lemma_candidate_objects_len(step.0, op, cands.drop_first(), acc.push(id));
        }
    }
}

/// Whether a response's status is a success (or is not, by `success`).
pub open spec fn status_is(success: bool) -> spec_fn((ApiStatusCode, RefOr<ApiResponse>)) -> bool {
    |e: (ApiStatusCode, RefOr<ApiResponse>)| is_success(e.0) == success
}

/// A response with its label.
pub open spec fn labelled(e: (ApiStatusCode, RefOr<ApiResponse>)) -> (Seq<char>, RefOr<ApiResponse>) {
    (status_label(e.0), e.1)
}

proof fn lemma_explicit_is_filter(rs: Seq<(ApiStatusCode, RefOr<ApiResponse>)>, success: bool)
    ensures
        explicit_candidates(rs, success) == rs.filter(status_is(success)).map_values(|e: (ApiStatusCode, RefOr<ApiResponse>)| labelled(e)),
    decreases rs.len(),
{
    reveal(Seq::filter);
    if rs.len() > 0 {
        lemma_explicit_is_filter(rs.drop_last(), success);
        let f = rs.drop_last().filter(status_is(success));
        if is_success(rs.last().0) == success {
            assert(rs.filter(status_is(success)) == f.push(rs.last()));
            assert(f.push(rs.last()).map_values(|e: (ApiStatusCode, RefOr<ApiResponse>)| labelled(e)) =~= f.map_values(
                |e: (ApiStatusCode, RefOr<ApiResponse>)| labelled(e),
            ).push(labelled(rs.last())));
        } else {
            assert(rs.filter(status_is(success)) == f);
        }
    }
}

/// Which responses are candidates. The success candidates are the responses whose status
/// is a code from 200 to 299 or the range `2XX`, in declaration order and labelled by
/// their status; where there is none, `default` alone, labelled `default`. The error
/// candidates are all other responses, in declaration order, followed by `default`
/// where some success response exists.
pub proof fn law_response_candidates(resps: ApiResponses)
    ensures
        ({
            let rs = resps.responses@;
            let succ = rs.filter(status_is(true)).map_values(|e: (ApiStatusCode, RefOr<ApiResponse>)| labelled(e));
            let fail = rs.filter(status_is(false)).map_values(|e: (ApiStatusCode, RefOr<ApiResponse>)| labelled(e));
            &&& success_candidates(resps) == if succ.len() > 0 {
                succ
            } else {
                match resps.default {
                    Some(d) => seq![("default"@, d)],
                    None => Seq::empty(),
                }
            }
            &&& error_candidates(resps) == if succ.len() > 0 && resps.default is Some {
                fail.push(("default"@, resps.default->Some_0))
            } else {
                fail
            }
        }),
{
    lemma_explicit_is_filter(resps.responses@, true);
    lemma_explicit_is_filter(resps.responses@, false);
}

/// Whether no media type of `content` is JSON with a schema: a body without a JSON schema.
pub open spec fn no_json_schema(content: Seq<(String, crate::openapi::model::ApiMediaType)>) -> bool {
    forall|k: int|
        0 <= k < content.len() ==> !(crate::openapi::text::is_json_media((#[trigger] content[k]).0@)
            && content[k].1.schema is Some)
}

proof fn lemma_no_json_schema(
    c: CategoryView,
    context: Seq<char>,
    content: Seq<(String, crate::openapi::model::ApiMediaType)>,
    found: Option<Seq<char>>,
)
    requires
        no_json_schema(content),
    ensures
        spec_json_schema(c, context, content, found) == (c, Ok::<Option<Seq<char>>, FrontendErrorView>(found)),
    decreases content.len(),
{
    if content.len() > 0 {
        assert(!(crate::openapi::text::is_json_media(content[0].0@) && content[0].1.schema is Some));
        assert forall|k: int| 0 <= k < content.drop_first().len() implies !(crate::openapi::text::is_json_media(
            (#[trigger] content.drop_first()[k]).0@,
        ) && content.drop_first()[k].1.schema is Some) by {
            assert(content.drop_first()[k] == content[k + 1]);
        }
        lemma_no_json_schema(c, context, content.drop_first(), found);
    }
}

/// A response without a JSON schema stands for `Unit`.
pub proof fn law_bodiless_response_is_unit(c: CategoryView, op: Seq<char>, label: Seq<char>, resp: ApiResponse)
    requires
        no_json_schema(resp.content@),
    ensures
        spec_response_object(c, op, label, RefOr::Item(resp)) == (
            spec_intern_scalar(c, "Unit"@),
            Ok::<Seq<char>, FrontendErrorView>("Unit"@),
        ),
{
    lemma_no_json_schema(c, op + " の "@ + label + " レスポンス"@, resp.content@, None);
}

/// How the codomain is chosen from the success candidates: none is an error; otherwise
/// each candidate stands for an object (a `$ref` to a response is refused, a response
/// without a JSON schema stands for `Unit`), and the codomain is that object when all
/// agree, while candidates that stand for different objects are refused, naming every
/// candidate. The error type is chosen from the error candidates in the same way, none
/// meaning no error type.
pub proof fn law_response_selection(c: CategoryView, op: Seq<char>, resps: ApiResponses)
    ensures
        success_candidates(resps).len() == 0 ==> spec_success(c, op, resps) == (
            c,
            Err::<Seq<char>, FrontendErrorView>(FrontendErrorView::MissingSuccessResponse { operation_id: op }),
        ),
        spec_success(c, op, resps).1 matches Ok(id) ==> (spec_candidate_objects(
            c,
            op,
            success_candidates(resps),
            Seq::empty(),
        ).1 matches Ok(ids) && ids.len() == success_candidates(resps).len() && forall|k: int|
            0 <= k < ids.len() ==> #[trigger] ids[k] == id),
        spec_candidate_objects(c, op, success_candidates(resps), Seq::empty()).1 matches Ok(ids) ==> (!all_same(ids)
            ==> spec_success(c, op, resps).1 == Err::<Seq<char>, FrontendErrorView>(
            FrontendErrorView::MultipleSuccessResponsesUnsupported {
                operation_id: op,
                labels: candidate_labels(success_candidates(resps)),
            },
        )),
        error_candidates(resps).len() == 0 ==> spec_error(c, op, resps) == (
            c,
            Ok::<Option<Seq<char>>, FrontendErrorView>(None),
        ),
        spec_error(c, op, resps).1 matches Ok(Some(id)) ==> (spec_candidate_objects(
            c,
            op,
            error_candidates(resps),
            Seq::empty(),
        ).1 matches Ok(ids) && ids.len() == error_candidates(resps).len() && forall|k: int|
            0 <= k < ids.len() ==> #[trigger] ids[k] == id),
        spec_candidate_objects(c, op, error_candidates(resps), Seq::empty()).1 matches Ok(ids) ==> (!all_same(ids)
            ==> spec_error(c, op, resps).1 == Err::<Option<Seq<char>>, FrontendErrorView>(
            FrontendErrorView::MultipleErrorResponsesUnsupported {
                operation_id: op,
                labels: candidate_labels(error_candidates(resps)),
            },
        )),
        forall|label: Seq<char>, x: String| #[trigger] spec_response_object(c, op, label, RefOr::Reference(x)).1
            == Err::<Seq<char>, FrontendErrorView>(
            FrontendErrorView::UnsupportedReference { context: op + " の response "@ + label, reference: x@ },
        ),
{
    lemma_candidate_objects_len(c, op, success_candidates(resps), Seq::empty());
    lemma_candidate_objects_len(c, op, error_candidates(resps), Seq::empty());
}

/// The codomain, stated directly: it is `t` exactly when there are success candidates,
/// each of them stands for an object, and every one of those objects is `t`.
pub proof fn law_success_exact(c: CategoryView, op: Seq<char>, resps: ApiResponses, t: Seq<char>)
    ensures
        spec_success(c, op, resps).1 == Ok::<Seq<char>, FrontendErrorView>(t) <==> (success_candidates(resps).len() > 0
            && (spec_candidate_objects(c, op, success_candidates(resps), Seq::empty()).1 matches Ok(ids) && forall|k: int|
            0 <= k < ids.len() ==> #[trigger] ids[k] == t)),
{
    lemma_candidate_objects_len(c, op, success_candidates(resps), Seq::empty());
    if success_candidates(resps).len() > 0 {
        if let Ok(ids) = spec_candidate_objects(c, op, success_candidates(resps), Seq::empty()).1 {
            if forall|k: int| 0 <= k < ids.len() ==> #[trigger] ids[k] == t {
                assert(ids[0] == t);
            }
            if spec_success(c, op, resps).1 == Ok::<Seq<char>, FrontendErrorView>(t) {
                assert(all_same(ids));
                assert forall|k: int| 0 <= k < ids.len() implies #[trigger] ids[k] == t by {
                    assert(ids[k] == ids[0]);
                }
            }
        }
    }
}

/// The error type, stated directly: there is none exactly when there are no error
/// candidates, and it is `t` exactly when there are some, each of them stands for an
/// object, and every one of those objects is `t`.
pub proof fn law_error_exact(c: CategoryView, op: Seq<char>, resps: ApiResponses, t: Seq<char>)
    ensures
        spec_error(c, op, resps).1 == Ok::<Option<Seq<char>>, FrontendErrorView>(None) <==> error_candidates(resps).len()
            == 0,
        spec_error(c, op, resps).1 == Ok::<Option<Seq<char>>, FrontendErrorView>(Some(t)) <==> (error_candidates(
            resps,
        ).len() > 0 && (spec_candidate_objects(c, op, error_candidates(resps), Seq::empty()).1 matches Ok(ids)
            && forall|k: int| 0 <= k < ids.len() ==> #[trigger] ids[k] == t)),
{
    lemma_candidate_objects_len(c, op, error_candidates(resps), Seq::empty());
    if error_candidates(resps).len() > 0 {
        if let Ok(ids) = spec_candidate_objects(c, op, error_candidates(resps), Seq::empty()).1 {
            if forall|k: int| 0 <= k < ids.len() ==> #[trigger] ids[k] == t {
                assert(ids[0] == t);
            }
            if spec_error(c, op, resps).1 == Ok::<Option<Seq<char>>, FrontendErrorView>(Some(t)) {
                assert(all_same(ids));
                assert forall|k: int| 0 <= k < ids.len() implies #[trigger] ids[k] == t by {
                    assert(ids[k] == ids[0]);
                }
            }
        }
    }
}

/// Which statuses are successes, stated directly: a response is a success candidate
/// exactly when its status is a code from 200 to 299 or the range `2XX`; every other
/// response, a `4XX` or `5XX` range among them, is an error candidate. Both keep
/// declaration order and label each response by its status.
pub proof fn law_success_statuses(resps: ApiResponses)
    ensures
        ({
            let rs = resps.responses@;
            let succ = rs.filter(
                |e: (ApiStatusCode, RefOr<ApiResponse>)|
                    match e.0 {
                        ApiStatusCode::Code(code) => 200 <= code <= 299,
                        ApiStatusCode::Range(class) => class == 2,
                    },
            ).map_values(|e: (ApiStatusCode, RefOr<ApiResponse>)| labelled(e));
            let fail = rs.filter(
                |e: (ApiStatusCode, RefOr<ApiResponse>)|
                    match e.0 {
                        ApiStatusCode::Code(code) => !(200 <= code <= 299),
                        ApiStatusCode::Range(class) => class != 2,
                    },
            ).map_values(|e: (ApiStatusCode, RefOr<ApiResponse>)| labelled(e));
            &&& success_candidates(resps) == if succ.len() > 0 {
                succ
            } else {
                match resps.default {
                    Some(d) => seq![("default"@, d)],
                    None => Seq::empty(),
                }
            }
            &&& error_candidates(resps) == if succ.len() > 0 && resps.default is Some {
                fail.push(("default"@, resps.default->Some_0))
            } else {
                fail
            }
        }),
{
    let two = |e: (ApiStatusCode, RefOr<ApiResponse>)|
        match e.0 {
            ApiStatusCode::Code(code) => 200 <= code <= 299,
            ApiStatusCode::Range(class) => class == 2,
        };
    let other = |e: (ApiStatusCode, RefOr<ApiResponse>)|
        match e.0 {
            ApiStatusCode::Code(code) => !(200 <= code <= 299),
            ApiStatusCode::Range(class) => class != 2,
        };
    assert(status_is(true) =~= two);
    assert(status_is(false) =~= other);
    law_response_candidates(resps);
}

} // verus!
