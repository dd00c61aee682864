//! The JSON schema of a body: what its JSON media types (`application/json` and
//! `+json` suffixes) describe.

use vstd::prelude::*;

use crate::category::{Category, CategoryView};
use crate::object::ObjectId;
use crate::openapi::error::{FrontendError, FrontendErrorView};
use crate::openapi::model::ApiMediaType;
use crate::openapi::schema::{resolve_schema, spec_resolve_schema};
use crate::openapi::text::{is_json_media, is_json_media_type};

verus! {

/// Why a body whose JSON media types describe different schemas is refused.
pub open spec fn reason_json_conflict() -> Seq<char> {
    "複数の JSON 系 content type が異なるスキーマを指しているため一意に決められない"@
}

fn reason_json_conflict_text() -> (r: String)
    ensures
        r@ == reason_json_conflict(),
{
    String::from_str("複数の JSON 系 content type が異なるスキーマを指しているため一意に決められない")
}

/// Resolving the schemas of the JSON media types of `content` in order, after `found`:
/// all of them must be the same object, which is the result; `None` when there is none.
pub open spec fn spec_json_schema(
    c: CategoryView,
    context: Seq<char>,
    content: Seq<(String, ApiMediaType)>,
    found: Option<Seq<char>>,
) -> (CategoryView, Result<Option<Seq<char>>, FrontendErrorView>)
    decreases content.len(),
{
    if content.len() == 0 {
        (c, Ok(found))
    } else if is_json_media(content[0].0@) && content[0].1.schema is Some {
        let step = spec_resolve_schema(c, context, content[0].1.schema->Some_0);
        match step.1 {
            Err(e) => (step.0, Err(e)),
            Ok(id) => if found is Some && found->Some_0 != id {
                (step.0, Err(FrontendErrorView::UnsupportedSchema { schema: context, reason: reason_json_conflict() }))
            } else {
                spec_json_schema(step.0, context, content.drop_first(), Some(id))
            },
        }
    } else {
        spec_json_schema(c, context, content.drop_first(), found)
    }
}

/// The outcome of a step that may yield an object identifier, as views.
pub open spec fn opt_id_step(r: Result<Option<ObjectId>, FrontendError>) -> Result<Option<Seq<char>>, FrontendErrorView> {
    match r {
        Ok(Some(x)) => Ok(Some(x@)),
        Ok(None) => Ok(None),
        Err(e) => Err(e@),
    }
}

/// An optional object identifier, as a view.
pub open spec fn opt_id(o: Option<ObjectId>) -> Option<Seq<char>> {
    match o {
        Some(x) => Some(x@),
        None => None,
    }
}

/// The object the JSON media types of `content` describe (see [`spec_json_schema`]).
pub fn json_schema(c: &mut Category, context: &String, content: &Vec<(String, ApiMediaType)>) -> (r: Result<Option<ObjectId>, FrontendError>)
    ensures
        final(c)@.wf(),
        final(c)@ == spec_json_schema(old(c)@, context@, content@, None).0,
        opt_id_step(r) == spec_json_schema(old(c)@, context@, content@, None).1,
{
    proof {
        use_type_invariant(&*c);
    }
    let ghost c0 = c@;
    let mut found: Option<ObjectId> = None;
    let mut i: usize = 0;
    proof {
        assert(content@.subrange(0, content@.len() as int) =~= content@);
    }
    while i < content.len()
        invariant
            c0 == old(c)@,
            c@.wf(),
            i <= content.len(),
            spec_json_schema(c@, context@, content@.subrange(i as int, content@.len() as int), opt_id(found))
                == spec_json_schema(c0, context@, content@, None),
        decreases content.len() - i,
    {
        let ghost rest = content@.subrange(i as int, content@.len() as int);
        proof {
            assert(rest[0] == content@[i as int]);
            assert(rest.drop_first() =~= content@.subrange(i + 1, content@.len() as int));
        }
        if is_json_media_type(content[i].0.as_str()) {
            match &content[i].1.schema {
                Some(s) => {
                    let id = match resolve_schema(c, context, s) {
                        Err(e) => {
                            return Err(e);
                        },
                        Ok(id) => id,
                    };
                    let conflict = match &found {
                        Some(f) => !f.same(&id),
                        None => false,
                    };
                    if conflict {
                        return Err(
                            FrontendError::UnsupportedSchema {
                                schema: context.clone(),
                                reason: reason_json_conflict_text(),
                            },
                        );
                    }
                    found = Some(id);
                },
                None => {},
            }
        }
        i = i + 1;
    }
    Ok(found)
}

/// Whether media type `m` of a body is JSON and has a schema.
pub open spec fn json_with_schema(m: (String, ApiMediaType)) -> bool {
    is_json_media(m.0@) && m.1.schema is Some
}

/// The object a schema stands for does not depend on the category it is resolved in.
pub proof fn lemma_resolve_result(c: CategoryView, d: CategoryView, context: Seq<char>, s: crate::openapi::model::SchemaOrRef)
    ensures
        spec_resolve_schema(c, context, s).1 == spec_resolve_schema(d, context, s).1,
{
}

proof fn lemma_json(c: CategoryView, context: Seq<char>, content: Seq<(String, ApiMediaType)>, found: Option<Seq<char>>)
    ensures
        spec_json_schema(c, context, content, found).1 matches Ok(Some(t)) ==> {
            &&& (found is Some ==> found == Some(t))
            &&& forall|k: int|
                0 <= k < content.len() && json_with_schema(#[trigger] content[k]) ==> spec_resolve_schema(
                    c,
                    context,
                    content[k].1.schema->Some_0,
                ).1 == Ok::<Seq<char>, FrontendErrorView>(t)
        },
        spec_json_schema(c, context, content, found).1 == Ok::<Option<Seq<char>>, FrontendErrorView>(None) ==> found is None
            && forall|k: int| 0 <= k < content.len() ==> !json_with_schema(#[trigger] content[k]),
        (forall|k: int| 0 <= k < content.len() ==> !json_with_schema(#[trigger] content[k])) ==> spec_json_schema(
            c,
            context,
            content,
            found,
        ) == (c, Ok::<Option<Seq<char>>, FrontendErrorView>(found)),
    decreases content.len(),
{
    if content.len() > 0 {
        let rest = content.drop_first();
        assert forall|k: int| 0 <= k < rest.len() implies rest[k] == content[k + 1] by {}
        if json_with_schema(content[0]) {
            let sc = content[0].1.schema->Some_0;
            let step = spec_resolve_schema(c, context, sc);
            if let Ok(id) = step.1 {
                lemma_json(step.0, context, rest, Some(id));
                if let Ok(Some(t)) = spec_json_schema(c, context, content, found).1 {
                    assert forall|k: int| 0 <= k < content.len() && json_with_schema(#[trigger] content[k]) implies spec_resolve_schema(
                        c,
                        context,
                        content[k].1.schema->Some_0,
                    ).1 == Ok::<Seq<char>, FrontendErrorView>(t) by {
                        if k > 0 {
                            assert(rest[k - 1] == content[k]);
                            lemma_resolve_result(c, step.0, context, content[k].1.schema->Some_0);
                        }
                    }
                }
            }
        } else {
            lemma_json(c, context, rest, found);
            if let Ok(Some(t)) = spec_json_schema(c, context, content, found).1 {
                assert forall|k: int| 0 <= k < content.len() && json_with_schema(#[trigger] content[k]) implies spec_resolve_schema(
                    c,
                    context,
                    content[k].1.schema->Some_0,
                ).1 == Ok::<Seq<char>, FrontendErrorView>(t) by {
                    assert(k != 0);
                    assert(rest[k - 1] == content[k]);
                }
            }
            if spec_json_schema(c, context, content, found).1 == Ok::<Option<Seq<char>>, FrontendErrorView>(None) {
                assert forall|k: int| 0 <= k < content.len() implies !json_with_schema(#[trigger] content[k]) by {
                    if k > 0 {
                        assert(rest[k - 1] == content[k]);
                    }
                }
            }
        }
    }
}

/// The JSON schema of a body, stated directly. A media type counts as JSON when its
/// essence (what precedes `;`, without surrounding blanks, in ASCII lower case) is
/// `application/json` or ends in `+json`. A body with no JSON media type that has a
/// schema has none, and nothing is registered for it; when the body has a JSON schema
/// that stands for `t`, every JSON schema of the body stands for `t`; and two JSON
/// schemas that stand for different objects make it fail.
pub proof fn law_json_schema(c: CategoryView, context: Seq<char>, content: Seq<(String, ApiMediaType)>)
    ensures
        (forall|k: int| 0 <= k < content.len() ==> !json_with_schema(#[trigger] content[k])) <==> spec_json_schema(
            c,
            context,
            content,
            None,
        ) == (c, Ok::<Option<Seq<char>>, FrontendErrorView>(None)),
        spec_json_schema(c, context, content, None).1 matches Ok(Some(t)) ==> forall|k: int|
            0 <= k < content.len() && json_with_schema(#[trigger] content[k]) ==> spec_resolve_schema(
                c,
                context,
                content[k].1.schema->Some_0,
            ).1 == Ok::<Seq<char>, FrontendErrorView>(t),
        forall|k1: int, k2: int|
            0 <= k1 < content.len() && 0 <= k2 < content.len() && json_with_schema(#[trigger] content[k1])
                && json_with_schema(#[trigger] content[k2]) && spec_resolve_schema(c, context, content[k1].1.schema->Some_0).1 is Ok
                && spec_resolve_schema(c, context, content[k2].1.schema->Some_0).1 is Ok && spec_resolve_schema(
                c,
                context,
                content[k1].1.schema->Some_0,
            ).1 != spec_resolve_schema(c, context, content[k2].1.schema->Some_0).1 ==> spec_json_schema(
                c,
                context,
                content,
                None,
            ).1 is Err,
{
    lemma_json(c, context, content, None);
}

proof fn lemma_json_agree(
    c: CategoryView,
    context: Seq<char>,
    content: Seq<(String, ApiMediaType)>,
    found: Option<Seq<char>>,
    t: Seq<char>,
)
    requires
        found is None || found == Some(t),
        forall|k: int|
            0 <= k < content.len() && json_with_schema(#[trigger] content[k]) ==> spec_resolve_schema(
                c,
                context,
                content[k].1.schema->Some_0,
            ).1 == Ok::<Seq<char>, FrontendErrorView>(t),
    ensures
        (found == Some(t) || exists|k: int| 0 <= k < content.len() && json_with_schema(#[trigger] content[k]))
            ==> spec_json_schema(c, context, content, found).1 == Ok::<Option<Seq<char>>, FrontendErrorView>(Some(t)),
    decreases content.len(),
{
    if content.len() > 0 {
        let rest = content.drop_first();
        assert forall|k: int| 0 <= k < rest.len() implies rest[k] == content[k + 1] by {}
        if json_with_schema(content[0]) {
            let step = spec_resolve_schema(c, context, content[0].1.schema->Some_0);
            assert(step.1 == Ok::<Seq<char>, FrontendErrorView>(t));
            assert forall|k: int| 0 <= k < rest.len() && json_with_schema(#[trigger] rest[k]) implies spec_resolve_schema(
                step.0,
                context,
                rest[k].1.schema->Some_0,
            ).1 == Ok::<Seq<char>, FrontendErrorView>(t) by {
                assert(rest[k] == content[k + 1]);
                lemma_resolve_result(c, step.0, context, rest[k].1.schema->Some_0);
            }
            lemma_json_agree(step.0, context, rest, Some(t), t);
        } else {
            assert forall|k: int| 0 <= k < rest.len() && json_with_schema(#[trigger] rest[k]) implies spec_resolve_schema(
                c,
                context,
                rest[k].1.schema->Some_0,
            ).1 == Ok::<Seq<char>, FrontendErrorView>(t) by {
                assert(rest[k] == content[k + 1]);
            }
            if found is None && exists|k: int| 0 <= k < content.len() && json_with_schema(#[trigger] content[k]) {
                let k = choose|k: int| 0 <= k < content.len() && json_with_schema(#[trigger] content[k]);
                assert(k > 0);
                assert(rest[k - 1] == content[k]);
                assert(json_with_schema(rest[k - 1]));
            }
            lemma_json_agree(c, context, rest, found, t);
        }
    }
}

/// JSON media types that agree are accepted: when a body has at least one JSON media
/// type with a schema and every such schema stands for the same object `t`, that
/// object is the body's JSON schema, however many media types name it.
pub proof fn law_json_schema_agree(c: CategoryView, context: Seq<char>, content: Seq<(String, ApiMediaType)>, t: Seq<char>)
    requires
        exists|k: int| 0 <= k < content.len() && json_with_schema(#[trigger] content[k]),
        forall|k: int|
            0 <= k < content.len() && json_with_schema(#[trigger] content[k]) ==> spec_resolve_schema(
                c,
                context,
                content[k].1.schema->Some_0,
            ).1 == Ok::<Seq<char>, FrontendErrorView>(t),
    ensures
        spec_json_schema(c, context, content, None).1 == Ok::<Option<Seq<char>>, FrontendErrorView>(Some(t)),
{
    lemma_json_agree(c, context, content, None, t);
}

} // verus!
