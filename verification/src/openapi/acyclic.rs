//! Named schemas without a `$ref` cycle are all registered, whatever order
//! `components.schemas` declares them in.

use vstd::prelude::*;

use crate::category::{lemma_first_missing, CategoryView};
use crate::object::{ObjectShape, ObjectView};
use crate::openapi::components::{
    all_entries, entries_error, entry_error, entry_names, field_context, is_reserved_name, lemma_pass_defers,
    property_waits, spec_fields, spec_fixpoint, spec_pass, spec_pass_step, spec_register_named_schemas,
    spec_register_schema, top_level_object, waits,
};
use crate::openapi::laws::{grows, lemma_fields_grows, lemma_fields_none, none_of};
use crate::openapi::model::{ApiDocument, SchemaOrRef};
use crate::openapi::schema::{inline_scalar, spec_resolve_schema};
use crate::openapi::text::schema_ref_name;

verus! {

/// Whether a property of a named schema can be resolved: a `$ref` to a named schema of
/// `es`, or an inline scalar.
pub open spec fn property_ok(es: Seq<(String, SchemaOrRef)>, p: SchemaOrRef) -> bool {
    match p {
        SchemaOrRef::Reference(r) => match schema_ref_name(r@) {
            Some(n) => entry_names(es).contains(n),
            None => false,
        },
        SchemaOrRef::Item(b) => inline_scalar(*b) is Ok,
    }
}

/// The named schema a property refers to, if it is a `$ref`.
pub open spec fn ref_target(p: SchemaOrRef) -> Option<Seq<char>> {
    match p {
        SchemaOrRef::Reference(r) => schema_ref_name(r@),
        SchemaOrRef::Item(_) => None,
    }
}

/// The properties of entry `i`, where it is an object type.
pub open spec fn props_of(es: Seq<(String, SchemaOrRef)>, i: int) -> Seq<(String, SchemaOrRef)> {
    top_level_object(es[i].0@, es[i].1)->Ok_0.properties@
}

/// Whether every entry is an inline object type with a name of its own, not a built-in
/// scalar's, whose properties are inline scalars or `$ref`s to entries.
pub open spec fn well_shaped(es: Seq<(String, SchemaOrRef)>) -> bool {
    &&& entry_names(es).no_duplicates()
    &&& forall|i: int|
        0 <= i < es.len() ==> {
            &&& (#[trigger] es[i]).1 is Item
            &&& !is_reserved_name(es[i].0@)
            &&& top_level_object(es[i].0@, es[i].1) is Ok
        }
    &&& forall|i: int, k: int|
        0 <= i < es.len() && 0 <= k < props_of(es, i).len() ==> property_ok(es, #[trigger] props_of(es, i)[k].1)
}

/// Whether `rank` orders the entries so that every `$ref` points to an entry of lower
/// rank: there is no `$ref` cycle.
pub open spec fn ranked(es: Seq<(String, SchemaOrRef)>, rank: spec_fn(int) -> nat) -> bool {
    forall|i: int, k: int, j: int|
        0 <= i < es.len() && 0 <= k < props_of(es, i).len() && 0 <= j < es.len() && ref_target(
            #[trigger] props_of(es, i)[k].1,
        ) == Some(#[trigger] es[j].0@) ==> rank(j) < rank(i)
}

/// Whether exactly the entries outside `out` are registered in `c`.
pub open spec fn registered_except(c: CategoryView, es: Seq<(String, SchemaOrRef)>, out: Seq<usize>) -> bool {
    forall|i: int| 0 <= i < es.len() ==> (#[trigger] c.has_object(es[i].0@) <==> !out.contains(i as usize))
}

pub proof fn lemma_fields_only_reserved(
    c: CategoryView,
    name: Seq<char>,
    props: Seq<(String, SchemaOrRef)>,
    acc: Seq<(Seq<char>, Seq<char>)>,
    x: Seq<char>,
)
    requires
        !is_reserved_name(x),
    ensures
        spec_fields(c, name, props, acc).0.has_object(x) == c.has_object(x),
{
    lemma_fields_grows(c, name, props, acc);
    if !c.has_object(x) {
        let s = Set::empty().insert(x);
        assert forall|y: Seq<char>| s.contains(y) implies !#[trigger] c.has_object(y) by {}
        assert forall|y: Seq<char>| s.contains(y) implies !#[trigger] is_reserved_name(y) by {}
        lemma_fields_none(c, name, props, acc, s);
        assert(s.contains(x));
    }
}

/// Resolving properties that can be resolved, whose `$ref`s are registered, succeeds,
/// and every field's object is registered afterwards.
proof fn lemma_fields_ok(
    c: CategoryView,
    es: Seq<(String, SchemaOrRef)>,
    name: Seq<char>,
    props: Seq<(String, SchemaOrRef)>,
    acc: Seq<(Seq<char>, Seq<char>)>,
)
    requires
        forall|k: int| 0 <= k < props.len() ==> property_ok(es, #[trigger] props[k].1),
        forall|k: int| 0 <= k < props.len() ==> (#[trigger] ref_target(props[k].1) matches Some(n) ==> c.has_object(n)),
        forall|k: int| 0 <= k < acc.len() ==> c.has_object(#[trigger] acc[k].1),
    ensures
        spec_fields(c, name, props, acc).1 matches Ok(fs) && forall|k: int|
            0 <= k < fs.len() ==> spec_fields(c, name, props, acc).0.has_object(#[trigger] fs[k].1),
    decreases props.len(),
{
    if props.len() > 0 {
        let p = props[0].1;
        let ctx = field_context(name, props[0].0@);
        let step = spec_resolve_schema(c, ctx, p);
        assert(property_ok(es, p));
        crate::openapi::laws::lemma_resolve_grows(c, ctx, p);
        let id = step.1->Ok_0;
        match p {
            SchemaOrRef::Reference(r) => {
                assert(ref_target(props[0].1) == schema_ref_name(r@));
                assert(step.0.has_object(id));
            },
            SchemaOrRef::Item(b) => {
                crate::openapi::laws::lemma_intern_grows(c, id);
                assert(step.0.has_object(id));
            },
        }
        let acc2 = acc.push((props[0].0@, id));
        let rest = props.drop_first();
        assert forall|k: int| 0 <= k < rest.len() implies property_ok(es, #[trigger] rest[k].1) by {
            assert(rest[k] == props[k + 1]);
        }
        assert forall|k: int| 0 <= k < rest.len() implies (#[trigger] ref_target(rest[k].1) matches Some(n)
            ==> step.0.has_object(n)) by {
            assert(rest[k] == props[k + 1]);
            if let Some(n) = ref_target(props[k + 1].1) {
                assert(c.has_object(n));
            }
        }
        assert forall|k: int| 0 <= k < acc2.len() implies step.0.has_object(#[trigger] acc2[k].1) by {
            if k < acc.len() {
                assert(c.has_object(acc[k].1));
            }
        }
        lemma_fields_ok(step.0, es, name, rest, acc2);
    }
}

/// The object a resolvable property's field holds.
pub open spec fn expected_target(p: SchemaOrRef) -> Seq<char> {
    match p {
        SchemaOrRef::Reference(r) => schema_ref_name(r@)->Some_0,
        SchemaOrRef::Item(b) => inline_scalar(*b)->Ok_0,
    }
}

/// The fields of the product for `props`: each property's name with the object it holds,
/// in declaration order.
pub open spec fn expected_fields(props: Seq<(String, SchemaOrRef)>) -> Seq<(Seq<char>, Seq<char>)> {
    props.map_values(|p: (String, SchemaOrRef)| (p.0@, expected_target(p.1)))
}

/// The object entry `i` is registered as: the product of its properties.
pub open spec fn expected_object(es: Seq<(String, SchemaOrRef)>, i: int) -> ObjectView {
    ObjectView { id: es[i].0@, kind: ObjectShape::Product(expected_fields(props_of(es, i))) }
}

/// Whether every registered entry is registered as the product of its properties.
pub open spec fn shaped_as_declared(c: CategoryView, es: Seq<(String, SchemaOrRef)>) -> bool {
    forall|i: int| 0 <= i < es.len() && c.has_object(#[trigger] es[i].0@) ==> c.find_object(es[i].0@) == Some(expected_object(es, i))
}

proof fn lemma_fields_exact(
    c: CategoryView,
    name: Seq<char>,
    props: Seq<(String, SchemaOrRef)>,
    acc: Seq<(Seq<char>, Seq<char>)>,
)
    ensures
        spec_fields(c, name, props, acc).1 matches Ok(fs) ==> fs == acc + expected_fields(props),
    decreases props.len(),
{
    if props.len() == 0 {
        if let Ok(fs) = spec_fields(c, name, props, acc).1 {
            assert(acc + expected_fields(props) =~= acc);
        }
    } else {
        let ctx = field_context(name, props[0].0@);
        let step = spec_resolve_schema(c, ctx, props[0].1);
        if let Ok(id) = step.1 {
            assert(id == expected_target(props[0].1));
            let acc2 = acc.push((props[0].0@, id));
            lemma_fields_exact(step.0, name, props.drop_first(), acc2);
            if let Ok(fs) = spec_fields(c, name, props, acc).1 {
                assert(acc2 + expected_fields(props.drop_first()) =~= acc + expected_fields(props));
            }
        }
    }
}

/// Registering keeps a category well formed, and every object registered before is
/// found as before.
pub proof fn lemma_resolve_keeps(c: CategoryView, ctx: Seq<char>, p: SchemaOrRef)
    requires
        c.wf(),
    ensures
        spec_resolve_schema(c, ctx, p).0.wf(),
        forall|x: Seq<char>| c.has_object(x) ==> #[trigger] spec_resolve_schema(c, ctx, p).0.find_object(x) == c.find_object(x),
{
    if let SchemaOrRef::Item(b) = p {
        if let Ok(n) = inline_scalar(*b) {
            if !c.has_object(n) {
                let o = ObjectView { id: n, kind: ObjectShape::Scalar };
                crate::category::lemma_add_object_wf(c, o);
                crate::category::lemma_first_missing(c, o.kind.targets());
                assert forall|x: Seq<char>| c.has_object(x) implies #[trigger] c.push_object(o).find_object(x) == c.find_object(x) by {
                    crate::category::lemma_push_object_finds(c, o, x);
                }
            }
        }
    }
}

proof fn lemma_fields_keeps(
    c: CategoryView,
    name: Seq<char>,
    props: Seq<(String, SchemaOrRef)>,
    acc: Seq<(Seq<char>, Seq<char>)>,
)
    requires
        c.wf(),
    ensures
        spec_fields(c, name, props, acc).0.wf(),
        forall|x: Seq<char>| c.has_object(x) ==> #[trigger] spec_fields(c, name, props, acc).0.find_object(x) == c.find_object(x),
    decreases props.len(),
{
    if props.len() > 0 {
        let ctx = field_context(name, props[0].0@);
        let step = spec_resolve_schema(c, ctx, props[0].1);
        lemma_resolve_keeps(c, ctx, props[0].1);
        crate::openapi::laws::lemma_resolve_grows(c, ctx, props[0].1);
        if let Ok(id) = step.1 {
            let acc2 = acc.push((props[0].0@, id));
            lemma_fields_keeps(step.0, name, props.drop_first(), acc2);
            assert forall|x: Seq<char>| c.has_object(x) implies #[trigger] spec_fields(c, name, props, acc).0.find_object(x) == c.find_object(x) by {
                assert(step.0.has_object(x));
            }
        }
    }
}

/// Registering an entry that does not wait keeps the category well formed, finds it as
/// the product of its properties, and finds every object registered before as before.
proof fn lemma_register_shape(c: CategoryView, es: Seq<(String, SchemaOrRef)>, i: int)
    requires
        c.wf(),
        well_shaped(es),
        0 <= i < es.len(),
        !c.has_object(es[i].0@),
        !waits(c, entry_names(es), props_of(es, i)),
    ensures
        ({
            let d = spec_register_schema(c, es[i].0@, top_level_object(es[i].0@, es[i].1)->Ok_0).0;
            &&& d.wf()
            &&& d.find_object(es[i].0@) == Some(expected_object(es, i))
            &&& forall|x: Seq<char>| c.has_object(x) ==> #[trigger] d.find_object(x) == c.find_object(x)
        }),
{
    lemma_register_ok(c, es, i);
    let name = es[i].0@;
    let o = top_level_object(name, es[i].1)->Ok_0;
    let props = o.properties@;
    let fields = spec_fields(c, name, props, Seq::empty());
    lemma_fields_keeps(c, name, props, Seq::empty());
    lemma_fields_exact(c, name, props, Seq::empty());
    crate::openapi::laws::lemma_fields_grows(c, name, props, Seq::empty());
    lemma_fields_only_reserved(c, name, props, Seq::empty(), name);
    let fs = fields.1->Ok_0;
    assert(fs =~= expected_fields(props));
    let ov = ObjectView { id: name, kind: ObjectShape::Product(fs) };
    assert(ov == expected_object(es, i));
    crate::category::lemma_add_object_wf(fields.0, ov);
    crate::category::lemma_push_object_finds(fields.0, ov, name);
    assert forall|x: Seq<char>| c.has_object(x) implies #[trigger] fields.0.push_object(ov).find_object(x) == c.find_object(x) by {
        assert(fields.0.has_object(x));
        crate::category::lemma_push_object_finds(fields.0, ov, x);
    }
}

/// An entry that does not wait is registered, and nothing else that is not a built-in
/// scalar's name is.
proof fn lemma_register_ok(c: CategoryView, es: Seq<(String, SchemaOrRef)>, i: int)
    requires
        well_shaped(es),
        0 <= i < es.len(),
        !c.has_object(es[i].0@),
        !waits(c, entry_names(es), props_of(es, i)),
    ensures
        spec_register_schema(c, es[i].0@, top_level_object(es[i].0@, es[i].1)->Ok_0).1 is Ok,
        spec_register_schema(c, es[i].0@, top_level_object(es[i].0@, es[i].1)->Ok_0).0.has_object(es[i].0@),
        forall|x: Seq<char>|
            !is_reserved_name(x) && x != es[i].0@ ==> (#[trigger] spec_register_schema(
                c,
                es[i].0@,
                top_level_object(es[i].0@, es[i].1)->Ok_0,
            ).0.has_object(x) == c.has_object(x)),
{
    let name = es[i].0@;
    let o = top_level_object(name, es[i].1)->Ok_0;
    let props = o.properties@;
    assert(es[i].1 is Item);
    assert forall|k: int| 0 <= k < props.len() implies property_ok(es, #[trigger] props[k].1) by {
        assert(props_of(es, i)[k] == props[k]);
    }
    assert forall|k: int| 0 <= k < props.len() implies (#[trigger] ref_target(props[k].1) matches Some(n)
        ==> c.has_object(n)) by {
        if let Some(n) = ref_target(props[k].1) {
            assert(property_ok(es, props[k].1));
            assert(!property_waits(c, entry_names(es), props[k].1));
        }
    }
    lemma_fields_ok(c, es, name, props, Seq::empty());
    let fields = spec_fields(c, name, props, Seq::empty());
    let fs = fields.1->Ok_0;
    lemma_fields_only_reserved(c, name, props, Seq::empty(), name);
    let ov = ObjectView { id: name, kind: ObjectShape::Product(fs) };
    lemma_first_missing(fields.0, ov.kind.targets());
    assert forall|k: int| 0 <= k < ov.kind.targets().len() implies fields.0.has_object(#[trigger] ov.kind.targets()[k]) by {
        assert(ov.kind.targets()[k] == fs[k].1);
    }
    let d = fields.0.push_object(ov);
    assert(d.objects[fields.0.objects.len() as int] == ov);
    assert forall|x: Seq<char>| !is_reserved_name(x) && x != name implies (#[trigger] d.has_object(x)
        == c.has_object(x)) by {
        lemma_fields_only_reserved(c, name, props, Seq::empty(), x);
        if d.has_object(x) {
            let j = choose|j: int| 0 <= j < d.objects.len() && (#[trigger] d.objects[j]).id == x;
            if j < fields.0.objects.len() {
                assert(fields.0.objects[j] == d.objects[j]);
            }
        }
        if fields.0.has_object(x) {
            let j = choose|j: int| 0 <= j < fields.0.objects.len() && (#[trigger] fields.0.objects[j]).id == x;
            assert(d.objects[j] == fields.0.objects[j]);
        }
    }
}

proof fn lemma_names_distinct(es: Seq<(String, SchemaOrRef)>, i: int, j: int)
    requires
        entry_names(es).no_duplicates(),
        0 <= i < es.len(),
        0 <= j < es.len(),
        i != j,
    ensures
        es[i].0@ != es[j].0@,
{
    assert(entry_names(es)[i] == es[i].0@);
    assert(entry_names(es)[j] == es[j].0@);
}

/// A pass over valid entries succeeds; what it puts off is exactly what stays
/// unregistered; and it registers something when some pending entry waits on nothing.
proof fn lemma_pass_ok(
    c: CategoryView,
    es: Seq<(String, SchemaOrRef)>,
    pending: Seq<usize>,
    deferred: Seq<usize>,
    progressed: bool,
)
    requires
        well_shaped(es),
        es.len() <= usize::MAX,
        pending.no_duplicates(),
        deferred.no_duplicates(),
        forall|k: int| 0 <= k < pending.len() ==> #[trigger] pending[k] < es.len() && !deferred.contains(pending[k]),
        forall|k: int| 0 <= k < deferred.len() ==> #[trigger] deferred[k] < es.len(),
        registered_except(c, es, deferred + pending),
        c.wf(),
        shaped_as_declared(c, es),
    ensures
        spec_pass(c, es, pending, deferred, progressed).1 is Ok,
        ({
            let (d, r) = spec_pass(c, es, pending, deferred, progressed);
            let acc = r->Ok_0;
            &&& acc.0.no_duplicates()
            &&& forall|k: int| 0 <= k < acc.0.len() ==> #[trigger] acc.0[k] < es.len()
            &&& registered_except(d, es, acc.0)
            &&& grows(c, d)
            &&& d.wf()
            &&& shaped_as_declared(d, es)
            &&& ((progressed || exists|k: int|
                0 <= k < pending.len() && !waits(c, entry_names(es), #[trigger] props_of(es, pending[k] as int)))
                ==> acc.1)
        }),
    decreases pending.len(),
{
    if pending.len() == 0 {
        assert(deferred + pending =~= deferred);
        crate::openapi::laws::lemma_grows_refl(c);
    } else {
        let i = pending[0];
        let ii = i as int;
        let name = es[ii].0@;
        let o = top_level_object(name, es[ii].1)->Ok_0;
        assert(es[ii].1 is Item && top_level_object(name, es[ii].1) is Ok);
        assert((deferred + pending).contains(i)) by {
            assert((deferred + pending)[deferred.len() as int] == i);
        }
        assert(!c.has_object(name));
        let step = spec_pass_step(c, es, i, deferred, progressed);
        let rest = pending.drop_first();
        assert forall|k: int| 0 <= k < rest.len() implies rest[k] != i by {
            assert(rest[k] == pending[k + 1]);
        }
        if waits(c, entry_names(es), o.properties@) {
            let deferred2 = deferred.push(i);
            assert(step == (c, Ok::<(Seq<usize>, bool), crate::openapi::error::FrontendErrorView>((deferred2, progressed))));
            assert(deferred2 + rest =~= deferred + pending);
            assert forall|k: int| 0 <= k < rest.len() implies #[trigger] rest[k] < es.len() && !deferred2.contains(rest[k]) by {
                assert(rest[k] == pending[k + 1]);
                if deferred2.contains(rest[k]) {
                    let j = choose|j: int| 0 <= j < deferred2.len() && deferred2[j] == rest[k];
                    if j < deferred.len() {
                        assert(deferred[j] == rest[k]);
                        assert(deferred.contains(pending[k + 1]));
                    }
                }
            }
            assert forall|a: int, b: int| 0 <= a < deferred2.len() && 0 <= b < deferred2.len() && a != b implies deferred2[a]
                != deferred2[b] by {
                if a == deferred.len() as int {
                    assert(!deferred.contains(pending[0]));
                    assert(deferred2[b] == deferred[b]);
                } else if b == deferred.len() as int {
                    assert(!deferred.contains(pending[0]));
                    assert(deferred2[a] == deferred[a]);
                }
            }
            assert(rest.no_duplicates()) by {
                assert forall|a: int, b: int| 0 <= a < rest.len() && 0 <= b < rest.len() && a != b implies rest[a] != rest[b] by {
                    assert(rest[a] == pending[a + 1]);
                    assert(rest[b] == pending[b + 1]);
                }
            }
            lemma_pass_ok(c, es, rest, deferred2, progressed);
            if exists|k: int| 0 <= k < pending.len() && !waits(c, entry_names(es), #[trigger] props_of(es, pending[k] as int)) {
                let k = choose|k: int| 0 <= k < pending.len() && !waits(c, entry_names(es), #[trigger] props_of(es, pending[k] as int));
                assert(k != 0);
                assert(rest[k - 1] == pending[k]);
                assert(!waits(c, entry_names(es), props_of(es, rest[k - 1] as int)));
            }
        } else {
            lemma_register_ok(c, es, ii);
            lemma_register_shape(c, es, ii);
            let reg = spec_register_schema(c, name, o);
            assert forall|j: int| 0 <= j < es.len() && reg.0.has_object(#[trigger] es[j].0@) implies reg.0.find_object(es[j].0@)
                == Some(expected_object(es, j)) by {
                if j != ii {
                    lemma_names_distinct(es, j, ii);
                    assert(c.has_object(es[j].0@));
                }
            }
            assert(step == (reg.0, Ok::<(Seq<usize>, bool), crate::openapi::error::FrontendErrorView>((deferred, true))));
            crate::openapi::laws::lemma_register_schema_grows(c, name, o);
            assert forall|j: int| 0 <= j < es.len() implies (#[trigger] reg.0.has_object(es[j].0@) <==> !(deferred
                + rest).contains(j as usize)) by {
                let dp = deferred + pending;
                let dr = deferred + rest;
                if j == ii {
                    if dr.contains(i) {
                        let t = choose|t: int| 0 <= t < dr.len() && dr[t] == i;
                        if t < deferred.len() {
                            assert(deferred[t] == i);
                            assert(deferred.contains(pending[0]));
                        } else {
                            assert(rest[t - deferred.len()] == i);
                        }
                    }
                } else {
                    lemma_names_distinct(es, j, ii);
                    assert(reg.0.has_object(es[j].0@) == c.has_object(es[j].0@));
                    assert(c.has_object(es[j].0@) <==> !dp.contains(j as usize));
                    if dp.contains(j as usize) {
                        let t = choose|t: int| 0 <= t < dp.len() && dp[t] == j as usize;
                        if t < deferred.len() {
                            assert(dr[t] == j as usize);
                        } else if t > deferred.len() {
                            assert(dr[t - 1] == j as usize);
                        } else {
                            assert(dp[t] == i);
                        }
                    }
                    if dr.contains(j as usize) {
                        let t = choose|t: int| 0 <= t < dr.len() && dr[t] == j as usize;
                        if t < deferred.len() {
                            assert(dp[t] == j as usize);
                        } else {
                            assert(dp[t + 1] == j as usize);
                        }
                    }
                }
            }
            assert forall|k: int| 0 <= k < rest.len() implies #[trigger] rest[k] < es.len() && !deferred.contains(rest[k]) by {
                assert(rest[k] == pending[k + 1]);
            }
            assert(rest.no_duplicates()) by {
                assert forall|a: int, b: int| 0 <= a < rest.len() && 0 <= b < rest.len() && a != b implies rest[a] != rest[b] by {
                    assert(rest[a] == pending[a + 1]);
                    assert(rest[b] == pending[b + 1]);
                }
            }
            lemma_pass_ok(reg.0, es, rest, deferred, true);
            crate::openapi::laws::lemma_grows_trans(c, reg.0, spec_pass(reg.0, es, rest, deferred, true).0);
        }
    }
}

proof fn lemma_waits_grows(c: CategoryView, d: CategoryView, known: Seq<Seq<char>>, props: Seq<(String, SchemaOrRef)>)
    requires
        grows(c, d),
        !waits(c, known, props),
    ensures
        !waits(d, known, props),
{
    assert forall|k: int| 0 <= k < props.len() implies !property_waits(d, known, #[trigger] props[k].1) by {
        assert(!property_waits(c, known, props[k].1));
        if let SchemaOrRef::Reference(r) = props[k].1 {
            if let Some(n) = schema_ref_name(r@) {
                if c.has_object(n) {
                    assert(d.has_object(n));
                }
            }
        }
    }
}

/// Some pending entry has the least rank.
proof fn lemma_min_rank(pending: Seq<usize>, rank: spec_fn(int) -> nat) -> (m: int)
    requires
        pending.len() > 0,
    ensures
        0 <= m < pending.len(),
        forall|k: int| 0 <= k < pending.len() ==> rank(pending[m] as int) <= rank(#[trigger] pending[k] as int),
    decreases pending.len(),
{
    if pending.len() == 1 {
        0
    } else {
        let m0 = lemma_min_rank(pending.drop_last(), rank);
        assert forall|k: int| 0 <= k < pending.len() - 1 implies rank(pending[m0] as int) <= rank(
            #[trigger] pending[k] as int,
        ) by {
            assert(pending.drop_last()[k] == pending[k]);
        }
        if rank(pending.last() as int) < rank(pending[m0] as int) {
            (pending.len() - 1) as int
        } else {
            m0
        }
    }
}

/// The entry of least rank among the pending ones waits on nothing.
proof fn lemma_least_waits_on_nothing(
    c: CategoryView,
    es: Seq<(String, SchemaOrRef)>,
    pending: Seq<usize>,
    rank: spec_fn(int) -> nat,
    m: int,
)
    requires
        well_shaped(es),
        es.len() <= usize::MAX,
        ranked(es, rank),
        0 <= m < pending.len(),
        forall|k: int| 0 <= k < pending.len() ==> #[trigger] pending[k] < es.len(),
        forall|k: int| 0 <= k < pending.len() ==> rank(pending[m] as int) <= rank(#[trigger] pending[k] as int),
        registered_except(c, es, pending),
    ensures
        !waits(c, entry_names(es), props_of(es, pending[m] as int)),
{
    let i = pending[m] as int;
    let props = props_of(es, i);
    assert forall|k: int| 0 <= k < props.len() implies !property_waits(c, entry_names(es), #[trigger] props[k].1) by {
        if let SchemaOrRef::Reference(r) = props[k].1 {
            if let Some(n) = schema_ref_name(r@) {
                if entry_names(es).contains(n) {
                    let j = choose|j: int| 0 <= j < entry_names(es).len() && entry_names(es)[j] == n;
                    assert(es[j].0@ == n);
                    assert(ref_target(props_of(es, i)[k].1) == Some(es[j].0@));
                    assert(rank(j) < rank(i));
                    if pending.contains(j as usize) {
                        let t = choose|t: int| 0 <= t < pending.len() && pending[t] == j as usize;
                        assert(rank(pending[m] as int) <= rank(pending[t] as int));
                    }
                    assert(c.has_object(es[j].0@));
                }
            }
        }
    }
}

proof fn lemma_fixpoint_ok(c: CategoryView, es: Seq<(String, SchemaOrRef)>, pending: Seq<usize>, rank: spec_fn(int) -> nat)
    requires
        well_shaped(es),
        es.len() <= usize::MAX,
        ranked(es, rank),
        pending.no_duplicates(),
        forall|k: int| 0 <= k < pending.len() ==> #[trigger] pending[k] < es.len(),
        registered_except(c, es, pending),
        c.wf(),
        shaped_as_declared(c, es),
    ensures
        spec_fixpoint(c, es, pending).1 is Ok,
        spec_fixpoint(c, es, pending).0.wf(),
        shaped_as_declared(spec_fixpoint(c, es, pending).0, es),
    decreases pending.len(),
{
    if pending.len() > 0 {
        let empty = Seq::<usize>::empty();
        assert(empty + pending =~= pending);
        lemma_pass_ok(c, es, pending, empty, false);
        let m = lemma_min_rank(pending, rank);
        lemma_least_waits_on_nothing(c, es, pending, rank, m);
        let pass = spec_pass(c, es, pending, empty, false);
        let acc = pass.1->Ok_0;
        assert(acc.1);
        lemma_pass_defers(c, es, pending, empty, false);
        lemma_fixpoint_ok(pass.0, es, acc.0, rank);
    }
}

proof fn lemma_entries_error_none(es: Seq<(String, SchemaOrRef)>)
    requires
        forall|i: int| 0 <= i < es.len() ==> (#[trigger] es[i]).1 is Item && !is_reserved_name(es[i].0@),
    ensures
        entries_error(es) is None,
    decreases es.len(),
{
    if es.len() > 0 {
        assert(entry_error(es[0]) is None);
        assert forall|i: int| 0 <= i < es.drop_first().len() implies (#[trigger] es.drop_first()[i]).1 is Item
            && !is_reserved_name(es.drop_first()[i].0@) by {
            assert(es.drop_first()[i] == es[i + 1]);
        }
        lemma_entries_error_none(es.drop_first());
    }
}

/// Named schemas without a `$ref` cycle register successfully in any declaration order:
/// where every entry of `components.schemas` is an object type under a name of its own
/// (not a built-in scalar's, not yet registered) whose properties are inline scalars or
/// `$ref`s to entries, and some ranking puts every `$ref` below the schema that holds it,
/// registering the named schemas succeeds and registers every one of them as the
/// product of its properties, in declaration order.
pub proof fn law_acyclic_schemas_registered(c: CategoryView, doc: ApiDocument, rank: spec_fn(int) -> nat)
    requires
        doc.components matches Some(comp) && well_shaped(comp.schemas@) && ranked(comp.schemas@, rank)
            && forall|i: int| 0 <= i < comp.schemas@.len() ==> !c.has_object(#[trigger] comp.schemas@[i].0@),
        c.wf(),
    ensures
        spec_register_named_schemas(c, doc).1 is Ok,
        forall|i: int|
            0 <= i < doc.components->Some_0.schemas@.len() ==> spec_register_named_schemas(c, doc).0.find_object(
                #[trigger] doc.components->Some_0.schemas@[i].0@,
            ) == Some(expected_object(doc.components->Some_0.schemas@, i)),
        forall|i: int|
            0 <= i < doc.components->Some_0.schemas@.len() ==> spec_register_named_schemas(c, doc).0.has_object(
                #[trigger] doc.components->Some_0.schemas@[i].0@,
            ),
{
    let comp = doc.components->Some_0;
    let es = comp.schemas@;
    lemma_entries_error_none(es);
    let all = all_entries(es.len());
    vstd::std_specs::vec::axiom_spec_len(&comp.schemas);
    assert forall|k: int| 0 <= k < all.len() implies #[trigger] all[k] < es.len() by {}
    assert(all.no_duplicates());
    assert forall|i: int| 0 <= i < es.len() implies (#[trigger] c.has_object(es[i].0@) <==> !all.contains(i as usize)) by {
        assert(all[i] == i as usize);
    }
    lemma_fixpoint_ok(c, es, all, rank);
    crate::openapi::laws::law_named_schemas_registered(c, doc);
    let r = spec_fixpoint(c, es, all).0;
    assert forall|i: int| 0 <= i < es.len() implies r.find_object(#[trigger] es[i].0@) == Some(expected_object(es, i)) by {
        assert(r.has_object(es[i].0@));
    }
}

} // verus!
