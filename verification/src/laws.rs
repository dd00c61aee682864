//! The laws of the categorical IR, stated over the views of categories and proved.

use vstd::prelude::*;

use crate::category::{
    composite_key, handled, lemma_compose_wf, lemma_find_morphism, lemma_parts_of, lemma_push_morphism_keeps,
    parts_of, spec_add_morphism, spec_add_object, spec_check_composable, spec_check_coverage,
    spec_compose, spec_identity, unhandled, CategoryErrorView, CategoryView,
};
use crate::effect::{render_layers, EffectView};
use crate::morphism::{KindView, MorphismKey, MorphismView};
use crate::object::{ObjectShape, ObjectView};

verus! {

/// Appending a morphism with a fresh identifier keeps the lookups of the others
/// and finds the new one under its identifier.
pub proof fn lemma_push_morphism_finds(c: CategoryView, m: MorphismView, k: MorphismKey)
    requires
        c.wf(),
        !c.has_morphism(m.id),
    ensures
        c.push_morphism(m).has_morphism(k) == (c.has_morphism(k) || k == m.id),
        k != m.id ==> c.push_morphism(m).find_morphism(k) == c.find_morphism(k),
        c.push_morphism(m).find_morphism(m.id) == Some(m),
{
    let d = c.push_morphism(m);
    let n = c.morphisms.len();
    assert(d.morphisms[n as int] == m);
    lemma_push_morphism_keeps(c, m);
    if d.has_morphism(k) && k != m.id {
        let j = d.morphism_index(k);
        assert(d.morphisms[j].id == k);
        assert(j != n);
        assert(c.morphisms[j] == d.morphisms[j]);
        assert(c.has_morphism(k));
        let i = c.morphism_index(k);
        assert(c.morphisms[i].id == k);
        if i != j {
            assert(c.morphisms[i].id != c.morphisms[j].id);
        }
    }
    let j = d.morphism_index(m.id);
    assert(d.morphisms[j].id == m.id);
    if j != n {
        assert(c.morphisms[j] == d.morphisms[j]);
    }
}

/// The effects of a chain of morphisms, first applied outermost.
pub open spec fn chain_effects(c: CategoryView, ps: Seq<MorphismKey>) -> Seq<EffectView>
    decreases ps.len(),
{
    if ps.len() == 0 {
        Seq::empty()
    } else {
        chain_effects(c, ps.drop_last()) + c.find_morphism(ps.last()).unwrap().effects
    }
}

/// Whether a registered composite agrees with its parts: it starts where the first
/// part starts, ends where the last part ends, and carries their effects in order.
pub open spec fn composite_agrees(c: CategoryView, m: MorphismView) -> bool {
    match m.kind {
        KindView::Composed(ps) => {
            &&& m.dom == c.find_morphism(ps[0]).unwrap().dom
            &&& m.cod == c.find_morphism(ps.last()).unwrap().cod
            &&& m.effects == chain_effects(c, ps)
        },
        _ => true,
    }
}

/// Coherence: every composite agrees with its parts. Every operation keeps it
/// (see [`law_operations_keep_coherence`]), so it holds of every category built
/// through them.
pub open spec fn coherent(c: CategoryView) -> bool {
    forall|i: int| 0 <= i < c.morphisms.len() ==> composite_agrees(c, #[trigger] c.morphisms[i])
}

/// `chain_effects` distributes over concatenation.
pub proof fn lemma_chain_effects_concat(c: CategoryView, a: Seq<MorphismKey>, b: Seq<MorphismKey>)
    ensures
        chain_effects(c, a + b) == chain_effects(c, a) + chain_effects(c, b),
    decreases b.len(),
{
    if b.len() == 0 {
        assert(a + b =~= a);
        assert(chain_effects(c, a) + chain_effects(c, b) =~= chain_effects(c, a));
    } else {
        lemma_chain_effects_concat(c, a, b.drop_last());
        assert((a + b).drop_last() =~= a + b.drop_last());
        assert((a + b).last() == b.last());
        assert(chain_effects(c, a + b) =~= chain_effects(c, a) + chain_effects(c, b));
    }
}

/// `chain_effects` only depends on the lookups of the parts.
pub proof fn lemma_chain_effects_stable(c: CategoryView, d: CategoryView, ps: Seq<MorphismKey>)
    requires
        forall|k: int| 0 <= k < ps.len() ==> d.find_morphism(#[trigger] ps[k]) == c.find_morphism(ps[k]),
    ensures
        chain_effects(d, ps) == chain_effects(c, ps),
    decreases ps.len(),
{
    if ps.len() > 0 {
        let q = ps.drop_last();
        assert forall|k: int| 0 <= k < q.len() implies d.find_morphism(#[trigger] q[k])
            == c.find_morphism(q[k]) by {
            assert(q[k] == ps[k]);
        }
        lemma_chain_effects_stable(c, d, q);
        assert(ps.last() == ps[ps.len() - 1]);
    }
}

/// The view of the morphism a key leads to in a well-formed, coherent category,
/// described by its dom, cod and effects through the parts it contributes.
pub proof fn lemma_parts_describe(c: CategoryView, k: MorphismKey)
    requires
        c.wf(),
        coherent(c),
        c.has_morphism(k),
        !(c.find_morphism(k).unwrap().kind is Identity),
    ensures
        ({
            let m = c.find_morphism(k).unwrap();
            let ps = parts_of(m);
            &&& ps.len() >= 1
            &&& m.dom == c.find_morphism(ps[0]).unwrap().dom
            &&& m.cod == c.find_morphism(ps.last()).unwrap().cod
            &&& m.effects == chain_effects(c, ps)
        }),
{
    let i = c.morphism_index(k);
    let m = c.morphisms[i];
    lemma_find_morphism(c, i);
    assert(c.morphism_registered(m));
    assert(composite_agrees(c, m));
    lemma_parts_of(c, k);
    match m.kind {
        KindView::Composed(ps) => {},
        _ => {
            let ps = parts_of(m);
            assert(ps == seq![k]);
            assert(ps.drop_last() =~= Seq::<MorphismKey>::empty());
            assert(chain_effects(c, Seq::<MorphismKey>::empty()) == Seq::<EffectView>::empty());
            assert(m.id == k);
            assert(c.find_morphism(k) == Some(m));
            assert(chain_effects(c, ps) =~= m.effects);
        },
    }
}

/// Appending a fresh morphism that agrees with its parts keeps a category coherent.
pub proof fn lemma_push_coherent(c: CategoryView, m: MorphismView)
    requires
        c.wf(),
        coherent(c),
        !c.has_morphism(m.id),
        composite_agrees(c.push_morphism(m), m),
    ensures
        coherent(c.push_morphism(m)),
{
    let d = c.push_morphism(m);
    let n = c.morphisms.len();
    assert forall|i: int| 0 <= i < d.morphisms.len() implies composite_agrees(d, #[trigger] d.morphisms[i]) by {
        if i < n {
            let mi = c.morphisms[i];
            assert(d.morphisms[i] == mi);
            assert(composite_agrees(c, mi));
            assert(c.morphism_registered(mi));
            if let KindView::Composed(ps) = mi.kind {
                assert(mi.id == MorphismKey::Composed(ps));
                assert forall|k: int| 0 <= k < ps.len() implies d.find_morphism(#[trigger] ps[k])
                    == c.find_morphism(ps[k]) by {
                    assert(c.has_morphism(ps[k]));
                    lemma_push_morphism_finds(c, m, ps[k]);
                }
                lemma_chain_effects_stable(c, d, ps);
                assert(ps.last() == ps[ps.len() - 1]);
                assert(d.find_morphism(ps[0]) == c.find_morphism(ps[0]));
                assert(d.find_morphism(ps[ps.len() - 1]) == c.find_morphism(ps[ps.len() - 1]));
            }
        } else {
            assert(d.morphisms[i] == m);
        }
    }
}

/// The shape a morphism of an identity kind has in a well-formed category.
proof fn lemma_identity_shape(c: CategoryView, k: MorphismKey)
    requires
        c.wf(),
        c.has_morphism(k),
        c.find_morphism(k).unwrap().kind is Identity,
    ensures
        c.find_morphism(k).unwrap().dom == c.find_morphism(k).unwrap().cod,
        c.find_morphism(k).unwrap().effects.len() == 0,
        k is Identity,
{
    let i = c.morphism_index(k);
    lemma_find_morphism(c, i);
    assert(c.morphism_registered(c.morphisms[i]));
}

/// Composition law: in a well-formed, coherent category, composing `f` with `g` (when
/// `f`'s codomain is `g`'s domain) gives a morphism from `f`'s domain to `g`'s codomain
/// whose effects are `f`'s outside `g`'s. An identity gives back the other morphism; two
/// other morphisms give the composite of their flattened parts. Every morphism that was
/// registered before is found unchanged, and the category stays well formed and coherent.
pub proof fn law_compose(c: CategoryView, f: MorphismKey, g: MorphismKey)
    requires
        c.wf(),
        coherent(c),
        spec_check_composable(c, f, g) is Ok,
    ensures
        ({
            let (d, r) = spec_compose(c, f, g);
            let mf = c.find_morphism(f).unwrap();
            let mg = c.find_morphism(g).unwrap();
            &&& r is Ok
            &&& d.wf()
            &&& coherent(d)
            &&& d.has_morphism(r->Ok_0)
            &&& d.find_morphism(r->Ok_0).unwrap().dom == mf.dom
            &&& d.find_morphism(r->Ok_0).unwrap().cod == mg.cod
            &&& d.find_morphism(r->Ok_0).unwrap().effects == mf.effects + mg.effects
            &&& (mf.kind is Identity ==> r == Ok::<MorphismKey, CategoryErrorView>(g))
            &&& (!(mf.kind is Identity) && mg.kind is Identity ==> r == Ok::<
                MorphismKey,
                CategoryErrorView,
            >(f))
            &&& (!(mf.kind is Identity) && !(mg.kind is Identity) ==> r == Ok::<
                MorphismKey,
                CategoryErrorView,
            >(composite_key(mf, mg)) && d.find_morphism(r->Ok_0).unwrap().kind
                == KindView::Composed(parts_of(mf) + parts_of(mg)))
            &&& forall|k: MorphismKey|
                c.has_morphism(k) ==> #[trigger] d.find_morphism(k) == c.find_morphism(k)
            &&& forall|k: MorphismKey|
                #[trigger] d.has_morphism(k) == (c.has_morphism(k) || k == r->Ok_0)
        }),
{
    lemma_compose_wf(c, f, g);
    let mf = c.find_morphism(f).unwrap();
    let mg = c.find_morphism(g).unwrap();
    let (d, r) = spec_compose(c, f, g);
    if mf.kind is Identity {
        lemma_identity_shape(c, f);
        assert(mf.effects + mg.effects =~= mg.effects);
    } else if mg.kind is Identity {
        lemma_identity_shape(c, g);
        assert(mf.effects + mg.effects =~= mf.effects);
    } else {
        let pf = parts_of(mf);
        let pg = parts_of(mg);
        let ps = pf + pg;
        let key = composite_key(mf, mg);
        lemma_parts_describe(c, f);
        lemma_parts_describe(c, g);
        lemma_chain_effects_concat(c, pf, pg);
        assert(ps[0] == pf[0]);
        assert(ps.last() == pg.last());
        if c.has_morphism(key) {
            let i = c.morphism_index(key);
            lemma_find_morphism(c, i);
            let mk = c.morphisms[i];
            assert(c.morphism_registered(mk));
            assert(mk.kind == KindView::Composed(ps));
            assert(composite_agrees(c, mk));
        } else {
            let m = MorphismView {
                id: key,
                dom: mf.dom,
                cod: mg.cod,
                kind: KindView::Composed(ps),
                effects: mf.effects + mg.effects,
            };
            assert(d == c.push_morphism(m));
            lemma_parts_of(c, f);
            lemma_parts_of(c, g);
            assert forall|k: int| 0 <= k < ps.len() implies d.find_morphism(#[trigger] ps[k])
                == c.find_morphism(ps[k]) by {
                if k < pf.len() {
                    assert(ps[k] == pf[k]);
                } else {
                    assert(ps[k] == pg[k - pf.len()]);
                }
                assert(ps[k] is Primitive);
                lemma_push_morphism_finds(c, m, ps[k]);
            }
            lemma_chain_effects_stable(c, d, ps);
            assert(ps.last() == ps[ps.len() - 1]);
            assert(d.find_morphism(ps[0]) == c.find_morphism(ps[0]));
            assert(d.find_morphism(ps[ps.len() - 1]) == c.find_morphism(ps[ps.len() - 1]));
            assert(composite_agrees(d, m));
            lemma_push_coherent(c, m);
            lemma_push_morphism_finds(c, m, key);
            assert forall|k: MorphismKey| c.has_morphism(k) implies #[trigger] d.find_morphism(k)
                == c.find_morphism(k) by {
                lemma_push_morphism_finds(c, m, k);
            }
            assert forall|k: MorphismKey| #[trigger] d.has_morphism(k) == (c.has_morphism(k) || k
                == key) by {
                lemma_push_morphism_finds(c, m, k);
            }
        }
    }
}

/// `(f ; g) ; h`: compose `f` with `g`, then the result with `h`.
pub open spec fn compose_left(c: CategoryView, f: MorphismKey, g: MorphismKey, h: MorphismKey) -> (CategoryView, Result<MorphismKey, CategoryErrorView>) {
    let (c1, r1) = spec_compose(c, f, g);
    match r1 {
        Ok(fg) => spec_compose(c1, fg, h),
        Err(e) => (c1, Err(e)),
    }
}

/// `f ; (g ; h)`: compose `g` with `h`, then `f` with the result.
pub open spec fn compose_right(c: CategoryView, f: MorphismKey, g: MorphismKey, h: MorphismKey) -> (CategoryView, Result<MorphismKey, CategoryErrorView>) {
    let (c1, r1) = spec_compose(c, g, h);
    match r1 {
        Ok(gh) => spec_compose(c1, f, gh),
        Err(e) => (c1, Err(e)),
    }
}

/// The common hypotheses of associativity: three registered morphisms in a row.
pub open spec fn chain_of_three(c: CategoryView, f: MorphismKey, g: MorphismKey, h: MorphismKey) -> bool {
    &&& c.wf()
    &&& coherent(c)
    &&& c.has_morphism(f)
    &&& c.has_morphism(g)
    &&& c.has_morphism(h)
    &&& c.find_morphism(f).unwrap().cod == c.find_morphism(g).unwrap().dom
    &&& c.find_morphism(g).unwrap().cod == c.find_morphism(h).unwrap().dom
}

/// What a side of associativity must end with: a well-formed, coherent category in
/// which the result leads from `f`'s domain to `h`'s codomain with all three effects.
pub open spec fn ends_as_chain(
    c: CategoryView,
    f: MorphismKey,
    g: MorphismKey,
    h: MorphismKey,
    side: (CategoryView, Result<MorphismKey, CategoryErrorView>),
) -> bool {
    let (d, r) = side;
    let mf = c.find_morphism(f).unwrap();
    let mg = c.find_morphism(g).unwrap();
    let mh = c.find_morphism(h).unwrap();
    &&& r is Ok
    &&& d.wf()
    &&& coherent(d)
    &&& d.find_morphism(r->Ok_0).unwrap().dom == mf.dom
    &&& d.find_morphism(r->Ok_0).unwrap().cod == mh.cod
    &&& d.find_morphism(r->Ok_0).unwrap().effects == mf.effects + mg.effects + mh.effects
}

/// The left side of associativity, `(f ; g) ; h`.
proof fn lemma_left_side(c: CategoryView, f: MorphismKey, g: MorphismKey, h: MorphismKey)
    requires
        chain_of_three(c, f, g, h),
    ensures
        ends_as_chain(c, f, g, h, compose_left(c, f, g, h)),
        spec_compose(c, f, g).1 is Ok,
        spec_compose(c, f, g).0.find_morphism(h) == c.find_morphism(h),
        spec_compose(c, f, g).0.find_morphism(spec_compose(c, f, g).1->Ok_0).unwrap().cod
            == c.find_morphism(g).unwrap().cod,
{
    law_compose(c, f, g);
    let (c1, r1) = spec_compose(c, f, g);
    let fg = r1->Ok_0;
    assert(c1.find_morphism(h) == c.find_morphism(h));
    law_compose(c1, fg, h);
}

/// The right side of associativity, `f ; (g ; h)`.
proof fn lemma_right_side(c: CategoryView, f: MorphismKey, g: MorphismKey, h: MorphismKey)
    requires
        chain_of_three(c, f, g, h),
    ensures
        ends_as_chain(c, f, g, h, compose_right(c, f, g, h)),
        spec_compose(c, g, h).1 is Ok,
        spec_compose(c, g, h).0.find_morphism(f) == c.find_morphism(f),
{
    let mf = c.find_morphism(f).unwrap();
    let mg = c.find_morphism(g).unwrap();
    let mh = c.find_morphism(h).unwrap();
    law_compose(c, g, h);
    let (c2, r2) = spec_compose(c, g, h);
    let gh = r2->Ok_0;
    assert(c2.find_morphism(f) == c.find_morphism(f));
    law_compose(c2, f, gh);
    assert(mf.effects + mg.effects + mh.effects == mf.effects + (mg.effects + mh.effects));
}

/// The two sides of associativity give the same identifier.
#[verifier::rlimit(40)]
proof fn lemma_sides_agree(c: CategoryView, f: MorphismKey, g: MorphismKey, h: MorphismKey)
    requires
        chain_of_three(c, f, g, h),
    ensures
        compose_left(c, f, g, h).1 == compose_right(c, f, g, h).1,
{
    let mf = c.find_morphism(f).unwrap();
    let mg = c.find_morphism(g).unwrap();
    let mh = c.find_morphism(h).unwrap();
    law_compose(c, f, g);
    law_compose(c, g, h);
    let (c1, r1) = spec_compose(c, f, g);
    let (c2, r2) = spec_compose(c, g, h);
    let fg = r1->Ok_0;
    let gh = r2->Ok_0;
    if mf.kind is Identity {
        assert(fg == g && c1 == c);
        assert(c2.find_morphism(f) == c.find_morphism(f));
        assert(spec_compose(c2, f, gh).1 == Ok::<MorphismKey, CategoryErrorView>(gh));
    } else if mg.kind is Identity {
        assert(fg == f && c1 == c);
        assert(gh == h && c2 == c);
    } else if mh.kind is Identity {
        assert(gh == g && c2 == c);
        assert(c1.find_morphism(h) == c.find_morphism(h));
        assert(c1.find_morphism(fg).unwrap().kind is Composed);
        assert(spec_compose(c1, fg, h).1 == Ok::<MorphismKey, CategoryErrorView>(fg));
    } else {
        let pf = parts_of(mf);
        let pg = parts_of(mg);
        let ph = parts_of(mh);
        assert(c1.find_morphism(h) == c.find_morphism(h));
        assert(c2.find_morphism(f) == c.find_morphism(f));
        let mfg = c1.find_morphism(fg).unwrap();
        let mgh = c2.find_morphism(gh).unwrap();
        assert(parts_of(mfg) == pf + pg);
        assert(parts_of(mgh) == pg + ph);
        assert(mfg.cod == mh.dom);
        assert(mf.cod == mgh.dom);
        assert(pf + pg + ph =~= pf + (pg + ph));
        assert(spec_compose(c1, fg, h).1 == Ok::<MorphismKey, CategoryErrorView>(
            MorphismKey::Composed(pf + pg + ph),
        ));
        assert(spec_compose(c2, f, gh).1 == Ok::<MorphismKey, CategoryErrorView>(
            MorphismKey::Composed(pf + (pg + ph)),
        ));
    }
}

/// Associativity: for `f: A -> B`, `g: B -> C`, `h: C -> D` in a well-formed, coherent
/// category, `(f ; g) ; h` and `f ; (g ; h)` are the same morphism, from `A` to `D`,
/// carrying the effects of `f`, `g` and `h` from the outside in.
pub proof fn law_compose_associative(c: CategoryView, f: MorphismKey, g: MorphismKey, h: MorphismKey)
    requires
        chain_of_three(c, f, g, h),
    ensures
        compose_left(c, f, g, h).1 is Ok,
        compose_left(c, f, g, h).1 == compose_right(c, f, g, h).1,
        ends_as_chain(c, f, g, h, compose_left(c, f, g, h)),
        ends_as_chain(c, f, g, h, compose_right(c, f, g, h)),
{
    lemma_left_side(c, f, g, h);
    lemma_right_side(c, f, g, h);
    lemma_sides_agree(c, f, g, h);
}

/// Unit laws: with `a` the domain and `b` the codomain of a registered `f`,
/// `identity(a) ; f` and `f ; identity(b)` are `f` itself, leaving the category as the
/// identity left it, so `f`'s domain, codomain and effects are untouched.
pub proof fn law_identity_units(c: CategoryView, f: MorphismKey)
    requires
        c.wf(),
        c.has_morphism(f),
    ensures
        ({
            let mf = c.find_morphism(f).unwrap();
            let (c1, i1) = spec_identity(c, mf.dom);
            let (c2, i2) = spec_identity(c, mf.cod);
            &&& i1 == Ok::<MorphismKey, CategoryErrorView>(MorphismKey::Identity(mf.dom))
            &&& i2 == Ok::<MorphismKey, CategoryErrorView>(MorphismKey::Identity(mf.cod))
            &&& spec_compose(c1, i1->Ok_0, f) == (c1, Ok::<MorphismKey, CategoryErrorView>(f))
            &&& spec_compose(c2, f, i2->Ok_0) == (c2, Ok::<MorphismKey, CategoryErrorView>(f))
            &&& c1.find_morphism(f) == Some(mf)
            &&& c2.find_morphism(f) == Some(mf)
        }),
{
    let mf = c.find_morphism(f).unwrap();
    let fi = c.morphism_index(f);
    lemma_find_morphism(c, fi);
    assert(c.morphism_registered(c.morphisms[fi]));
    lemma_identity_kind(c, mf.dom);
    lemma_identity_kind(c, mf.cod);
    let (c1, i1) = spec_identity(c, mf.dom);
    let (c2, i2) = spec_identity(c, mf.cod);
    let ka = MorphismKey::Identity(mf.dom);
    let kb = MorphismKey::Identity(mf.cod);
    if ka != f {
        assert(c1.find_morphism(f) == c.find_morphism(f));
    }
    if kb != f {
        assert(c2.find_morphism(f) == c.find_morphism(f));
    }
    assert(c1.find_morphism(ka).unwrap().kind is Identity);
    assert(c2.find_morphism(kb).unwrap().kind is Identity);
    if f == kb {
        assert(mf.kind is Identity);
    }
}

/// What `identity` registers: an identity-kind morphism from `obj` to `obj`, with every
/// other morphism found as before.
pub proof fn lemma_identity_kind(c: CategoryView, obj: Seq<char>)
    requires
        c.wf(),
        c.has_object(obj),
    ensures
        ({
            let (c1, r) = spec_identity(c, obj);
            let k = MorphismKey::Identity(obj);
            &&& r == Ok::<MorphismKey, CategoryErrorView>(k)
            &&& c1.wf()
            &&& c1.has_morphism(k)
            &&& c1.find_morphism(k).unwrap().kind is Identity
            &&& c1.find_morphism(k).unwrap().dom == obj
            &&& c1.find_morphism(k).unwrap().cod == obj
            &&& c1.find_morphism(k).unwrap().effects.len() == 0
            &&& forall|x: MorphismKey| x != k ==> #[trigger] c1.find_morphism(x) == c.find_morphism(x)
            &&& c1.objects == c.objects
        }),
{
    crate::category::lemma_identity_wf(c, obj);
    let k = MorphismKey::Identity(obj);
    let (c1, r) = spec_identity(c, obj);
    if c.has_morphism(k) {
        let i = c.morphism_index(k);
        lemma_find_morphism(c, i);
        assert(c.morphism_registered(c.morphisms[i]));
    } else {
        let m = MorphismView {
            id: k,
            dom: obj,
            cod: obj,
            kind: KindView::Identity,
            effects: Seq::empty(),
        };
        lemma_push_morphism_finds(c, m, k);
        assert forall|x: MorphismKey| x != k implies #[trigger] c1.find_morphism(x) == c.find_morphism(x) by {
            lemma_push_morphism_finds(c, m, x);
        }
    }
}

/// Identities are registered once per object: asking again gives the same identifier
/// and changes nothing.
pub proof fn law_identity_cached(c: CategoryView, obj: Seq<char>)
    requires
        c.wf(),
    ensures
        ({
            let (c1, r1) = spec_identity(c, obj);
            spec_identity(c1, obj) == (c1, r1)
        }),
{
    if c.has_object(obj) {
        lemma_identity_kind(c, obj);
    }
}

/// The empty category is well formed and coherent.
pub proof fn law_empty()
    ensures
        CategoryView::empty().wf(),
        coherent(CategoryView::empty()),
{
}

/// Coherence depends on the morphisms alone.
proof fn lemma_coherent_objects(c: CategoryView, d: CategoryView)
    requires
        coherent(c),
        c.morphisms == d.morphisms,
    ensures
        coherent(d),
{
    assert forall|i: int| 0 <= i < d.morphisms.len() implies composite_agrees(d, #[trigger] d.morphisms[i]) by {
        assert(composite_agrees(c, c.morphisms[i]));
        if let KindView::Composed(ps) = d.morphisms[i].kind {
            lemma_chain_effects_stable(c, d, ps);
        }
    }
}

/// `add_object` keeps a well-formed, coherent category coherent.
pub proof fn lemma_add_object_coherent(c: CategoryView, o: ObjectView)
    requires
        c.wf(),
        coherent(c),
    ensures
        coherent(spec_add_object(c, o).0),
{
    lemma_coherent_objects(c, spec_add_object(c, o).0);
}

/// `add_effectful_primitive_morphism` keeps a well-formed, coherent category coherent.
pub proof fn lemma_add_morphism_coherent(
    c: CategoryView,
    name: Seq<char>,
    dom: Seq<char>,
    cod: Seq<char>,
    effects: Seq<EffectView>,
)
    requires
        c.wf(),
        coherent(c),
    ensures
        coherent(spec_add_morphism(c, name, dom, cod, effects).0),
{
    let key = MorphismKey::Primitive(name);
    if spec_add_morphism(c, name, dom, cod, effects).1 is Ok {
        let m = MorphismView { id: key, dom, cod, kind: KindView::Primitive, effects };
        assert(spec_add_morphism(c, name, dom, cod, effects).0 == c.push_morphism(m));
        lemma_push_coherent(c, m);
    }
}

/// `identity` keeps a well-formed, coherent category coherent.
pub proof fn lemma_identity_coherent(c: CategoryView, obj: Seq<char>)
    requires
        c.wf(),
        coherent(c),
    ensures
        coherent(spec_identity(c, obj).0),
{
    let ki = MorphismKey::Identity(obj);
    if c.has_object(obj) && !c.has_morphism(ki) {
        let m = MorphismView {
            id: ki,
            dom: obj,
            cod: obj,
            kind: KindView::Identity,
            effects: Seq::empty(),
        };
        lemma_push_coherent(c, m);
    }
}

/// `compose` keeps a well-formed, coherent category coherent.
pub proof fn lemma_compose_coherent(c: CategoryView, f: MorphismKey, g: MorphismKey)
    requires
        c.wf(),
        coherent(c),
    ensures
        coherent(spec_compose(c, f, g).0),
{
    if spec_check_composable(c, f, g) is Ok {
        law_compose(c, f, g);
    }
}

/// Every operation keeps a well-formed category well formed and coherent.
pub proof fn law_operations_keep_coherence(
    c: CategoryView,
    o: ObjectView,
    name: Seq<char>,
    dom: Seq<char>,
    cod: Seq<char>,
    effects: Seq<EffectView>,
    obj: Seq<char>,
    f: MorphismKey,
    g: MorphismKey,
)
    requires
        c.wf(),
        coherent(c),
    ensures
        spec_add_object(c, o).0.wf() && coherent(spec_add_object(c, o).0),
        spec_add_morphism(c, name, dom, cod, effects).0.wf() && coherent(spec_add_morphism(c, name, dom, cod, effects).0),
        spec_identity(c, obj).0.wf() && coherent(spec_identity(c, obj).0),
        spec_compose(c, f, g).0.wf() && coherent(spec_compose(c, f, g).0),
{
    crate::category::lemma_add_object_wf(c, o);
    lemma_add_object_coherent(c, o);
    crate::category::lemma_add_morphism_wf(c, name, dom, cod, effects);
    lemma_add_morphism_coherent(c, name, dom, cod, effects);
    crate::category::lemma_identity_wf(c, obj);
    lemma_identity_coherent(c, obj);
    lemma_compose_wf(c, f, g);
    lemma_compose_coherent(c, f, g);
}

/// Whether `d` finds the object `x` and the morphism `k` as `c` does, where `c` has them.
pub open spec fn keeps(c: CategoryView, d: CategoryView, x: Seq<char>, k: MorphismKey) -> bool {
    &&& c.has_object(x) ==> d.find_object(x) == c.find_object(x)
    &&& c.has_morphism(k) ==> d.find_morphism(k) == c.find_morphism(k)
}

/// Whether the morphism handed out as `r` is registered under itself in `d`.
pub open spec fn handed_out(d: CategoryView, r: Result<MorphismKey, CategoryErrorView>) -> bool {
    r matches Ok(key) ==> (d.find_morphism(key) matches Some(m) && m.id == key)
}

/// Nothing registered is lost or changed: after any operation on a well-formed category
/// every object and every morphism registered before is found as before, and the
/// identifier an operation hands out is registered under itself. Chained, an identifier
/// once handed out stays registered under itself through every later operation.
pub proof fn law_lookups_persist(
    c: CategoryView,
    o: ObjectView,
    name: Seq<char>,
    dom: Seq<char>,
    cod: Seq<char>,
    effects: Seq<EffectView>,
    obj: Seq<char>,
    f: MorphismKey,
    g: MorphismKey,
    x: Seq<char>,
    k: MorphismKey,
)
    requires
        c.wf(),
    ensures
        keeps(c, spec_add_object(c, o).0, x, k),
        spec_add_object(c, o).1 is Ok ==> spec_add_object(c, o).0.find_object(o.id) == Some(o),
        keeps(c, spec_add_morphism(c, name, dom, cod, effects).0, x, k),
        handed_out(spec_add_morphism(c, name, dom, cod, effects).0, spec_add_morphism(c, name, dom, cod, effects).1),
        keeps(c, spec_identity(c, obj).0, x, k),
        handed_out(spec_identity(c, obj).0, spec_identity(c, obj).1),
        keeps(c, spec_compose(c, f, g).0, x, k),
        handed_out(spec_compose(c, f, g).0, spec_compose(c, f, g).1),
{
    if !c.has_object(o.id) {
        crate::category::lemma_push_object_finds(c, o, x);
        crate::category::lemma_push_object_finds(c, o, o.id);
        assert(c.push_object(o).morphisms == c.morphisms);
    }
    let key = MorphismKey::Primitive(name);
    let m = MorphismView { id: key, dom, cod, kind: KindView::Primitive, effects };
    if !c.has_morphism(key) {
        lemma_push_morphism_finds(c, m, k);
        lemma_push_morphism_finds(c, m, key);
    }
    let ki = MorphismKey::Identity(obj);
    let mi = MorphismView { id: ki, dom: obj, cod: obj, kind: KindView::Identity, effects: Seq::empty() };
    if !c.has_morphism(ki) {
        lemma_push_morphism_finds(c, mi, k);
        lemma_push_morphism_finds(c, mi, ki);
    }
    let (d, r) = spec_compose(c, f, g);
    if spec_check_composable(c, f, g) is Ok {
        let mf = c.find_morphism(f).unwrap();
        let mg = c.find_morphism(g).unwrap();
        if !(mf.kind is Identity) && !(mg.kind is Identity) {
            let kc = composite_key(mf, mg);
            if !c.has_morphism(kc) {
                let mc = MorphismView {
                    id: kc,
                    dom: mf.dom,
                    cod: mg.cod,
                    kind: KindView::Composed(parts_of(mf) + parts_of(mg)),
                    effects: mf.effects + mg.effects,
                };
                lemma_push_morphism_finds(c, mc, k);
                lemma_push_morphism_finds(c, mc, kc);
            }
        }
    }
}

/// Reading after writing: a registered object is found under its identifier, and
/// every other object is found as before.
pub proof fn law_add_object_then_find(c: CategoryView, o: ObjectView, id: Seq<char>)
    requires
        c.wf(),
        spec_add_object(c, o).1 is Ok,
    ensures
        spec_add_object(c, o).0.find_object(o.id) == Some(o),
        id != o.id ==> spec_add_object(c, o).0.find_object(id) == c.find_object(id),
{
    crate::category::lemma_push_object_finds(c, o, id);
}

/// Reading after writing: a registered primitive is found under its name with the
/// given endpoints and effects, and every other morphism is found as before.
pub proof fn law_add_morphism_then_find(
    c: CategoryView,
    name: Seq<char>,
    dom: Seq<char>,
    cod: Seq<char>,
    effects: Seq<EffectView>,
    k: MorphismKey,
)
    requires
        c.wf(),
        spec_add_morphism(c, name, dom, cod, effects).1 is Ok,
    ensures
        spec_add_morphism(c, name, dom, cod, effects).0.find_morphism(
            MorphismKey::Primitive(name),
        ) == Some(
            MorphismView {
                id: MorphismKey::Primitive(name),
                dom,
                cod,
                kind: KindView::Primitive,
                effects,
            },
        ),
        k != MorphismKey::Primitive(name) ==> spec_add_morphism(c, name, dom, cod, effects).0.find_morphism(k)
            == c.find_morphism(k),
{
    let key = MorphismKey::Primitive(name);
    let m = MorphismView { id: key, dom, cod, kind: KindView::Primitive, effects };
    crate::category::lemma_add_morphism_wf(c, name, dom, cod, effects);
    lemma_push_morphism_finds(c, m, k);
    lemma_push_morphism_finds(c, m, key);
}

/// `check_composable` refuses exactly what `compose` refuses, with the same error.
pub proof fn law_check_matches_compose(c: CategoryView, f: MorphismKey, g: MorphismKey)
    ensures
        spec_check_composable(c, f, g) is Ok <==> spec_compose(c, f, g).1 is Ok,
        spec_check_composable(c, f, g) matches Err(e) ==> spec_compose(c, f, g) == (
        c,
        Err::<MorphismKey, CategoryErrorView>(e),
        ),
{
}

/// `unhandled` lists exactly the names of the variants no morphism consumes.
pub proof fn lemma_unhandled(c: CategoryView, vs: Seq<(Seq<char>, Seq<char>)>)
    ensures
        unhandled(c, vs).len() == 0 <==> forall|k: int| 0 <= k < vs.len() ==> handled(c, (#[trigger] vs[k]).1),
        forall|name: Seq<char>|
            #[trigger] unhandled(c, vs).contains(name) <==> exists|k: int|
                0 <= k < vs.len() && (#[trigger] vs[k]).0 == name && !handled(c, vs[k].1),
    decreases vs.len(),
{
    if vs.len() > 0 {
        let n = vs.len() - 1;
        let rest = vs.subrange(0, n as int);
        lemma_unhandled(c, rest);
        assert forall|k: int| 0 <= k < rest.len() implies #[trigger] rest[k] == vs[k] by {}
        let u = unhandled(c, vs);
        let ur = unhandled(c, rest);
        if handled(c, vs[n].1) {
            assert(u == ur);
            assert forall|name: Seq<char>| #[trigger] u.contains(name) <==> exists|k: int|
                0 <= k < vs.len() && (#[trigger] vs[k]).0 == name && !handled(c, vs[k].1) by {
                if exists|k: int| 0 <= k < vs.len() && (#[trigger] vs[k]).0 == name && !handled(c, vs[k].1) {
                    let k = choose|k: int| 0 <= k < vs.len() && (#[trigger] vs[k]).0 == name && !handled(c, vs[k].1);
                    assert(k < n);
                    assert(rest[k] == vs[k]);
                }
                if u.contains(name) {
                    let k = choose|k: int| 0 <= k < rest.len() && (#[trigger] rest[k]).0 == name && !handled(c, rest[k].1);
                    assert(vs[k] == rest[k]);
                }
            }
            if ur.len() == 0 {
                assert forall|k: int| 0 <= k < vs.len() implies handled(c, (#[trigger] vs[k]).1) by {
                    if k < n {
                        assert(rest[k] == vs[k]);
                    }
                }
            }
        } else {
            assert(u == ur.push(vs[n].0));
            assert(u.len() > 0);
            assert(!handled(c, vs[n as int].1));
            assert forall|name: Seq<char>| #[trigger] u.contains(name) <==> exists|k: int|
                0 <= k < vs.len() && (#[trigger] vs[k]).0 == name && !handled(c, vs[k].1) by {
                if exists|k: int| 0 <= k < vs.len() && (#[trigger] vs[k]).0 == name && !handled(c, vs[k].1) {
                    let k = choose|k: int| 0 <= k < vs.len() && (#[trigger] vs[k]).0 == name && !handled(c, vs[k].1);
                    if k < n {
                        assert(rest[k] == vs[k]);
                        assert(ur.contains(name));
                        let i = choose|i: int| 0 <= i < ur.len() && ur[i] == name;
                        assert(u[i] == name);
                    } else {
                        assert(u[ur.len() as int] == name);
                    }
                }
                if u.contains(name) {
                    let i = choose|i: int| 0 <= i < u.len() && u[i] == name;
                    if i < ur.len() {
                        assert(ur[i] == name);
                        assert(ur.contains(name));
                        let k = choose|k: int| 0 <= k < rest.len() && (#[trigger] rest[k]).0 == name && !handled(c, rest[k].1);
                        assert(vs[k] == rest[k]);
                    } else {
                        assert(vs[n as int].0 == name);
                    }
                }
            }
        }
    }
}

/// The variants of the coproduct registered under `cp`, if it is one.
pub open spec fn coproduct_variants(c: CategoryView, cp: Seq<char>) -> Option<Seq<(Seq<char>, Seq<char>)>> {
    match c.find_object(cp) {
        Some(o) => match o.kind {
            ObjectShape::Coproduct(vs) => Some(vs),
            _ => None,
        },
        None => None,
    }
}

/// Whether `cp` is a registered coproduct whose every variant some morphism consumes.
pub open spec fn fully_covered(c: CategoryView, cp: Seq<char>) -> bool {
    match coproduct_variants(c, cp) {
        Some(vs) => forall|k: int| 0 <= k < vs.len() ==> handled(c, (#[trigger] vs[k]).1),
        None => false,
    }
}

/// Coverage: `check_coproduct_coverage` succeeds exactly on a registered coproduct whose
/// every variant is the domain of some morphism.
pub proof fn law_coverage(c: CategoryView, cp: Seq<char>)
    ensures
        spec_check_coverage(c, cp) is Ok <==> fully_covered(c, cp),
{
    match coproduct_variants(c, cp) {
        Some(vs) => {
            lemma_unhandled(c, vs);
            let o = c.find_object(cp).unwrap();
            assert(o.kind == ObjectShape::Coproduct(vs));
            assert(spec_check_coverage(c, cp) is Ok <==> unhandled(c, vs).len() == 0);
        },
        None => {
            if let Some(o) = c.find_object(cp) {
                assert(!(o.kind is Coproduct));
            }
        },
    }
}

/// On a registered coproduct that is not fully covered, the check reports exactly the
/// variants no morphism consumes.
pub proof fn law_coverage_reports(c: CategoryView, cp: Seq<char>, vs: Seq<(Seq<char>, Seq<char>)>)
    requires
        coproduct_variants(c, cp) == Some(vs),
        !fully_covered(c, cp),
    ensures
        spec_check_coverage(c, cp) == Err::<(), CategoryErrorView>(
            CategoryErrorView::UnhandledCoproductVariants {
                coproduct: cp,
                missing_variants: unhandled(c, vs),
            },
        ),
        forall|name: Seq<char>|
            #[trigger] unhandled(c, vs).contains(name) <==> exists|k: int|
                0 <= k < vs.len() && (#[trigger] vs[k]).0 == name && !handled(c, vs[k].1),
{
    lemma_unhandled(c, vs);
}

/// The notation of the effects of a composite nests the first morphism's layers
/// outside the second's; a pure stack renders its payload unchanged.
pub proof fn law_render_nests(a: Seq<EffectView>, b: Seq<EffectView>, payload: Seq<char>)
    ensures
        render_layers(a + b, payload) == render_layers(a, render_layers(b, payload)),
        render_layers(Seq::<EffectView>::empty(), payload) == payload,
    decreases a.len(),
{
    if a.len() > 0 {
        law_render_nests(a.drop_first(), b, payload);
        assert((a + b).drop_first() =~= a.drop_first() + b);
        assert((a + b)[0] == a[0]);
    } else {
        assert(a + b =~= b);
    }
}

/// Merging effect stacks is associative, and the pure stack is its unit.
pub proof fn law_effects_monoid(a: Seq<EffectView>, b: Seq<EffectView>, d: Seq<EffectView>)
    ensures
        (a + b) + d == a + (b + d),
        a + Seq::<EffectView>::empty() == a,
        Seq::<EffectView>::empty() + a == a,
{
    assert((a + b) + d =~= a + (b + d));
    assert(a + Seq::<EffectView>::empty() =~= a);
    assert(Seq::<EffectView>::empty() + a =~= a);
}


/// The variants of `vs` left unhandled in `c` once a morphism from `obj` is added: the
/// names of those whose object is neither handled in `c` nor `obj`.
pub open spec fn unhandled_except(c: CategoryView, vs: Seq<(Seq<char>, Seq<char>)>, obj: Seq<char>) -> Seq<Seq<char>>
    decreases vs.len(),
{
    if vs.len() == 0 {
        Seq::empty()
    } else {
        let last = vs.last();
        let rest = unhandled_except(c, vs.drop_last(), obj);
        if handled(c, last.1) || last.1 == obj {
            rest
        } else {
            rest.push(last.0)
        }
    }
}

proof fn lemma_unhandled_except(c: CategoryView, d: CategoryView, vs: Seq<(Seq<char>, Seq<char>)>, obj: Seq<char>)
    requires
        forall|x: Seq<char>| #[trigger] handled(d, x) == (handled(c, x) || x == obj),
    ensures
        unhandled(d, vs) == unhandled_except(c, vs, obj),
        unhandled_except(c, vs, obj).len() <= unhandled(c, vs).len(),
        forall|n: Seq<char>| #[trigger] unhandled_except(c, vs, obj).contains(n) ==> unhandled(c, vs).contains(n),
    decreases vs.len(),
{
    if vs.len() > 0 {
        let q = vs.drop_last();
        lemma_unhandled_except(c, d, q, obj);
        let last = vs.last();
        assert(handled(d, last.1) == (handled(c, last.1) || last.1 == obj));
        let e = unhandled_except(c, vs, obj);
        let u = unhandled(c, vs);
        assert forall|n: Seq<char>| #[trigger] e.contains(n) implies u.contains(n) by {
            let i = choose|i: int| 0 <= i < e.len() && e[i] == n;
            if i < unhandled_except(c, q, obj).len() {
                assert(unhandled_except(c, q, obj)[i] == n);
                assert(unhandled_except(c, q, obj).contains(n));
                assert(unhandled(c, q).contains(n));
                let j = choose|j: int| 0 <= j < unhandled(c, q).len() && unhandled(c, q)[j] == n;
                assert(u[j] == n);
            } else {
                assert(u[u.len() - 1] == n);
            }
        }
    }
}

/// Adding a morphism can only shrink what coverage reports: the variants left
/// unhandled are those that were, minus the ones whose object is the new morphism's
/// domain; so a covered coproduct stays covered.
pub proof fn law_add_morphism_coverage(
    c: CategoryView,
    name: Seq<char>,
    dom: Seq<char>,
    cod: Seq<char>,
    effects: Seq<EffectView>,
    vs: Seq<(Seq<char>, Seq<char>)>,
    cp: Seq<char>,
)
    requires
        c.wf(),
        spec_add_morphism(c, name, dom, cod, effects).1 is Ok,
    ensures
        unhandled(spec_add_morphism(c, name, dom, cod, effects).0, vs) == unhandled_except(c, vs, dom),
        unhandled_except(c, vs, dom).len() <= unhandled(c, vs).len(),
        forall|n: Seq<char>| #[trigger] unhandled_except(c, vs, dom).contains(n) ==> unhandled(c, vs).contains(n),
        spec_check_coverage(c, cp) is Ok ==> spec_check_coverage(spec_add_morphism(c, name, dom, cod, effects).0, cp) is Ok,
{
    let m = MorphismView { id: MorphismKey::Primitive(name), dom, cod, kind: KindView::Primitive, effects };
    let d = spec_add_morphism(c, name, dom, cod, effects).0;
    assert(d == c.push_morphism(m));
    assert forall|x: Seq<char>| #[trigger] handled(d, x) == (handled(c, x) || x == dom) by {
        if handled(c, x) {
            let i = choose|i: int| 0 <= i < c.morphisms.len() && (#[trigger] c.morphisms[i]).dom == x;
            assert(d.morphisms[i] == c.morphisms[i]);
        }
        if x == dom {
            assert(d.morphisms[c.morphisms.len() as int] == m);
        }
        if handled(d, x) && x != dom {
            let i = choose|i: int| 0 <= i < d.morphisms.len() && (#[trigger] d.morphisms[i]).dom == x;
            assert(i < c.morphisms.len());
            assert(c.morphisms[i] == d.morphisms[i]);
        }
    }
    lemma_unhandled_except(c, d, vs, dom);
    assert(d.objects == c.objects);
    if let Some(o) = c.find_object(cp) {
        assert(d.find_object(cp) == c.find_object(cp));
        if let ObjectShape::Coproduct(variants) = o.kind {
            lemma_unhandled_except(c, d, variants, dom);
        }
    } else {
        assert(d.find_object(cp) == c.find_object(cp));
    }
}

/// What a key stands for in `c`: a morphism other than an identity, registered under
/// the key, from `a` to `b`, whose parts are `ks`; a key of two or more parts is the
/// composite of those parts.
pub open spec fn stands_for(c: CategoryView, key: MorphismKey, ks: Seq<MorphismKey>, a: Seq<char>, b: Seq<char>) -> bool {
    &&& c.find_morphism(key) is Some
    &&& c.find_morphism(key)->Some_0.id == key
    &&& !(c.find_morphism(key)->Some_0.kind is Identity)
    &&& parts_of(c.find_morphism(key)->Some_0) == ks
    &&& c.find_morphism(key)->Some_0.dom == a
    &&& c.find_morphism(key)->Some_0.cod == b
    &&& ks.len() >= 2 ==> key == MorphismKey::Composed(ks)
}

/// Whether the primitives `ks` form a chain through the objects `objs`: the `i`-th goes
/// from `objs[i]` to `objs[i + 1]`.
pub open spec fn primitive_chain(c: CategoryView, ks: Seq<MorphismKey>, objs: Seq<Seq<char>>) -> bool {
    &&& objs.len() == ks.len() + 1
    &&& forall|i: int|
        0 <= i < ks.len() ==> #[trigger] c.find_morphism(ks[i]) == Some(
            MorphismView {
                id: ks[i],
                dom: objs[i],
                cod: objs[i + 1],
                kind: KindView::Primitive,
                effects: c.find_morphism(ks[i])->Some_0.effects,
            },
        )
}

/// Composing `acc` with each key of `rest` in turn, from the left.
pub open spec fn fold_left(c: CategoryView, acc: MorphismKey, rest: Seq<MorphismKey>) -> (CategoryView, Result<MorphismKey, CategoryErrorView>)
    decreases rest.len(),
{
    if rest.len() == 0 {
        (c, Ok(acc))
    } else {
        let s = spec_compose(c, acc, rest[0]);
        match s.1 {
            Err(e) => (s.0, Err(e)),
            Ok(k) => fold_left(s.0, k, rest.drop_first()),
        }
    }
}

/// Composing each key of `rest`, from the last, with `acc`: a fold from the right.
pub open spec fn fold_right(c: CategoryView, rest: Seq<MorphismKey>, acc: MorphismKey) -> (CategoryView, Result<MorphismKey, CategoryErrorView>)
    decreases rest.len(),
{
    if rest.len() == 0 {
        (c, Ok(acc))
    } else {
        let s = spec_compose(c, rest.last(), acc);
        match s.1 {
            Err(e) => (s.0, Err(e)),
            Ok(k) => fold_right(s.0, rest.drop_last(), k),
        }
    }
}

proof fn lemma_compose_step(
    c: CategoryView,
    f: MorphismKey,
    g: MorphismKey,
    ks1: Seq<MorphismKey>,
    ks2: Seq<MorphismKey>,
    a: Seq<char>,
    b: Seq<char>,
    d: Seq<char>,
)
    requires
        c.wf(),
        coherent(c),
        stands_for(c, f, ks1, a, b),
        stands_for(c, g, ks2, b, d),
    ensures
        spec_compose(c, f, g).1 == Ok::<MorphismKey, CategoryErrorView>(MorphismKey::Composed(ks1 + ks2)),
        stands_for(spec_compose(c, f, g).0, MorphismKey::Composed(ks1 + ks2), ks1 + ks2, a, d),
        spec_compose(c, f, g).0.wf(),
        coherent(spec_compose(c, f, g).0),
        forall|k: MorphismKey| c.has_morphism(k) ==> #[trigger] spec_compose(c, f, g).0.find_morphism(k) == c.find_morphism(k),
{
    law_compose(c, f, g);
    let (dc, r) = spec_compose(c, f, g);
    let key = MorphismKey::Composed(ks1 + ks2);
    assert(dc.has_morphism(key));
    let i = choose|i: int| 0 <= i < dc.morphisms.len() && (#[trigger] dc.morphisms[i]).id == key;
    assert(dc.find_morphism(key)->Some_0.id == key);
    assert((ks1 + ks2).len() >= 2) by {
        let mf = c.find_morphism(f)->Some_0;
        let mg = c.find_morphism(g)->Some_0;
        assert(parts_of(mf).len() >= 1);
        assert(parts_of(mg).len() >= 1);
    }
}

proof fn lemma_fold_left(c: CategoryView, acc: MorphismKey, pre: Seq<MorphismKey>, rest: Seq<MorphismKey>, objs: Seq<Seq<char>>)
    requires
        c.wf(),
        coherent(c),
        objs.len() == pre.len() + rest.len() + 1,
        stands_for(c, acc, pre, objs[0], objs[pre.len() as int]),
        forall|i: int|
            0 <= i < rest.len() ==> stands_for(
                c,
                #[trigger] rest[i],
                seq![rest[i]],
                objs[pre.len() + i],
                objs[pre.len() + i + 1],
            ),
    ensures
        fold_left(c, acc, rest).1 is Ok,
        stands_for(fold_left(c, acc, rest).0, fold_left(c, acc, rest).1->Ok_0, pre + rest, objs[0], objs.last()),
    decreases rest.len(),
{
    if rest.len() == 0 {
        assert(pre + rest =~= pre);
    } else {
        let p = pre.len() as int;
        let r0 = rest[0];
        assert(stands_for(c, r0, seq![r0], objs[p], objs[p + 1]));
        lemma_compose_step(c, acc, r0, pre, seq![r0], objs[0], objs[p], objs[p + 1]);
        let s = spec_compose(c, acc, r0);
        let pre2 = pre + seq![r0];
        let rest2 = rest.drop_first();
        assert forall|i: int| 0 <= i < rest2.len() implies stands_for(
            s.0,
            #[trigger] rest2[i],
            seq![rest2[i]],
            objs[pre2.len() + i],
            objs[pre2.len() + i + 1],
        ) by {
            assert(rest2[i] == rest[i + 1]);
            assert(stands_for(c, rest[i + 1], seq![rest[i + 1]], objs[p + i + 1], objs[p + i + 2]));
            assert(c.has_morphism(rest2[i]));
        }
        lemma_fold_left(s.0, MorphismKey::Composed(pre2), pre2, rest2, objs);
        assert(pre2 + rest2 =~= pre + rest);
    }
}

proof fn lemma_fold_right(c: CategoryView, rest: Seq<MorphismKey>, acc: MorphismKey, post: Seq<MorphismKey>, objs: Seq<Seq<char>>)
    requires
        c.wf(),
        coherent(c),
        objs.len() == rest.len() + post.len() + 1,
        stands_for(c, acc, post, objs[rest.len() as int], objs.last()),
        forall|i: int| 0 <= i < rest.len() ==> stands_for(c, #[trigger] rest[i], seq![rest[i]], objs[i], objs[i + 1]),
    ensures
        fold_right(c, rest, acc).1 is Ok,
        stands_for(fold_right(c, rest, acc).0, fold_right(c, rest, acc).1->Ok_0, rest + post, objs[0], objs.last()),
    decreases rest.len(),
{
    if rest.len() == 0 {
        assert(rest + post =~= post);
    } else {
        let n = rest.len() as int;
        let rl = rest.last();
        assert(stands_for(c, rl, seq![rl], objs[n - 1], objs[n]));
        lemma_compose_step(c, rl, acc, seq![rl], post, objs[n - 1], objs[n], objs.last());
        let s = spec_compose(c, rl, acc);
        let post2 = seq![rl] + post;
        let rest2 = rest.drop_last();
        assert forall|i: int| 0 <= i < rest2.len() implies stands_for(s.0, #[trigger] rest2[i], seq![rest2[i]], objs[i], objs[i + 1]) by {
            assert(rest2[i] == rest[i]);
            assert(stands_for(c, rest[i], seq![rest[i]], objs[i], objs[i + 1]));
            assert(c.has_morphism(rest2[i]));
        }
        lemma_fold_right(s.0, rest2, MorphismKey::Composed(post2), post2, objs);
        assert(rest2 + post2 =~= rest + post);
    }
}

/// Associativity for chains of any length: for primitives `ks` (two or more) forming a
/// chain through `objs` in a well-formed, coherent category, composing them from the
/// left and composing them from the right both succeed and give the same morphism,
/// the composite of `ks`, from the first object to the last.
pub proof fn law_chain_associative(c: CategoryView, ks: Seq<MorphismKey>, objs: Seq<Seq<char>>)
    requires
        c.wf(),
        coherent(c),
        ks.len() >= 2,
        primitive_chain(c, ks, objs),
    ensures
        fold_left(c, ks[0], ks.drop_first()).1 == Ok::<MorphismKey, CategoryErrorView>(MorphismKey::Composed(ks)),
        fold_right(c, ks.drop_last(), ks.last()).1 == Ok::<MorphismKey, CategoryErrorView>(MorphismKey::Composed(ks)),
        stands_for(fold_left(c, ks[0], ks.drop_first()).0, MorphismKey::Composed(ks), ks, objs[0], objs.last()),
        stands_for(fold_right(c, ks.drop_last(), ks.last()).0, MorphismKey::Composed(ks), ks, objs[0], objs.last()),
{
    assert forall|i: int| 0 <= i < ks.len() implies stands_for(c, #[trigger] ks[i], seq![ks[i]], objs[i], objs[i + 1]) by {
        assert(c.find_morphism(ks[i]) == Some(
            MorphismView {
                id: ks[i],
                dom: objs[i],
                cod: objs[i + 1],
                kind: KindView::Primitive,
                effects: c.find_morphism(ks[i])->Some_0.effects,
            },
        ));
    }
    let first = seq![ks[0]];
    let rest = ks.drop_first();
    assert(stands_for(c, ks[0], first, objs[0], objs[1]));
    assert forall|i: int| 0 <= i < rest.len() implies stands_for(
        c,
        #[trigger] rest[i],
        seq![rest[i]],
        objs[first.len() + i],
        objs[first.len() + i + 1],
    ) by {
        assert(rest[i] == ks[i + 1]);
    }
    lemma_fold_left(c, ks[0], first, rest, objs);
    assert(first + rest =~= ks);
    let last = seq![ks.last()];
    let init = ks.drop_last();
    let n = ks.len() as int;
    assert(stands_for(c, ks[n - 1], seq![ks[n - 1]], objs[n - 1], objs[n]));
    assert forall|i: int| 0 <= i < init.len() implies stands_for(c, #[trigger] init[i], seq![init[i]], objs[i], objs[i + 1]) by {
        assert(init[i] == ks[i]);
    }
    lemma_fold_right(c, init, ks.last(), last, objs);
    assert(init + last =~= ks);
}

/// Composing again is a lookup: once `compose(f, g)` has succeeded on a well-formed,
/// coherent category, a second call returns the same identifier and changes nothing.
pub proof fn law_compose_again(c: CategoryView, f: MorphismKey, g: MorphismKey)
    requires
        c.wf(),
        coherent(c),
        spec_compose(c, f, g).1 is Ok,
    ensures
        spec_compose(spec_compose(c, f, g).0, f, g) == spec_compose(c, f, g),
{
    law_compose(c, f, g);
    let (d, r) = spec_compose(c, f, g);
    assert(c.has_morphism(f));
    assert(c.has_morphism(g));
    assert(d.find_morphism(f) == c.find_morphism(f));
    assert(d.find_morphism(g) == c.find_morphism(g));
    let mf = c.find_morphism(f)->Some_0;
    let mg = c.find_morphism(g)->Some_0;
    if !(mf.kind is Identity) && !(mg.kind is Identity) {
        assert(d.has_morphism(composite_key(mf, mg)));
        if c.has_morphism(composite_key(mf, mg)) {
            assert(d == c);
        }
    }
}

} // verus!
