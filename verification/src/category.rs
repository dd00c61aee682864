//! A category: a collection of objects and morphisms, with composition and
//! the checks that keep its types consistent.

use vstd::prelude::*;
use vstd::std_specs::iter::IteratorSpec;

use crate::effect::{Effect, EffectStack, EffectView};
use crate::morphism::{
    clone_ids, key_of, keys_of, lemma_keys_of, render_key, KindView, Morphism, MorphismId,
    MorphismKey, MorphismKind, MorphismView,
};
use crate::name::IntoName;
use crate::object::{members_view, Object, ObjectId, ObjectKind, ObjectShape, ObjectView};

verus! {

/// Why an operation on a category failed.
#[derive(Debug, PartialEq, Eq)]
pub enum CategoryError {
    /// The object is not registered.
    UnknownObject(String),
    /// The morphism is not registered.
    UnknownMorphism(String),
    /// `f`'s codomain is not `g`'s domain, so `f` and `g` do not compose.
    DomCodMismatch { f: String, f_cod: String, g: String, g_dom: String },
    /// An object with this identifier is already registered.
    DuplicateObject(ObjectId),
    /// A morphism with this identifier is already registered.
    DuplicateMorphism(MorphismId),
    /// The object is not a coproduct.
    NotACoproduct(ObjectId),
    /// Some variants of the coproduct have no morphism that consumes them.
    UnhandledCoproductVariants { coproduct: ObjectId, missing_variants: Vec<String> },
}

/// Mathematical view of [`CategoryError`].
pub enum CategoryErrorView {
    UnknownObject(Seq<char>),
    UnknownMorphism(Seq<char>),
    DomCodMismatch { f: Seq<char>, f_cod: Seq<char>, g: Seq<char>, g_dom: Seq<char> },
    DuplicateObject(Seq<char>),
    DuplicateMorphism(MorphismKey),
    NotACoproduct(Seq<char>),
    UnhandledCoproductVariants { coproduct: Seq<char>, missing_variants: Seq<Seq<char>> },
}

/// The views of a list of strings.
pub open spec fn strings_view(v: Seq<String>) -> Seq<Seq<char>> {
    v.map_values(|s: String| s@)
}

impl View for CategoryError {
    type V = CategoryErrorView;

    open spec fn view(&self) -> CategoryErrorView {
        match self {
            CategoryError::UnknownObject(s) => CategoryErrorView::UnknownObject(s@),
            CategoryError::UnknownMorphism(s) => CategoryErrorView::UnknownMorphism(s@),
            CategoryError::DomCodMismatch { f, f_cod, g, g_dom } => CategoryErrorView::DomCodMismatch {
                f: f@,
                f_cod: f_cod@,
                g: g@,
                g_dom: g_dom@,
            },
            CategoryError::DuplicateObject(o) => CategoryErrorView::DuplicateObject(o@),
            CategoryError::DuplicateMorphism(m) => CategoryErrorView::DuplicateMorphism(m@),
            CategoryError::NotACoproduct(o) => CategoryErrorView::NotACoproduct(o@),
            CategoryError::UnhandledCoproductVariants { coproduct, missing_variants } =>
                CategoryErrorView::UnhandledCoproductVariants {
                coproduct: coproduct@,
                missing_variants: strings_view(missing_variants@),
            },
        }
    }
}

/// The outcome of an operation that yields an object identifier, as views.
pub open spec fn id_outcome(r: Result<ObjectId, CategoryError>) -> Result<Seq<char>, CategoryErrorView> {
    match r {
        Ok(x) => Ok(x@),
        Err(e) => Err(e@),
    }
}

/// The outcome of an operation that yields a morphism identifier, as views.
pub open spec fn key_outcome(r: Result<MorphismId, CategoryError>) -> Result<MorphismKey, CategoryErrorView> {
    match r {
        Ok(x) => Ok(x@),
        Err(e) => Err(e@),
    }
}

/// The outcome of a check, as views.
pub open spec fn check_outcome(r: Result<(), CategoryError>) -> Result<(), CategoryErrorView> {
    match r {
        Ok(()) => Ok(()),
        Err(e) => Err(e@),
    }
}

/// Mathematical view of a [`Category`]: its objects and morphisms in order of registration.
pub struct CategoryView {
    pub objects: Seq<ObjectView>,
    pub morphisms: Seq<MorphismView>,
}

/// Whether `m` has a shape that agrees with its identifier.
pub open spec fn shape_agrees(m: MorphismView) -> bool {
    match m.id {
        MorphismKey::Primitive(_) => m.kind is Primitive,
        MorphismKey::Identity(o) => {
            &&& m.kind is Identity
            &&& m.dom == o
            &&& m.cod == o
            &&& m.effects.len() == 0
        },
        MorphismKey::Composed(ps) => {
            &&& m.kind == KindView::Composed(ps)
            &&& ps.len() >= 2
            &&& forall|k: int| 0 <= k < ps.len() ==> (#[trigger] ps[k]) is Primitive
        },
    }
}

/// The parts that a morphism contributes to a composite: its own parts if it is a
/// composite, itself otherwise.
pub open spec fn parts_of(m: MorphismView) -> Seq<MorphismKey> {
    match m.kind {
        KindView::Composed(ps) => ps,
        _ => seq![m.id],
    }
}

/// The first error object of `layers` (outermost first) that `c` does not hold.
pub open spec fn first_missing_error(c: CategoryView, layers: Seq<EffectView>) -> Option<Seq<char>>
    decreases layers.len(),
{
    if layers.len() == 0 {
        None
    } else {
        match layers[0] {
            EffectView::Fallible(e) => if !c.has_object(e) {
                Some(e)
            } else {
                first_missing_error(c, layers.drop_first())
            },
            EffectView::Async => first_missing_error(c, layers.drop_first()),
        }
    }
}

/// The first of `ids` that `c` does not hold.
pub open spec fn first_missing(c: CategoryView, ids: Seq<Seq<char>>) -> Option<Seq<char>>
    decreases ids.len(),
{
    if ids.len() == 0 {
        None
    } else if !c.has_object(ids[0]) {
        Some(ids[0])
    } else {
        first_missing(c, ids.drop_first())
    }
}

/// Whether some morphism of `c` starts at `obj`.
pub open spec fn handled(c: CategoryView, obj: Seq<char>) -> bool {
    exists|i: int| 0 <= i < c.morphisms.len() && (#[trigger] c.morphisms[i]).dom == obj
}

/// The names of the variants that no morphism of `c` consumes, in declaration order.
pub open spec fn unhandled(c: CategoryView, variants: Seq<(Seq<char>, Seq<char>)>) -> Seq<Seq<char>>
    decreases variants.len(),
{
    if variants.len() == 0 {
        Seq::empty()
    } else {
        let last = variants[variants.len() - 1];
        let rest = unhandled(c, variants.subrange(0, variants.len() - 1));
        if handled(c, last.1) {
            rest
        } else {
            rest.push(last.0)
        }
    }
}

impl CategoryView {
    /// The empty category.
    pub open spec fn empty() -> CategoryView {
        CategoryView { objects: Seq::empty(), morphisms: Seq::empty() }
    }

    /// Whether an object with identifier `id` is registered.
    pub open spec fn has_object(self, id: Seq<char>) -> bool {
        exists|i: int| 0 <= i < self.objects.len() && (#[trigger] self.objects[i]).id == id
    }

    /// The object registered under `id`.
    pub open spec fn find_object(self, id: Seq<char>) -> Option<ObjectView> {
        if self.has_object(id) {
            Some(
                self.objects[choose|i: int|
                    0 <= i < self.objects.len() && (#[trigger] self.objects[i]).id == id],
            )
        } else {
            None
        }
    }

    /// Whether a morphism with identifier `k` is registered.
    pub open spec fn has_morphism(self, k: MorphismKey) -> bool {
        exists|i: int| 0 <= i < self.morphisms.len() && (#[trigger] self.morphisms[i]).id == k
    }

    /// The position of the morphism registered under `k`.
    pub open spec fn morphism_index(self, k: MorphismKey) -> int {
        choose|i: int| 0 <= i < self.morphisms.len() && (#[trigger] self.morphisms[i]).id == k
    }

    /// The morphism registered under `k`.
    pub open spec fn find_morphism(self, k: MorphismKey) -> Option<MorphismView> {
        if self.has_morphism(k) {
            Some(self.morphisms[self.morphism_index(k)])
        } else {
            None
        }
    }

    /// Whether every object that `o` refers to is registered.
    pub open spec fn targets_registered(self, o: ObjectView) -> bool {
        forall|k: int|
            0 <= k < o.kind.targets().len() ==> self.has_object(#[trigger] o.kind.targets()[k])
    }

    /// Whether every error object of `layers` is registered.
    pub open spec fn errors_registered(self, layers: Seq<EffectView>) -> bool {
        forall|k: int|
            0 <= k < layers.len() ==> (#[trigger] layers[k] matches EffectView::Fallible(e)
                ==> self.has_object(e))
    }

    /// Whether a morphism's endpoints, error objects and parts are registered.
    pub open spec fn morphism_registered(self, m: MorphismView) -> bool {
        &&& self.has_object(m.dom)
        &&& self.has_object(m.cod)
        &&& self.errors_registered(m.effects)
        &&& shape_agrees(m)
        &&& (m.id matches MorphismKey::Composed(ps) ==> forall|k: int|
            0 <= k < ps.len() ==> self.has_morphism(#[trigger] ps[k]))
    }

    /// Well-formedness: identifiers are unique, every reference resolves, and every
    /// morphism's shape agrees with its identifier.
    pub open spec fn wf(self) -> bool {
        &&& forall|i: int, j: int|
            0 <= i < self.objects.len() && 0 <= j < self.objects.len() && i != j
                ==> (#[trigger] self.objects[i]).id != (#[trigger] self.objects[j]).id
        &&& forall|i: int, j: int|
            0 <= i < self.morphisms.len() && 0 <= j < self.morphisms.len() && i != j
                ==> (#[trigger] self.morphisms[i]).id != (#[trigger] self.morphisms[j]).id
        &&& forall|i: int|
            0 <= i < self.objects.len() ==> self.targets_registered(#[trigger] self.objects[i])
        &&& forall|i: int|
            0 <= i < self.morphisms.len() ==> self.morphism_registered(#[trigger] self.morphisms[i])
    }

    /// The category with `o` appended.
    pub open spec fn push_object(self, o: ObjectView) -> CategoryView {
        CategoryView { objects: self.objects.push(o), morphisms: self.morphisms }
    }

    /// The category with `m` appended to the morphisms.
    pub open spec fn push_morphism(self, m: MorphismView) -> CategoryView {
        CategoryView { objects: self.objects, morphisms: self.morphisms.push(m) }
    }
}

/// `add_object`: refuses a registered identifier, then an unregistered reference;
/// otherwise appends the object.
pub open spec fn spec_add_object(c: CategoryView, o: ObjectView) -> (CategoryView, Result<Seq<char>, CategoryErrorView>) {
    if c.has_object(o.id) {
        (c, Err(CategoryErrorView::DuplicateObject(o.id)))
    } else {
        match first_missing(c, o.kind.targets()) {
            Some(t) => (c, Err(CategoryErrorView::UnknownObject(t))),
            None => (c.push_object(o), Ok(o.id)),
        }
    }
}

/// `add_effectful_primitive_morphism`: refuses a name already registered, then an
/// unregistered domain, codomain or error object; otherwise appends the primitive.
pub open spec fn spec_add_morphism(
    c: CategoryView,
    name: Seq<char>,
    dom: Seq<char>,
    cod: Seq<char>,
    effects: Seq<EffectView>,
) -> (CategoryView, Result<MorphismKey, CategoryErrorView>) {
    if c.has_morphism(MorphismKey::Primitive(name)) {
        (c, Err(CategoryErrorView::DuplicateMorphism(MorphismKey::Primitive(name))))
    } else if !c.has_object(dom) {
        (c, Err(CategoryErrorView::UnknownObject(dom)))
    } else if !c.has_object(cod) {
        (c, Err(CategoryErrorView::UnknownObject(cod)))
    } else {
        match first_missing_error(c, effects) {
            Some(e) => (c, Err(CategoryErrorView::UnknownObject(e))),
            None => {
                let key = MorphismKey::Primitive(name);
                let m = MorphismView { id: key, dom, cod, kind: KindView::Primitive, effects };
                (c.push_morphism(m), Ok(key))
            },
        }
    }
}

/// `identity`: the identity on a registered object, registered at its first use.
pub open spec fn spec_identity(c: CategoryView, obj: Seq<char>) -> (CategoryView, Result<MorphismKey, CategoryErrorView>) {
    if !c.has_object(obj) {
        (c, Err(CategoryErrorView::UnknownObject(obj)))
    } else {
        let key = MorphismKey::Identity(obj);
        if c.has_morphism(key) {
            (c, Ok(key))
        } else {
            let m = MorphismView {
                id: key,
                dom: obj,
                cod: obj,
                kind: KindView::Identity,
                effects: Seq::empty(),
            };
            (c.push_morphism(m), Ok(key))
        }
    }
}

/// The composability check shared by `compose` and `LawChecker::check_composable`.
pub open spec fn spec_check_composable(c: CategoryView, f: MorphismKey, g: MorphismKey) -> Result<(), CategoryErrorView> {
    match c.find_morphism(f) {
        None => Err(CategoryErrorView::UnknownMorphism(render_key(f))),
        Some(mf) => match c.find_morphism(g) {
            None => Err(CategoryErrorView::UnknownMorphism(render_key(g))),
            Some(mg) => if mf.cod != mg.dom {
                Err(
                    CategoryErrorView::DomCodMismatch {
                        f: render_key(f),
                        f_cod: mf.cod,
                        g: render_key(g),
                        g_dom: mg.dom,
                    },
                )
            } else {
                Ok(())
            },
        },
    }
}

/// The identifier of the composite of `mf` then `mg`, neither an identity.
pub open spec fn composite_key(mf: MorphismView, mg: MorphismView) -> MorphismKey {
    MorphismKey::Composed(parts_of(mf) + parts_of(mg))
}

/// `compose`: after the check, an identity gives back the other morphism; otherwise
/// the flattened composite is registered at its first use.
pub open spec fn spec_compose(c: CategoryView, f: MorphismKey, g: MorphismKey) -> (CategoryView, Result<MorphismKey, CategoryErrorView>) {
    match spec_check_composable(c, f, g) {
        Err(e) => (c, Err(e)),
        Ok(()) => {
            let mf = c.find_morphism(f).unwrap();
            let mg = c.find_morphism(g).unwrap();
            if mf.kind is Identity {
                (c, Ok(g))
            } else if mg.kind is Identity {
                (c, Ok(f))
            } else {
                let key = composite_key(mf, mg);
                if c.has_morphism(key) {
                    (c, Ok(key))
                } else {
                    let m = MorphismView {
                        id: key,
                        dom: mf.dom,
                        cod: mg.cod,
                        kind: KindView::Composed(parts_of(mf) + parts_of(mg)),
                        effects: mf.effects + mg.effects,
                    };
                    (c.push_morphism(m), Ok(key))
                }
            }
        },
    }
}

/// `check_coproduct_coverage`: every variant of the coproduct must be the domain of
/// some morphism.
pub open spec fn spec_check_coverage(c: CategoryView, cp: Seq<char>) -> Result<(), CategoryErrorView> {
    match c.find_object(cp) {
        None => Err(CategoryErrorView::UnknownObject(cp)),
        Some(o) => match o.kind {
            ObjectShape::Coproduct(variants) => {
                let missing = unhandled(c, variants);
                if missing.len() == 0 {
                    Ok(())
                } else {
                    Err(
                        CategoryErrorView::UnhandledCoproductVariants {
                            coproduct: cp,
                            missing_variants: missing,
                        },
                    )
                }
            },
            _ => Err(CategoryErrorView::NotACoproduct(cp)),
        },
    }
}

} // verus!

verus! {

/// The views of a list of objects.
pub open spec fn object_views(s: Seq<Object>) -> Seq<ObjectView> {
    s.map_values(|o: Object| o@)
}

/// The views of a list of morphisms.
pub open spec fn morphism_views(s: Seq<Morphism>) -> Seq<MorphismView> {
    s.map_values(|m: Morphism| m@)
}

proof fn lemma_object_views_push(s: Seq<Object>, x: Object)
    ensures
        object_views(s.push(x)) == object_views(s).push(x@),
{
    assert(object_views(s.push(x)) =~= object_views(s).push(x@));
}

proof fn lemma_morphism_views_push(s: Seq<Morphism>, x: Morphism)
    ensures
        morphism_views(s.push(x)) == morphism_views(s).push(x@),
{
    assert(morphism_views(s.push(x)) =~= morphism_views(s).push(x@));
}

/// In a well-formed category, the object at a position is the one found under its id.
pub proof fn lemma_find_object(c: CategoryView, i: int)
    requires
        c.wf(),
        0 <= i < c.objects.len(),
    ensures
        c.has_object(c.objects[i].id),
        c.find_object(c.objects[i].id) == Some(c.objects[i]),
{
    let id = c.objects[i].id;
    assert(c.objects[i].id == id);
    let j = choose|j: int| 0 <= j < c.objects.len() && (#[trigger] c.objects[j]).id == id;
    assert(c.objects[j].id == id);
    if j != i {
        assert(c.objects[i].id != c.objects[j].id);
    }
}

/// In a well-formed category, the morphism at a position is the one found under its id.
pub proof fn lemma_find_morphism(c: CategoryView, i: int)
    requires
        c.wf(),
        0 <= i < c.morphisms.len(),
    ensures
        c.has_morphism(c.morphisms[i].id),
        c.morphism_index(c.morphisms[i].id) == i,
        c.find_morphism(c.morphisms[i].id) == Some(c.morphisms[i]),
{
    let id = c.morphisms[i].id;
    assert(c.morphisms[i].id == id);
    let j = c.morphism_index(id);
    assert(c.morphisms[j].id == id);
    if j != i {
        assert(c.morphisms[i].id != c.morphisms[j].id);
    }
}

/// Appending an object keeps every object that was there.
pub proof fn lemma_push_object_keeps(c: CategoryView, o: ObjectView, id: Seq<char>)
    requires
        c.has_object(id),
    ensures
        c.push_object(o).has_object(id),
{
    let i = choose|i: int| 0 <= i < c.objects.len() && (#[trigger] c.objects[i]).id == id;
    assert(c.push_object(o).objects[i] == c.objects[i]);
}

/// Appending an object with a fresh identifier keeps lookups of the others.
pub proof fn lemma_push_object_finds(c: CategoryView, o: ObjectView, id: Seq<char>)
    requires
        c.wf(),
        !c.has_object(o.id),
    ensures
        c.push_object(o).has_object(id) == (c.has_object(id) || id == o.id),
        id != o.id ==> c.push_object(o).find_object(id) == c.find_object(id),
        c.push_object(o).find_object(o.id) == Some(o),
{
    let d = c.push_object(o);
    let n = c.objects.len();
    assert(d.objects[n as int] == o);
    if c.has_object(id) {
        lemma_push_object_keeps(c, o, id);
    }
    if d.has_object(id) && id != o.id {
        let j = choose|j: int| 0 <= j < d.objects.len() && (#[trigger] d.objects[j]).id == id;
        assert(j != n);
        assert(c.objects[j] == d.objects[j]);
        assert(c.has_object(id));
        let k = choose|k: int| 0 <= k < c.objects.len() && (#[trigger] c.objects[k]).id == id;
        if k != j {
            assert(c.objects[k].id != c.objects[j].id);
        }
    }
    assert(d.objects[n as int].id == o.id);
    assert(d.has_object(o.id));
    let j = choose|j: int| 0 <= j < d.objects.len() && (#[trigger] d.objects[j]).id == o.id;
    if j != n {
        assert(c.objects[j] == d.objects[j]);
    }
}

/// `first_missing` finds nothing exactly when every identifier is registered,
/// and what it finds is unregistered.
pub proof fn lemma_first_missing(c: CategoryView, ids: Seq<Seq<char>>)
    ensures
        first_missing(c, ids) is None <==> forall|k: int|
            0 <= k < ids.len() ==> c.has_object(#[trigger] ids[k]),
        first_missing(c, ids) matches Some(t) ==> !c.has_object(t),
    decreases ids.len(),
{
    if ids.len() > 0 {
        lemma_first_missing(c, ids.drop_first());
        if c.has_object(ids[0]) {
            assert forall|k: int| 0 <= k < ids.len() && 0 < k implies #[trigger] ids[k]
                == ids.drop_first()[k - 1] by {}
            if first_missing(c, ids) is None {
                assert forall|k: int| 0 <= k < ids.len() implies c.has_object(#[trigger] ids[k]) by {
                    if k > 0 {
                        assert(ids[k] == ids.drop_first()[k - 1]);
                    }
                }
            } else {
                let t = first_missing(c, ids.drop_first()).unwrap();
                assert(!c.has_object(t));
                let k = choose|k: int|
                    0 <= k < ids.drop_first().len() && !c.has_object(#[trigger] ids.drop_first()[k]);
                assert(ids[k + 1] == ids.drop_first()[k]);
            }
        }
    }
}

/// `first_missing_error` finds nothing exactly when every error object is registered.
pub proof fn lemma_first_missing_error(c: CategoryView, layers: Seq<EffectView>)
    ensures
        first_missing_error(c, layers) is None <==> c.errors_registered(layers),
        first_missing_error(c, layers) matches Some(t) ==> !c.has_object(t),
    decreases layers.len(),
{
    if layers.len() > 0 {
        let rest = layers.drop_first();
        lemma_first_missing_error(c, rest);
        assert forall|k: int| 0 < k < layers.len() implies #[trigger] layers[k] == rest[k - 1] by {}
        if first_missing_error(c, layers) is None {
            assert forall|k: int| 0 <= k < layers.len() implies (#[trigger] layers[k] matches EffectView::Fallible(e)
                ==> c.has_object(e)) by {
                if k > 0 {
                    assert(layers[k] == rest[k - 1]);
                }
            }
        } else {
            match layers[0] {
                EffectView::Fallible(e) => {
                    if c.has_object(e) {
                        assert(!c.errors_registered(rest));
                        let k = choose|k: int|
                            0 <= k < rest.len() && !(#[trigger] rest[k] matches EffectView::Fallible(e)
                                ==> c.has_object(e));
                        assert(layers[k + 1] == rest[k]);
                    }
                },
                EffectView::Async => {
                    assert(!c.errors_registered(rest));
                    let k = choose|k: int|
                        0 <= k < rest.len() && !(#[trigger] rest[k] matches EffectView::Fallible(e)
                            ==> c.has_object(e));
                    assert(layers[k + 1] == rest[k]);
                },
            }
        }
    }
}

/// Registration conditions survive growth of the category.
pub proof fn lemma_registered_mono(c: CategoryView, d: CategoryView)
    requires
        forall|x: Seq<char>| c.has_object(x) ==> d.has_object(x),
        forall|k: MorphismKey| c.has_morphism(k) ==> d.has_morphism(k),
    ensures
        forall|o: ObjectView| c.targets_registered(o) ==> #[trigger] d.targets_registered(o),
        forall|m: MorphismView| c.morphism_registered(m) ==> #[trigger] d.morphism_registered(m),
        forall|l: Seq<EffectView>| c.errors_registered(l) ==> #[trigger] d.errors_registered(l),
{
    assert forall|l: Seq<EffectView>| c.errors_registered(l) implies #[trigger] d.errors_registered(l) by {
        assert forall|k: int| 0 <= k < l.len() implies (#[trigger] l[k] matches EffectView::Fallible(e)
            ==> d.has_object(e)) by {
            if let EffectView::Fallible(e) = l[k] {
                assert(c.has_object(e));
            }
        }
    }
    assert forall|o: ObjectView| c.targets_registered(o) implies #[trigger] d.targets_registered(o) by {
        assert forall|k: int| 0 <= k < o.kind.targets().len() implies d.has_object(
            #[trigger] o.kind.targets()[k],
        ) by {
            assert(c.has_object(o.kind.targets()[k]));
        }
    }
    assert forall|m: MorphismView| c.morphism_registered(m) implies #[trigger] d.morphism_registered(m) by {
        assert(c.errors_registered(m.effects));
        if let MorphismKey::Composed(ps) = m.id {
            assert forall|k: int| 0 <= k < ps.len() implies d.has_morphism(#[trigger] ps[k]) by {
                assert(c.has_morphism(ps[k]));
            }
        }
    }
}

/// Adding a morphism keeps every morphism identifier that was there.
pub proof fn lemma_push_morphism_keeps(c: CategoryView, m: MorphismView)
    ensures
        forall|k: MorphismKey| c.has_morphism(k) ==> #[trigger] c.push_morphism(m).has_morphism(k),
        c.push_morphism(m).has_morphism(m.id),
{
    let d = c.push_morphism(m);
    assert forall|k: MorphismKey| c.has_morphism(k) implies #[trigger] d.has_morphism(k) by {
        let i = choose|i: int| 0 <= i < c.morphisms.len() && (#[trigger] c.morphisms[i]).id == k;
        assert(d.morphisms[i] == c.morphisms[i]);
    }
    assert(d.morphisms[c.morphisms.len() as int] == m);
}

/// Appending a fresh, fully registered morphism keeps a category well formed.
pub proof fn lemma_push_morphism_wf(c: CategoryView, m: MorphismView)
    requires
        c.wf(),
        !c.has_morphism(m.id),
        c.morphism_registered(m),
    ensures
        c.push_morphism(m).wf(),
{
    let d = c.push_morphism(m);
    let n = c.morphisms.len();
    lemma_push_morphism_keeps(c, m);
    lemma_registered_mono(c, d);
    assert forall|i: int, j: int|
        0 <= i < d.morphisms.len() && 0 <= j < d.morphisms.len() && i != j implies (
        #[trigger] d.morphisms[i]).id != (#[trigger] d.morphisms[j]).id by {
        if i < n && j < n {
            assert(d.morphisms[i] == c.morphisms[i]);
            assert(d.morphisms[j] == c.morphisms[j]);
        } else if i == n {
            assert(d.morphisms[j] == c.morphisms[j]);
        } else {
            assert(d.morphisms[i] == c.morphisms[i]);
        }
    }
    assert forall|i: int| 0 <= i < d.morphisms.len() implies d.morphism_registered(
        #[trigger] d.morphisms[i],
    ) by {
        if i < n {
            assert(d.morphisms[i] == c.morphisms[i]);
            assert(c.morphism_registered(c.morphisms[i]));
        }
    }
    assert forall|i: int| 0 <= i < d.objects.len() implies d.targets_registered(
        #[trigger] d.objects[i],
    ) by {
        assert(c.targets_registered(c.objects[i]));
    }
}

/// `add_object` keeps a category well formed.
pub proof fn lemma_add_object_wf(c: CategoryView, o: ObjectView)
    requires
        c.wf(),
    ensures
        spec_add_object(c, o).0.wf(),
{
    if !c.has_object(o.id) && first_missing(c, o.kind.targets()) is None {
        let d = c.push_object(o);
        let n = c.objects.len();
        lemma_first_missing(c, o.kind.targets());
        assert forall|x: Seq<char>| c.has_object(x) implies d.has_object(x) by {
            lemma_push_object_keeps(c, o, x);
        }
        lemma_registered_mono(c, d);
        assert(d.objects[n as int] == o);
        assert forall|i: int, j: int|
            0 <= i < d.objects.len() && 0 <= j < d.objects.len() && i != j implies (
            #[trigger] d.objects[i]).id != (#[trigger] d.objects[j]).id by {
            if i < n && j < n {
                assert(d.objects[i] == c.objects[i]);
                assert(d.objects[j] == c.objects[j]);
            } else if i == n {
                assert(d.objects[j] == c.objects[j]);
            } else {
                assert(d.objects[i] == c.objects[i]);
            }
        }
        assert forall|i: int| 0 <= i < d.objects.len() implies d.targets_registered(
            #[trigger] d.objects[i],
        ) by {
            if i < n {
                assert(d.objects[i] == c.objects[i]);
                assert(c.targets_registered(c.objects[i]));
            } else {
                assert(c.targets_registered(o));
            }
        }
        assert forall|i: int| 0 <= i < d.morphisms.len() implies d.morphism_registered(
            #[trigger] d.morphisms[i],
        ) by {
            assert(c.morphism_registered(c.morphisms[i]));
        }
    }
}

/// `add_effectful_primitive_morphism` keeps a category well formed.
pub proof fn lemma_add_morphism_wf(
    c: CategoryView,
    name: Seq<char>,
    dom: Seq<char>,
    cod: Seq<char>,
    effects: Seq<EffectView>,
)
    requires
        c.wf(),
    ensures
        spec_add_morphism(c, name, dom, cod, effects).0.wf(),
{
    lemma_first_missing_error(c, effects);
    let key = MorphismKey::Primitive(name);
    if !c.has_morphism(key) && c.has_object(dom) && c.has_object(cod) && first_missing_error(c, effects) is None {
        let m = MorphismView { id: key, dom, cod, kind: KindView::Primitive, effects };
        assert(c.morphism_registered(m));
        lemma_push_morphism_wf(c, m);
    }
}

/// `identity` keeps a category well formed.
pub proof fn lemma_identity_wf(c: CategoryView, obj: Seq<char>)
    requires
        c.wf(),
    ensures
        spec_identity(c, obj).0.wf(),
{
    let key = MorphismKey::Identity(obj);
    if c.has_object(obj) && !c.has_morphism(key) {
        let m = MorphismView {
            id: key,
            dom: obj,
            cod: obj,
            kind: KindView::Identity,
            effects: Seq::empty(),
        };
        assert(c.morphism_registered(m));
        lemma_push_morphism_wf(c, m);
    }
}

/// What a registered, non-identity morphism contributes to a composite: primitive,
/// registered parts.
pub proof fn lemma_parts_of(c: CategoryView, k: MorphismKey)
    requires
        c.wf(),
        c.has_morphism(k),
        !(c.find_morphism(k).unwrap().kind is Identity),
    ensures
        parts_of(c.find_morphism(k).unwrap()).len() >= 1,
        forall|j: int|
            0 <= j < parts_of(c.find_morphism(k).unwrap()).len() ==> (
            #[trigger] parts_of(c.find_morphism(k).unwrap())[j]) is Primitive && c.has_morphism(
                parts_of(c.find_morphism(k).unwrap())[j],
            ),
{
    let i = c.morphism_index(k);
    let m = c.morphisms[i];
    assert(m.id == k);
    assert(c.morphism_registered(m));
    match m.id {
        MorphismKey::Primitive(_) => {
            assert(parts_of(m) == seq![k]);
            assert(c.has_morphism(k));
        },
        MorphismKey::Identity(_) => {},
        MorphismKey::Composed(ps) => {
            assert(parts_of(m) == ps);
        },
    }
}

/// `compose` keeps a category well formed.
pub proof fn lemma_compose_wf(c: CategoryView, f: MorphismKey, g: MorphismKey)
    requires
        c.wf(),
    ensures
        spec_compose(c, f, g).0.wf(),
{
    if spec_check_composable(c, f, g) is Ok {
        let mf = c.find_morphism(f).unwrap();
        let mg = c.find_morphism(g).unwrap();
        if !(mf.kind is Identity) && !(mg.kind is Identity) {
            let key = composite_key(mf, mg);
            if !c.has_morphism(key) {
                let ps = parts_of(mf) + parts_of(mg);
                let m = MorphismView {
                    id: key,
                    dom: mf.dom,
                    cod: mg.cod,
                    kind: KindView::Composed(ps),
                    effects: mf.effects + mg.effects,
                };
                lemma_parts_of(c, f);
                lemma_parts_of(c, g);
                let a = parts_of(mf);
                let b = parts_of(mg);
                assert forall|k: int| 0 <= k < ps.len() implies (#[trigger] ps[k]) is Primitive
                    && c.has_morphism(ps[k]) by {
                    if k < a.len() {
                        assert(ps[k] == a[k]);
                    } else {
                        assert(ps[k] == b[k - a.len()]);
                    }
                }
                let fi = c.morphism_index(f);
                let gi = c.morphism_index(g);
                assert(c.morphism_registered(c.morphisms[fi]));
                assert(c.morphism_registered(c.morphisms[gi]));
                assert(c.errors_registered(mf.effects + mg.effects)) by {
                    let l = mf.effects + mg.effects;
                    assert forall|k: int| 0 <= k < l.len() implies (#[trigger] l[k] matches EffectView::Fallible(e)
                        ==> c.has_object(e)) by {
                        if k < mf.effects.len() {
                            assert(l[k] == mf.effects[k]);
                        } else {
                            assert(l[k] == mg.effects[k - mf.effects.len()]);
                        }
                    }
                }
                assert(shape_agrees(m));
                assert(c.morphism_registered(m));
                lemma_push_morphism_wf(c, m);
            }
        }
    }
}

/// The objects that a list of named members refers to.
pub open spec fn member_targets(m: Seq<(String, ObjectId)>) -> Seq<Seq<char>> {
    m.map_values(|e: (String, ObjectId)| e.1@)
}

proof fn lemma_member_targets(m: Seq<(String, ObjectId)>)
    ensures
        ObjectShape::Product(members_view(m)).targets() == member_targets(m),
        ObjectShape::Coproduct(members_view(m)).targets() == member_targets(m),
{
    assert(ObjectShape::Product(members_view(m)).targets() =~= member_targets(m));
    assert(ObjectShape::Coproduct(members_view(m)).targets() =~= member_targets(m));
}

/// The view of an optional string.
pub open spec fn opt_string_view(r: Option<String>) -> Option<Seq<char>> {
    match r {
        Some(s) => Some(s@),
        None => None,
    }
}

proof fn lemma_keys_of_push(s: Seq<MorphismId>, x: MorphismId)
    ensures
        keys_of(s.push(x)) == keys_of(s).push(key_of(x)),
{
    assert(s.push(x).subrange(0, s.len() as int) == s);
}

/// Appends copies of `b` to `a`.
fn concat_ids(a: Vec<MorphismId>, b: &Vec<MorphismId>) -> (r: Vec<MorphismId>)
    ensures
        keys_of(r@) == keys_of(a@) + keys_of(b@),
{
    let mut out = a;
    let mut i: usize = 0;
    proof {
        assert(keys_of(b@.subrange(0, 0)) =~= Seq::<MorphismKey>::empty());
        assert(keys_of(out@) =~= keys_of(a@) + keys_of(b@.subrange(0, 0)));
    }
    while i < b.len()
        invariant
            i <= b.len(),
            keys_of(out@) == keys_of(a@) + keys_of(b@.subrange(0, i as int)),
        decreases b.len() - i,
    {
        let c = b[i].clone();
        let ghost before = out@;
        out.push(c);
        proof {
            lemma_keys_of_push(before, c);
            assert(b@.subrange(0, i + 1) == b@.subrange(0, i as int).push(b@[i as int]));
            lemma_keys_of_push(b@.subrange(0, i as int), b@[i as int]);
            assert(keys_of(out@) =~= keys_of(a@) + keys_of(b@.subrange(0, i + 1)));
        }
        i = i + 1;
    }
    proof {
        assert(b@.subrange(0, b@.len() as int) == b@);
    }
    out
}

/// The parts a morphism contributes to a composite.
fn parts_vec(m: &Morphism) -> (r: Vec<MorphismId>)
    ensures
        keys_of(r@) == parts_of(m@),
{
    match &m.kind {
        MorphismKind::Composed(ps) => clone_ids(ps),
        _ => {
            let mut v: Vec<MorphismId> = Vec::new();
            let c = m.id.clone();
            v.push(c);
            proof {
                assert(v@ == Seq::<MorphismId>::empty().push(c));
                lemma_keys_of_push(Seq::<MorphismId>::empty(), c);
                assert(keys_of(Seq::<MorphismId>::empty()) =~= Seq::<MorphismKey>::empty());
                assert(keys_of(v@) =~= seq![m@.id]);
            }
            v
        },
    }
}

/// A category: objects and the morphisms between them. Composition derives new
/// morphisms from registered ones and registers them.
///
/// Objects and morphisms are kept in `Vec`s in order of registration, each looked up by
/// its identifier; that no identifier occurs twice is part of the well-formedness the
/// type invariant keeps. This stands in place of maps keyed by identifier: a map keyed
/// by strings or by identifiers of this library gives Verus nothing to reason with,
/// while a sequence with distinct identifiers does, and it keeps the order of
/// registration that `morphisms` hands out.
#[derive(Debug)]
pub struct Category {
    objects: Vec<Object>,
    morphisms: Vec<Morphism>,
}

impl View for Category {
    type V = CategoryView;

    closed spec fn view(&self) -> CategoryView {
        CategoryView { objects: object_views(self.objects@), morphisms: morphism_views(self.morphisms@) }
    }
}

impl Category {
    /// A category is always well formed and coherent: every composite agrees with its
    /// parts. Callers learn it with `use_type_invariant`.
    #[verifier::type_invariant]
    pub open spec fn well_formed(self) -> bool {
        self@.wf() && crate::laws::coherent(self@)
    }

    /// An empty category.
    pub fn new() -> (r: Self)
        ensures
            r@ == CategoryView::empty(),
            r@.wf(),
            crate::laws::coherent(r@),
    {
        let r = Category { objects: Vec::new(), morphisms: Vec::new() };
        proof {
            assert(r@.objects =~= Seq::<ObjectView>::empty());
            assert(r@.morphisms =~= Seq::<MorphismView>::empty());
            crate::laws::law_empty();
        }
        r
    }

    fn object_position(&self, id: &ObjectId) -> (r: Option<usize>)
        ensures
            match r {
                Some(i) => i < self@.objects.len() && self@.objects[i as int].id == id@,
                None => !self@.has_object(id@),
            },
    {
        let mut i: usize = 0;
        while i < self.objects.len()
            invariant
                i <= self.objects.len(),
                forall|j: int| 0 <= j < i ==> (#[trigger] self@.objects[j]).id != id@,
            decreases self.objects.len() - i,
        {
            if self.objects[i].id.same(id) {
                return Some(i);
            }
            i = i + 1;
        }
        None
    }

    fn morphism_position(&self, id: &MorphismId) -> (r: Option<usize>)
        ensures
            match r {
                Some(i) => i < self@.morphisms.len() && self@.morphisms[i as int].id == id@,
                None => !self@.has_morphism(id@),
            },
    {
        let mut i: usize = 0;
        while i < self.morphisms.len()
            invariant
                i <= self.morphisms.len(),
                forall|j: int| 0 <= j < i ==> (#[trigger] self@.morphisms[j]).id != id@,
            decreases self.morphisms.len() - i,
        {
            if self.morphisms[i].id.same(id) {
                return Some(i);
            }
            i = i + 1;
        }
        None
    }

    /// The object registered under `id`.
    pub fn object(&self, id: &ObjectId) -> (r: Option<&Object>)
        ensures
            match r {
                Some(o) => self@.find_object(id@) == Some(o@),
                None => self@.find_object(id@) is None,
            },
    {
        proof {
            use_type_invariant(self);
        }
        match self.object_position(id) {
            Some(i) => {
                proof {
                    lemma_find_object(self@, i as int);
                }
                Some(&self.objects[i])
            },
            None => None,
        }
    }

    /// The morphism registered under `id`.
    pub fn morphism(&self, id: &MorphismId) -> (r: Option<&Morphism>)
        ensures
            match r {
                Some(m) => self@.find_morphism(id@) == Some(m@),
                None => self@.find_morphism(id@) is None,
            },
    {
        proof {
            use_type_invariant(self);
        }
        match self.morphism_position(id) {
            Some(i) => {
                proof {
                    lemma_find_morphism(self@, i as int);
                }
                Some(&self.morphisms[i])
            },
            None => None,
        }
    }

    /// The registered morphisms, in order of registration.
    pub fn morphisms(&self) -> (r: core::slice::Iter<'_, Morphism>)
        ensures
            morphism_views(r.remaining().unref()) == self@.morphisms,
    {
        let r = self.morphisms.as_slice().iter();
        proof {
            broadcast use vstd::std_specs::slice::axiom_spec_slice_iter;
            assert(r.remaining().unref() =~= self.morphisms@);
        }
        r
    }

    /// The first member whose object is not registered.
    fn first_unregistered(&self, members: &Vec<(String, ObjectId)>) -> (r: Option<String>)
        ensures
            opt_string_view(r) == first_missing(self@, member_targets(members@)),
    {
        let ghost ts = member_targets(members@);
        let n = members.len();
        let mut i: usize = 0;
        proof {
            assert(ts.subrange(0, n as int) =~= ts);
        }
        while i < n
            invariant
                i <= n,
                n == members@.len(),
                ts == member_targets(members@),
                first_missing(self@, ts) == first_missing(self@, ts.subrange(i as int, n as int)),
            decreases n - i,
        {
            let ghost rest = ts.subrange(i as int, n as int);
            proof {
                assert(rest[0] == members@[i as int].1@);
                assert(rest.drop_first() =~= ts.subrange(i + 1, n as int));
            }
            if self.object_position(&members[i].1).is_none() {
                return Some(members[i].1.0.clone());
            }
            i = i + 1;
        }
        proof {
            assert(ts.subrange(n as int, n as int).len() == 0);
        }
        None
    }

    /// The first error object of `effects` that is not registered.
    fn first_unregistered_error(&self, effects: &EffectStack) -> (r: Option<String>)
        ensures
            opt_string_view(r) == first_missing_error(self@, effects@),
    {
        let layers = effects.layers();
        let ghost ls = effects@;
        let n = layers.len();
        let mut i: usize = 0;
        proof {
            assert(ls.subrange(0, n as int) =~= ls);
        }
        while i < n
            invariant
                i <= n,
                n == layers@.len(),
                ls == crate::effect::layers_view(layers@),
                ls == effects@,
                first_missing_error(self@, ls) == first_missing_error(
                    self@,
                    ls.subrange(i as int, n as int),
                ),
            decreases n - i,
        {
            let ghost rest = ls.subrange(i as int, n as int);
            proof {
                assert(rest[0] == layers@[i as int]@);
                assert(rest.drop_first() =~= ls.subrange(i + 1, n as int));
            }
            match &layers[i] {
                Effect::Fallible { error } => {
                    if self.object_position(error).is_none() {
                        proof {
                            assert(rest.len() > 0);
                            assert(rest[0] == EffectView::Fallible(error@));
                            assert(first_missing_error(self@, rest) == Some(error@));
                        }
                        let e = error.0.clone();
                        proof {
                            assert(e@ == error@);
                            assert(first_missing_error(self@, effects@) == Some(error@));
                        }
                        return Some(e);
                    }
                },
                Effect::Async => {},
            }
            i = i + 1;
        }
        proof {
            assert(ls.subrange(n as int, n as int).len() == 0);
        }
        None
    }

    /// Registers an object. Every object its fields or variants name must already be
    /// registered, and its identifier must be new.
    pub fn add_object(&mut self, object: Object) -> (r: Result<ObjectId, CategoryError>)
        ensures
            final(self)@ == spec_add_object(old(self)@, object@).0,
            id_outcome(r) == spec_add_object(old(self)@, object@).1,
            final(self)@.wf(),
            crate::laws::coherent(final(self)@),
    {
        proof {
            use_type_invariant(&*self);
        }
        proof {
            lemma_add_object_wf(self@, object@);
            crate::laws::lemma_add_object_coherent(self@, object@);
        }
        if self.object_position(&object.id).is_some() {
            return Err(CategoryError::DuplicateObject(object.id));
        }
        let missing = match &object.kind {
            ObjectKind::Scalar => None,
            ObjectKind::Product(m) => {
                proof {
                    lemma_member_targets(m@);
                }
                self.first_unregistered(m)
            },
            ObjectKind::Coproduct(m) => {
                proof {
                    lemma_member_targets(m@);
                }
                self.first_unregistered(m)
            },
        };
        if let Some(t) = missing {
            return Err(CategoryError::UnknownObject(t));
        }
        let id = object.id.clone();
        proof {
            lemma_object_views_push(self.objects@, object);
        }
        let mut taken = Category::new();
        std::mem::swap(&mut taken, self);
        let Category { mut objects, morphisms } = taken;
        objects.push(object);
        *self = Category { objects, morphisms };
        Ok(id)
    }

    /// Registers a primitive morphism without effects. Its name must be new, and `dom` and
    /// `cod` must be registered.
    pub fn add_primitive_morphism<N: IntoName>(&mut self, id: N, dom: ObjectId, cod: ObjectId) -> (r: Result<MorphismId, CategoryError>)
        ensures
            final(self)@ == spec_add_morphism(old(self)@, id.name_view(), dom@, cod@, Seq::empty()).0,
            key_outcome(r) == spec_add_morphism(old(self)@, id.name_view(), dom@, cod@, Seq::empty()).1,
            final(self)@.wf(),
            crate::laws::coherent(final(self)@),
    {
        proof {
            use_type_invariant(&*self);
        }
        self.add_effectful_primitive_morphism(id, dom, cod, EffectStack::pure())
    }

    /// Registers a primitive morphism carrying `effects`. `dom`, `cod` and every
    /// error object of `effects` must be registered, and its name must be new.
    pub fn add_effectful_primitive_morphism<N: IntoName>(
        &mut self,
        id: N,
        dom: ObjectId,
        cod: ObjectId,
        effects: EffectStack,
    ) -> (r: Result<MorphismId, CategoryError>)
        ensures
            final(self)@ == spec_add_morphism(old(self)@, id.name_view(), dom@, cod@, effects@).0,
            key_outcome(r) == spec_add_morphism(old(self)@, id.name_view(), dom@, cod@, effects@).1,
            final(self)@.wf(),
            crate::laws::coherent(final(self)@),
    {
        proof {
            use_type_invariant(&*self);
        }
        proof {
            lemma_add_morphism_wf(self@, id.name_view(), dom@, cod@, effects@);
            crate::laws::lemma_add_morphism_coherent(self@, id.name_view(), dom@, cod@, effects@);
        }
        let name = id.into_name();
        let key = MorphismId::Primitive(name);
        if self.morphism_position(&key).is_some() {
            return Err(CategoryError::DuplicateMorphism(key));
        }
        if self.object_position(&dom).is_none() {
            return Err(CategoryError::UnknownObject(dom.0));
        }
        if self.object_position(&cod).is_none() {
            return Err(CategoryError::UnknownObject(cod.0));
        }
        if let Some(e) = self.first_unregistered_error(&effects) {
            return Err(CategoryError::UnknownObject(e));
        }
        let m = Morphism { id: key.clone(), dom, cod, kind: MorphismKind::Primitive, effects };
        proof {
            lemma_morphism_views_push(self.morphisms@, m);
        }
        let mut taken = Category::new();
        std::mem::swap(&mut taken, self);
        let Category { objects, mut morphisms } = taken;
        morphisms.push(m);
        *self = Category { objects, morphisms };
        Ok(key)
    }

    /// The identity on `obj`, registered at its first use and reused afterwards.
    pub fn identity(&mut self, obj: &ObjectId) -> (r: Result<MorphismId, CategoryError>)
        ensures
            final(self)@ == spec_identity(old(self)@, obj@).0,
            key_outcome(r) == spec_identity(old(self)@, obj@).1,
            final(self)@.wf(),
            crate::laws::coherent(final(self)@),
    {
        proof {
            use_type_invariant(&*self);
        }
        proof {
            lemma_identity_wf(self@, obj@);
            crate::laws::lemma_identity_coherent(self@, obj@);
        }
        if self.object_position(obj).is_none() {
            return Err(CategoryError::UnknownObject(obj.0.clone()));
        }
        let key = MorphismId::Identity(obj.clone());
        if self.morphism_position(&key).is_some() {
            return Ok(key);
        }
        let m = Morphism {
            id: key.clone(),
            dom: obj.clone(),
            cod: obj.clone(),
            kind: MorphismKind::Identity,
            effects: EffectStack::pure(),
        };
        proof {
            lemma_morphism_views_push(self.morphisms@, m);
        }
        let mut taken = Category::new();
        std::mem::swap(&mut taken, self);
        let Category { objects, mut morphisms } = taken;
        morphisms.push(m);
        *self = Category { objects, morphisms };
        Ok(key)
    }

    /// Checks that `f` and `g` are registered and that `f`'s codomain is `g`'s domain.
    pub fn check_composable(&self, f: &MorphismId, g: &MorphismId) -> (r: Result<(), CategoryError>)
        ensures
            check_outcome(r) == spec_check_composable(self@, f@, g@),
    {
        proof {
            use_type_invariant(self);
        }
        let fi = match self.morphism_position(f) {
            None => return Err(CategoryError::UnknownMorphism(f.render())),
            Some(i) => i,
        };
        let gi = match self.morphism_position(g) {
            None => return Err(CategoryError::UnknownMorphism(g.render())),
            Some(i) => i,
        };
        proof {
            lemma_find_morphism(self@, fi as int);
            lemma_find_morphism(self@, gi as int);
        }
        let mf = &self.morphisms[fi];
        let mg = &self.morphisms[gi];
        if !mf.cod.same(&mg.dom) {
            return Err(
                CategoryError::DomCodMismatch {
                    f: f.render(),
                    f_cod: mf.cod.0.clone(),
                    g: g.render(),
                    g_dom: mg.dom.0.clone(),
                },
            );
        }
        Ok(())
    }

    /// Composes `f: A -> B` with `g: B -> C` into a morphism `A -> C`.
    ///
    /// Composing with an identity gives back the other morphism (unit laws). Otherwise
    /// the composite is registered as `MorphismKind::Composed` of the flattened parts,
    /// so `compose(compose(f, g), h)` and `compose(f, compose(g, h))` are the same
    /// morphism (associativity). Its effects are `f`'s outside `g`'s.
    pub fn compose(&mut self, f: &MorphismId, g: &MorphismId) -> (r: Result<MorphismId, CategoryError>)
        ensures
            final(self)@ == spec_compose(old(self)@, f@, g@).0,
            key_outcome(r) == spec_compose(old(self)@, f@, g@).1,
            final(self)@.wf(),
            crate::laws::coherent(final(self)@),
            r matches Ok(id) ==> {
                let mf = old(self)@.find_morphism(f@)->Some_0;
                let mg = old(self)@.find_morphism(g@)->Some_0;
                let m = final(self)@.find_morphism(id@);
                &&& m is Some
                &&& m->Some_0.id == id@
                &&& m->Some_0.dom == mf.dom
                &&& m->Some_0.cod == mg.cod
                &&& m->Some_0.effects == mf.effects + mg.effects
                &&& (!(mf.kind is Identity) && !(mg.kind is Identity) ==> id@ == composite_key(mf, mg)
                    && m->Some_0.kind == KindView::Composed(parts_of(mf) + parts_of(mg)))
                &&& forall|k: MorphismKey|
                    old(self)@.has_morphism(k) ==> #[trigger] final(self)@.find_morphism(k) == old(self)@.find_morphism(k)
            },
    {
        proof {
            use_type_invariant(&*self);
        }
        proof {
            lemma_compose_wf(self@, f@, g@);
            crate::laws::lemma_compose_coherent(self@, f@, g@);
            if spec_check_composable(self@, f@, g@) is Ok {
                crate::laws::law_compose(self@, f@, g@);
                let d = spec_compose(self@, f@, g@).0;
                let key = spec_compose(self@, f@, g@).1->Ok_0;
                assert(d.has_morphism(key));
                let i = choose|i: int| 0 <= i < d.morphisms.len() && (#[trigger] d.morphisms[i]).id == key;
                assert(d.find_morphism(key)->Some_0.id == key);
            }
        }
        if let Err(e) = self.check_composable(f, g) {
            return Err(e);
        }
        let fi = self.morphism_position(f).unwrap();
        let gi = self.morphism_position(g).unwrap();
        proof {
            lemma_find_morphism(self@, fi as int);
            lemma_find_morphism(self@, gi as int);
        }
        if matches!(self.morphisms[fi].kind, MorphismKind::Identity) {
            return Ok(g.clone());
        }
        if matches!(self.morphisms[gi].kind, MorphismKind::Identity) {
            return Ok(f.clone());
        }
        let first = parts_vec(&self.morphisms[fi]);
        let second = parts_vec(&self.morphisms[gi]);
        let parts = concat_ids(first, &second);
        let kind_parts = clone_ids(&parts);
        let key = MorphismId::Composed(parts);
        if self.morphism_position(&key).is_some() {
            return Ok(key);
        }
        let m = Morphism {
            id: key.clone(),
            dom: self.morphisms[fi].dom.clone(),
            cod: self.morphisms[gi].cod.clone(),
            kind: MorphismKind::Composed(kind_parts),
            effects: self.morphisms[fi].effects.merge(&self.morphisms[gi].effects),
        };
        proof {
            lemma_morphism_views_push(self.morphisms@, m);
        }
        let mut taken = Category::new();
        std::mem::swap(&mut taken, self);
        let Category { objects, mut morphisms } = taken;
        morphisms.push(m);
        *self = Category { objects, morphisms };
        Ok(key)
    }

    /// The names of the variants no morphism consumes.
    pub(crate) fn unhandled_variants(&self, variants: &Vec<(String, ObjectId)>) -> (r: Vec<String>)
        ensures
            strings_view(r@) == unhandled(self@, members_view(variants@)),
    {
        let ghost vs = members_view(variants@);
        let n = variants.len();
        let mut out: Vec<String> = Vec::new();
        let mut i: usize = 0;
        proof {
            assert(vs.subrange(0, 0).len() == 0);
            assert(strings_view(out@) =~= Seq::<Seq<char>>::empty());
        }
        while i < n
            invariant
                i <= n,
                n == variants@.len(),
                vs == members_view(variants@),
                strings_view(out@) == unhandled(self@, vs.subrange(0, i as int)),
            decreases n - i,
        {
            let target = &variants[i].1;
            let mut found = false;
            let mut k: usize = 0;
            while k < self.morphisms.len() && !found
                invariant
                    k <= self.morphisms.len(),
                    found ==> handled(self@, target@),
                    !found ==> forall|j: int| 0 <= j < k ==> (#[trigger] self@.morphisms[j]).dom != target@,
                decreases self.morphisms.len() - k + (if found { 0int } else { 1int }),
            {
                if self.morphisms[k].dom.same(target) {
                    assert(self@.morphisms[k as int].dom == target@);
                    found = true;
                } else {
                    k = k + 1;
                }
            }
            let ghost sub = vs.subrange(0, i + 1);
            proof {
                assert(sub.subrange(0, i as int) =~= vs.subrange(0, i as int));
                assert(sub[i as int] == (variants@[i as int].0@, variants@[i as int].1@));
            }
            if !found {
                let ghost before = out@;
                out.push(variants[i].0.clone());
                proof {
                    assert(!handled(self@, target@));
                    assert(unhandled(self@, sub) == unhandled(self@, vs.subrange(0, i as int)).push(
                        variants@[i as int].0@,
                    ));
                    assert(strings_view(out@) =~= strings_view(before).push(variants@[i as int].0@));
                }
            } else {
                proof {
                    assert(unhandled(self@, sub) == unhandled(self@, vs.subrange(0, i as int)));
                }
            }
            i = i + 1;
        }
        proof {
            assert(vs.subrange(0, n as int) == vs);
        }
        out
    }
}

impl Default for Category {
    fn default() -> (r: Self)
        ensures
            r@ == CategoryView::empty(),
    {
        Category::new()
    }
}

} // verus!
