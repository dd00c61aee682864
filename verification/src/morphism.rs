//! Morphisms of a category: API operations, state transitions, pure transformations.

use vstd::prelude::*;

use crate::effect::{EffectStack, EffectView};
use crate::name::IntoName;
use crate::object::ObjectId;

verus! {

/// Identifier of a morphism. Its shape records how the morphism came to be, so
/// that composites never collide with primitive names, whatever those names hold.
#[derive(Debug, PartialEq, Eq, Hash, PartialOrd, Ord)]
pub enum MorphismId {
    /// A primitive morphism introduced by a frontend or by hand.
    Primitive(String),
    /// The identity on an object.
    Identity(ObjectId),
    /// A composite, as the primitive morphisms it chains, first applied first.
    Composed(Vec<MorphismId>),
}

/// Mathematical view of [`MorphismId`].
pub enum MorphismKey {
    Primitive(Seq<char>),
    Identity(Seq<char>),
    Composed(Seq<MorphismKey>),
}

/// The view of an identifier.
pub open spec fn key_of(id: MorphismId) -> MorphismKey
    decreases id,
{
    match id {
        MorphismId::Primitive(s) => MorphismKey::Primitive(s@),
        MorphismId::Identity(o) => MorphismKey::Identity(o@),
        MorphismId::Composed(v) => MorphismKey::Composed(keys_of(v@)),
    }
}

/// The views of a list of identifiers.
pub open spec fn keys_of(s: Seq<MorphismId>) -> Seq<MorphismKey>
    decreases s,
{
    if s.len() == 0 {
        Seq::empty()
    } else {
        keys_of(s.subrange(0, s.len() - 1)).push(key_of(s[s.len() - 1]))
    }
}

/// `keys_of` maps each identifier to its view.
pub proof fn lemma_keys_of(s: Seq<MorphismId>)
    ensures
        keys_of(s).len() == s.len(),
        forall|j: int| 0 <= j < s.len() ==> #[trigger] keys_of(s)[j] == key_of(s[j]),
    decreases s.len(),
{
    if s.len() > 0 {
        lemma_keys_of(s.subrange(0, s.len() - 1));
    }
}

/// The text of an identifier: a primitive's name, `id[<object>]` for an identity,
/// and the parts of a composite joined by `;`.
pub open spec fn render_key(k: MorphismKey) -> Seq<char>
    decreases k,
{
    match k {
        MorphismKey::Primitive(s) => s,
        MorphismKey::Identity(o) => "id["@ + o + "]"@,
        MorphismKey::Composed(ks) => render_keys(ks),
    }
}

/// The texts of identifiers joined by `;`.
pub open spec fn render_keys(ks: Seq<MorphismKey>) -> Seq<char>
    decreases ks,
{
    if ks.len() == 0 {
        Seq::empty()
    } else if ks.len() == 1 {
        render_key(ks[0])
    } else {
        render_keys(ks.subrange(0, ks.len() - 1)) + ";"@ + render_key(ks[ks.len() - 1])
    }
}

impl View for MorphismId {
    type V = MorphismKey;

    open spec fn view(&self) -> MorphismKey {
        key_of(*self)
    }
}

impl Clone for MorphismId {
    fn clone(&self) -> (r: Self)
        ensures
            r@ == self@,
        decreases self,
    {
        match self {
            MorphismId::Primitive(s) => MorphismId::Primitive(s.clone()),
            MorphismId::Identity(o) => MorphismId::Identity(o.clone()),
            MorphismId::Composed(v) => {
                let mut out: Vec<MorphismId> = Vec::new();
                let mut i: usize = 0;
                while i < v.len()
                    invariant
                        i <= v.len(),
                        *self == MorphismId::Composed(*v),
                        keys_of(out@) == keys_of(v@.subrange(0, i as int)),
                    decreases v.len() - i,
                {
                    proof {
                        let w = (*self)->Composed_0;
                        assert(decreases_to!(*self => (*self)->Composed_0));
                        assert(decreases_to!(w => w@));
                        assert(decreases_to!(w@ => w@[i as int]));
                    }
                    let c = v[i].clone();
                    let ghost before = out@;
                    out.push(c);
                    proof {
                        assert(out@.subrange(0, out@.len() - 1) == before);
                        assert(v@.subrange(0, i + 1).subrange(0, i as int) == v@.subrange(
                            0,
                            i as int,
                        ));
                    }
                    i = i + 1;
                }
                proof {
                    assert(v@.subrange(0, v@.len() as int) == v@);
                }
                MorphismId::Composed(out)
            },
        }
    }
}

impl MorphismId {
    /// The identifier of a primitive morphism.
    pub fn new<N: IntoName>(id: N) -> (r: Self)
        ensures
            r@ == MorphismKey::Primitive(id.name_view()),
    {
        MorphismId::Primitive(id.into_name())
    }

    /// Whether two identifiers name the same morphism.
    pub fn same(&self, other: &MorphismId) -> (r: bool)
        ensures
            r == (self@ == other@),
        decreases self,
    {
        match (self, other) {
            (MorphismId::Primitive(a), MorphismId::Primitive(b)) => *a == *b,
            (MorphismId::Identity(a), MorphismId::Identity(b)) => a.same(b),
            (MorphismId::Composed(a), MorphismId::Composed(b)) => {
                proof {
                    lemma_keys_of(a@);
                    lemma_keys_of(b@);
                }
                if a.len() != b.len() {
                    proof {
                        assert(keys_of(a@).len() != keys_of(b@).len());
                    }
                    return false;
                }
                let mut i: usize = 0;
                while i < a.len()
                    invariant
                        i <= a.len(),
                        a.len() == b.len(),
                        *self == MorphismId::Composed(*a),
                        *other == MorphismId::Composed(*b),
                        keys_of(a@).len() == a@.len(),
                        keys_of(b@).len() == b@.len(),
                        forall|j: int| 0 <= j < a@.len() ==> #[trigger] keys_of(a@)[j] == key_of(a@[j]),
                        forall|j: int| 0 <= j < b@.len() ==> #[trigger] keys_of(b@)[j] == key_of(b@[j]),
                        forall|j: int| 0 <= j < i ==> keys_of(a@)[j] == keys_of(b@)[j],
                    decreases a.len() - i,
                {
                    proof {
                        let w = (*self)->Composed_0;
                        assert(decreases_to!(*self => (*self)->Composed_0));
                        assert(decreases_to!(w => w@));
                        assert(decreases_to!(w@ => w@[i as int]));
                    }
                    if !a[i].same(&b[i]) {
                        proof {
                            assert(keys_of(a@)[i as int] != keys_of(b@)[i as int]);
                        }
                        return false;
                    }
                    i = i + 1;
                }
                proof {
                    assert(keys_of(a@) =~= keys_of(b@));
                }
                true
            },
            _ => false,
        }
    }

    /// The name of a primitive morphism as a string slice; `None` for an identity or a
    /// composite, whose text [`MorphismId::render`] builds.
    pub fn as_str(&self) -> (r: Option<&str>)
        ensures
            match self@ {
                MorphismKey::Primitive(n) => r is Some && r->Some_0@ == n,
                _ => r is None,
            },
    {
        match self {
            MorphismId::Primitive(s) => Some(s.as_str()),
            _ => None,
        }
    }

    /// The text of this identifier (see [`render_key`]). For a primitive it is its name,
    /// as [`MorphismId::as_str`] gives it.
    pub fn render(&self) -> (r: String)
        ensures
            r@ == render_key(self@),
        decreases self,
    {
        match self {
            MorphismId::Primitive(s) => s.clone(),
            MorphismId::Identity(o) => {
                let mut s = String::from_str("id[");
                s.append(o.as_str());
                s.append("]");
                s
            },
            MorphismId::Composed(v) => {
                proof {
                    lemma_keys_of(v@);
                }
                let mut acc = String::new();
                let mut i: usize = 0;
                while i < v.len()
                    invariant
                        i <= v.len(),
                        *self == MorphismId::Composed(*v),
                        keys_of(v@).len() == v@.len(),
                        forall|j: int| 0 <= j < v@.len() ==> #[trigger] keys_of(v@)[j] == key_of(v@[j]),
                        acc@ == render_keys(keys_of(v@).subrange(0, i as int)),
                    decreases v.len() - i,
                {
                    proof {
                        let w = (*self)->Composed_0;
                        assert(decreases_to!(*self => (*self)->Composed_0));
                        assert(decreases_to!(w => w@));
                        assert(decreases_to!(w@ => w@[i as int]));
                    }
                    let part = v[i].render();
                    let ghost ks = keys_of(v@).subrange(0, i + 1);
                    proof {
                        assert(ks.subrange(0, i as int) =~= keys_of(v@).subrange(0, i as int));
                        assert(ks[i as int] == key_of(v@[i as int]));
                    }
                    if i > 0 {
                        acc.append(";");
                    }
                    acc.append(part.as_str());
                    i = i + 1;
                }
                proof {
                    assert(keys_of(v@).subrange(0, v@.len() as int) =~= keys_of(v@));
                }
                acc
            },
        }
    }
}

impl<'a> From<&'a str> for MorphismId {
    fn from(id: &'a str) -> (r: Self)
        ensures
            r@ == MorphismKey::Primitive(id@),
    {
        MorphismId::new(id)
    }
}

impl<'a> vstd::std_specs::convert::FromSpecImpl<&'a str> for MorphismId {
    open spec fn obeys_from_spec() -> bool {
        false
    }

    open spec fn from_spec(v: &'a str) -> MorphismId {
        arbitrary()
    }
}

/// How a morphism came to be.
#[derive(Debug, PartialEq, Eq)]
pub enum MorphismKind {
    /// The identity that exists once per object.
    Identity,
    /// A basic morphism introduced by a frontend or by hand.
    Primitive,
    /// A morphism built by `compose`; its parts in order of application.
    Composed(Vec<MorphismId>),
}

/// Mathematical view of [`MorphismKind`].
pub enum KindView {
    Identity,
    Primitive,
    Composed(Seq<MorphismKey>),
}

impl View for MorphismKind {
    type V = KindView;

    open spec fn view(&self) -> KindView {
        match self {
            MorphismKind::Identity => KindView::Identity,
            MorphismKind::Primitive => KindView::Primitive,
            MorphismKind::Composed(v) => KindView::Composed(keys_of(v@)),
        }
    }
}

/// Copies a list of identifiers.
pub fn clone_ids(v: &Vec<MorphismId>) -> (r: Vec<MorphismId>)
    ensures
        keys_of(r@) == keys_of(v@),
{
    let mut out: Vec<MorphismId> = Vec::new();
    let mut i: usize = 0;
    while i < v.len()
        invariant
            i <= v.len(),
            keys_of(out@) == keys_of(v@.subrange(0, i as int)),
        decreases v.len() - i,
    {
        let c = v[i].clone();
        let ghost before = out@;
        out.push(c);
        proof {
            assert(out@.subrange(0, out@.len() - 1) == before);
            assert(v@.subrange(0, i + 1).subrange(0, i as int) == v@.subrange(0, i as int));
        }
        i = i + 1;
    }
    proof {
        assert(v@.subrange(0, v@.len() as int) == v@);
    }
    out
}

impl Clone for MorphismKind {
    fn clone(&self) -> (r: Self)
        ensures
            r@ == self@,
    {
        match self {
            MorphismKind::Identity => MorphismKind::Identity,
            MorphismKind::Primitive => MorphismKind::Primitive,
            MorphismKind::Composed(v) => MorphismKind::Composed(clone_ids(v)),
        }
    }
}

/// A morphism of a category, from `dom` to `cod`.
#[derive(Debug, PartialEq, Eq)]
pub struct Morphism {
    /// The identifier of this morphism.
    pub id: MorphismId,
    /// The domain.
    pub dom: ObjectId,
    /// The codomain.
    pub cod: ObjectId,
    /// How this morphism came to be.
    pub kind: MorphismKind,
    /// The effects this morphism carries.
    pub effects: EffectStack,
}

/// Mathematical view of [`Morphism`].
pub struct MorphismView {
    pub id: MorphismKey,
    pub dom: Seq<char>,
    pub cod: Seq<char>,
    pub kind: KindView,
    pub effects: Seq<EffectView>,
}

impl View for Morphism {
    type V = MorphismView;

    open spec fn view(&self) -> MorphismView {
        MorphismView {
            id: self.id@,
            dom: self.dom@,
            cod: self.cod@,
            kind: self.kind@,
            effects: self.effects@,
        }
    }
}

impl Clone for Morphism {
    fn clone(&self) -> (r: Self)
        ensures
            r@ == self@,
    {
        Morphism {
            id: self.id.clone(),
            dom: self.dom.clone(),
            cod: self.cod.clone(),
            kind: self.kind.clone(),
            effects: self.effects.clone(),
        }
    }
}

} // verus!
