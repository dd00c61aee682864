//! Objects of a category: data types, API schemas and UI states.

use vstd::prelude::*;

use crate::name::IntoName;

verus! {

/// Identifier of an object.
#[derive(Debug, PartialEq, Eq, Hash, PartialOrd, Ord)]
pub struct ObjectId(pub String);

impl View for ObjectId {
    type V = Seq<char>;

    open spec fn view(&self) -> Seq<char> {
        self.0@
    }
}

impl Clone for ObjectId {
    fn clone(&self) -> (r: Self)
        ensures
            r == *self,
    {
        ObjectId(self.0.clone())
    }
}

impl ObjectId {
    /// Makes an object identifier.
    pub fn new<N: IntoName>(id: N) -> (r: Self)
        ensures
            r@ == id.name_view(),
    {
        ObjectId(id.into_name())
    }

    /// The identifier as a string slice.
    pub fn as_str(&self) -> (r: &str)
        ensures
            r@ == self@,
    {
        self.0.as_str()
    }

    /// Whether two identifiers name the same object.
    pub fn same(&self, other: &ObjectId) -> (r: bool)
        ensures
            r == (self@ == other@),
    {
        self.0 == other.0
    }
}

impl<'a> From<&'a str> for ObjectId {
    fn from(id: &'a str) -> (r: Self)
        ensures
            r@ == id@,
    {
        ObjectId::new(id)
    }
}

impl<'a> vstd::std_specs::convert::FromSpecImpl<&'a str> for ObjectId {
    open spec fn obeys_from_spec() -> bool {
        false
    }

    open spec fn from_spec(v: &'a str) -> ObjectId {
        arbitrary()
    }
}

/// The view of a list of named members (fields of a product, variants of a coproduct):
/// each member as its name and the identifier of the object it holds.
pub open spec fn members_view(v: Seq<(String, ObjectId)>) -> Seq<(Seq<char>, Seq<char>)> {
    v.map_values(|e: (String, ObjectId)| (e.0@, e.1@))
}

/// Copies a list of named members.
pub fn clone_members(v: &Vec<(String, ObjectId)>) -> (r: Vec<(String, ObjectId)>)
    ensures
        r@ == v@,
{
    let mut out: Vec<(String, ObjectId)> = Vec::new();
    let mut i: usize = 0;
    while i < v.len()
        invariant
            i <= v.len(),
            out@ == v@.subrange(0, i as int),
        decreases v.len() - i,
    {
        let e = (v[i].0.clone(), v[i].1.clone());
        out.push(e);
        i = i + 1;
    }
    out
}

/// The structure of an object: products (records) and coproducts (tagged unions).
#[derive(Debug, PartialEq, Eq)]
pub enum ObjectKind {
    /// A scalar that is not decomposed further (string, number, UUID, ...).
    Scalar,
    /// A product: a record of named fields.
    Product(Vec<(String, ObjectId)>),
    /// A coproduct: a tagged union of named variants.
    Coproduct(Vec<(String, ObjectId)>),
}

/// Mathematical view of [`ObjectKind`].
pub enum ObjectShape {
    Scalar,
    Product(Seq<(Seq<char>, Seq<char>)>),
    Coproduct(Seq<(Seq<char>, Seq<char>)>),
}

impl ObjectShape {
    /// The objects this shape refers to, in declaration order.
    pub open spec fn targets(self) -> Seq<Seq<char>> {
        match self {
            ObjectShape::Scalar => Seq::empty(),
            ObjectShape::Product(m) => m.map_values(|e: (Seq<char>, Seq<char>)| e.1),
            ObjectShape::Coproduct(m) => m.map_values(|e: (Seq<char>, Seq<char>)| e.1),
        }
    }
}

impl View for ObjectKind {
    type V = ObjectShape;

    open spec fn view(&self) -> ObjectShape {
        match self {
            ObjectKind::Scalar => ObjectShape::Scalar,
            ObjectKind::Product(m) => ObjectShape::Product(members_view(m@)),
            ObjectKind::Coproduct(m) => ObjectShape::Coproduct(members_view(m@)),
        }
    }
}

impl Clone for ObjectKind {
    fn clone(&self) -> (r: Self)
        ensures
            r@ == self@,
    {
        match self {
            ObjectKind::Scalar => ObjectKind::Scalar,
            ObjectKind::Product(m) => ObjectKind::Product(clone_members(m)),
            ObjectKind::Coproduct(m) => ObjectKind::Coproduct(clone_members(m)),
        }
    }
}

/// An object of a category.
#[derive(Debug, PartialEq, Eq)]
pub struct Object {
    /// The identifier of this object.
    pub id: ObjectId,
    /// The structure of this object.
    pub kind: ObjectKind,
}

/// Mathematical view of [`Object`].
pub struct ObjectView {
    pub id: Seq<char>,
    pub kind: ObjectShape,
}

impl View for Object {
    type V = ObjectView;

    open spec fn view(&self) -> ObjectView {
        ObjectView { id: self.id@, kind: self.kind@ }
    }
}

impl Clone for Object {
    fn clone(&self) -> (r: Self)
        ensures
            r@ == self@,
    {
        Object { id: self.id.clone(), kind: self.kind.clone() }
    }
}

impl Object {
    /// Makes a scalar object.
    pub fn scalar<N: IntoName>(id: N) -> (r: Self)
        ensures
            r@.id == id.name_view(),
            r.kind == ObjectKind::Scalar,
    {
        Object { id: ObjectId::new(id), kind: ObjectKind::Scalar }
    }

    /// Makes a product (record) object. Each field must name an object that is
    /// registered by the time the product is added to a category.
    pub fn product<N: IntoName>(id: N, fields: Vec<(String, ObjectId)>) -> (r: Self)
        ensures
            r@.id == id.name_view(),
            r.kind == ObjectKind::Product(fields),
    {
        Object { id: ObjectId::new(id), kind: ObjectKind::Product(fields) }
    }

    /// Makes a coproduct (tagged union) object. Each variant must name an object
    /// that is registered by the time the coproduct is added to a category.
    pub fn coproduct<N: IntoName>(id: N, variants: Vec<(String, ObjectId)>) -> (r: Self)
        ensures
            r@.id == id.name_view(),
            r.kind == ObjectKind::Coproduct(variants),
    {
        Object { id: ObjectId::new(id), kind: ObjectKind::Coproduct(variants) }
    }
}

} // verus!
