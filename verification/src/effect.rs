//! Effects attached to morphisms: asynchrony and failure, stacked as monad layers.

use vstd::prelude::*;

use crate::object::ObjectId;

verus! {

/// One layer of effects that a morphism can carry.
#[derive(Debug, PartialEq, Eq)]
pub enum Effect {
    /// Asynchronous execution (Promise / Future).
    Async,
    /// A computation that can fail (Result / Either), with its error object.
    Fallible {
        /// The object of the error value.
        error: ObjectId,
    },
}

/// Mathematical view of [`Effect`].
pub enum EffectView {
    Async,
    Fallible(Seq<char>),
}

impl View for Effect {
    type V = EffectView;

    open spec fn view(&self) -> EffectView {
        match self {
            Effect::Async => EffectView::Async,
            Effect::Fallible { error } => EffectView::Fallible(error@),
        }
    }
}

impl Clone for Effect {
    fn clone(&self) -> (r: Self)
        ensures
            r@ == self@,
    {
        match self {
            Effect::Async => Effect::Async,
            Effect::Fallible { error } => Effect::Fallible { error: error.clone() },
        }
    }
}

/// The view of a list of effect layers.
pub open spec fn layers_view(v: Seq<Effect>) -> Seq<EffectView> {
    v.map_values(|e: Effect| e@)
}

/// The objects that the error layers of a stack name, outermost first.
pub open spec fn error_objects(layers: Seq<EffectView>) -> Seq<Seq<char>>
    decreases layers.len(),
{
    if layers.len() == 0 {
        Seq::empty()
    } else {
        let rest = error_objects(layers.drop_first());
        match layers[0] {
            EffectView::Async => rest,
            EffectView::Fallible(e) => seq![e] + rest,
        }
    }
}

proof fn lemma_layers_view_push(s: Seq<Effect>, e: Effect)
    ensures
        layers_view(s.push(e)) == layers_view(s).push(e@),
{
    assert(layers_view(s.push(e)) =~= layers_view(s).push(e@));
}

/// How one layer wraps the type written inside it.
pub open spec fn wrap_layer(layer: EffectView, inner: Seq<char>) -> Seq<char> {
    match layer {
        EffectView::Async => "Async<"@ + inner + ">"@,
        EffectView::Fallible(error) => "Result<"@ + inner + ", "@ + error + ">"@,
    }
}

/// The type notation of `payload` under `layers`, outermost layer first.
pub open spec fn render_layers(layers: Seq<EffectView>, payload: Seq<char>) -> Seq<char>
    decreases layers.len(),
{
    if layers.len() == 0 {
        payload
    } else {
        wrap_layer(layers[0], render_layers(layers.drop_first(), payload))
    }
}

/// A stack of effects; the first layer is the outermost one.
///
/// For example `[Effect::Async, Effect::Fallible { error: ApiError }]` stands for
/// `Async<Result<_, ApiError>>`.
#[derive(Debug, PartialEq, Eq)]
pub struct EffectStack(Vec<Effect>);

impl View for EffectStack {
    type V = Seq<EffectView>;

    closed spec fn view(&self) -> Seq<EffectView> {
        layers_view(self.0@)
    }
}

fn clone_layers(v: &Vec<Effect>) -> (r: Vec<Effect>)
    ensures
        layers_view(r@) == layers_view(v@),
{
    let mut out: Vec<Effect> = Vec::new();
    let mut i: usize = 0;
    while i < v.len()
        invariant
            i <= v.len(),
            layers_view(out@) == layers_view(v@.subrange(0, i as int)),
        decreases v.len() - i,
    {
        let e = v[i].clone();
        let ghost before = out@;
        out.push(e);
        proof {
            lemma_layers_view_push(before, e);
            assert(v@.subrange(0, i + 1) =~= v@.subrange(0, i as int).push(v@[i as int]));
            lemma_layers_view_push(v@.subrange(0, i as int), v@[i as int]);
        }
        i = i + 1;
    }
    proof {
        assert(v@.subrange(0, v@.len() as int) == v@);
    }
    out
}

impl Clone for EffectStack {
    fn clone(&self) -> (r: Self)
        ensures
            r@ == self@,
    {
        EffectStack(clone_layers(&self.0))
    }
}

impl Default for EffectStack {
    fn default() -> (r: Self)
        ensures
            r@ == Seq::<EffectView>::empty(),
    {
        EffectStack::pure()
    }
}

impl EffectStack {
    /// A stack without effects: the morphism is pure.
    pub fn pure() -> (r: Self)
        ensures
            r@ == Seq::<EffectView>::empty(),
    {
        let r = EffectStack(Vec::new());
        proof {
            assert(r@ =~= Seq::<EffectView>::empty());
        }
        r
    }

    /// A stack of the given layers, outermost first.
    pub fn wrapping(layers: Vec<Effect>) -> (r: Self)
        ensures
            r@ == layers_view(layers@),
    {
        EffectStack(layers)
    }

    /// The layers, outermost first.
    pub fn layers(&self) -> (r: &[Effect])
        ensures
            layers_view(r@) == self@,
    {
        self.0.as_slice()
    }

    /// Whether the stack has no layer at all (the morphism is pure).
    pub fn is_pure(&self) -> (r: bool)
        ensures
            r == (self@.len() == 0),
    {
        self.0.len() == 0
    }

    /// The stack of a composite: the layers of `self` outside those of `inner`.
    pub fn merge(&self, inner: &EffectStack) -> (r: EffectStack)
        ensures
            r@ == self@ + inner@,
    {
        let mut out = clone_layers(&self.0);
        let mut i: usize = 0;
        while i < inner.0.len()
            invariant
                i <= inner.0.len(),
                layers_view(out@) == self@ + layers_view(inner.0@.subrange(0, i as int)),
            decreases inner.0.len() - i,
        {
            let e = inner.0[i].clone();
            let ghost before = out@;
            out.push(e);
            proof {
                let lo = layers_view(before);
                assert(layers_view(out@) =~= lo.push(e@));
                assert(layers_view(inner.0@.subrange(0, i + 1)) =~= layers_view(
                    inner.0@.subrange(0, i as int),
                ).push(e@));
                assert(layers_view(out@) =~= self@ + layers_view(inner.0@.subrange(0, i + 1)));
            }
            i = i + 1;
        }
        proof {
            assert(inner.0@.subrange(0, inner.0@.len() as int) == inner.0@);
        }
        EffectStack(out)
    }

    /// The type notation of `payload` under this stack.
    ///
    /// For `payload` `User` and the stack `[Async, Fallible{ApiError}]` this is
    /// `Async<Result<User, ApiError>>`.
    pub fn render(&self, payload: &ObjectId) -> (r: String)
        ensures
            r@ == render_layers(self@, payload@),
    {
        let n = self.0.len();
        let mut acc = payload.0.clone();
        let mut i: usize = n;
        proof {
            assert(self@.subrange(n as int, n as int) =~= Seq::<EffectView>::empty());
        }
        while i > 0
            invariant
                i <= n,
                n == self.0@.len(),
                self@.len() == n,
                acc@ == render_layers(self@.subrange(i as int, n as int), payload@),
            decreases i,
        {
            i = i - 1;
            let ghost before = acc@;
            let ghost tail = self@.subrange(i as int, n as int);
            proof {
                assert(tail.drop_first() =~= self@.subrange(i + 1, n as int));
                assert(tail[0] == self@[i as int]);
                assert(self@[i as int] == self.0@[i as int]@);
            }
            match &self.0[i] {
                Effect::Async => {
                    let mut s = String::from_str("Async<");
                    s.append(acc.as_str());
                    s.append(">");
                    acc = s;
                },
                Effect::Fallible { error } => {
                    let mut s = String::from_str("Result<");
                    s.append(acc.as_str());
                    s.append(", ");
                    s.append(error.as_str());
                    s.append(">");
                    acc = s;
                },
            }
        }
        proof {
            assert(self@.subrange(0, n as int) == self@);
        }
        acc
    }

    /// The notation of this stack around the placeholder payload `_`.
    pub fn describe(&self) -> (r: String)
        ensures
            r@ == render_layers(self@, "_"@),
    {
        let placeholder = ObjectId::new("_");
        self.render(&placeholder)
    }
}

} // verus!
