use vstd::prelude::*;

verus! {

/// Anything that can become an identifier string.
pub trait IntoName {
    spec fn name_view(&self) -> Seq<char>;

    fn into_name(self) -> (r: String)
        ensures
            r@ == self.name_view(),
    ;
}

impl<'a> IntoName for &'a str {
    open spec fn name_view(&self) -> Seq<char> {
        (*self)@
    }

    fn into_name(self) -> (r: String) {
        String::from_str(self)
    }
}

impl IntoName for String {
    open spec fn name_view(&self) -> Seq<char> {
        self@
    }

    fn into_name(self) -> (r: String) {
        self
    }
}

} // verus!
