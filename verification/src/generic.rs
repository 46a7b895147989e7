//! Type-level plumbing for the grammar builder: flattening of extraction
//! tuples and the curried handler interface.

use vstd::prelude::*;

verus! {

/// A callable over a flattened argument tuple.  Handlers given to
/// `CommandBuilder::on_call` implement it twice, curried: once from the
/// extraction tuple to a second stage, and once from the game state to the
/// command's result.
pub trait Func<Args> {
    type Output;

    fn call(&self, args: Args) -> Self::Output;
}

/// Concatenation of extraction tuples: sequencing two grammar fragments
/// concatenates what they extract, keeping the tuple flat.
/// `view_concat` is the same concatenation on the deep views of the tuples,
/// which the parsing contracts are stated over.
pub trait ExtractConcat<B: DeepView>: DeepView + Sized {
    type Out: DeepView;

    spec fn view_concat(a: <Self as DeepView>::V, b: <B as DeepView>::V) -> <Self::Out as DeepView>::V;

    fn concat(self, b: B) -> (r: Self::Out)
        ensures
            r.deep_view() == Self::view_concat(self.deep_view(), b.deep_view()),
    ;
}

impl<B: DeepView> ExtractConcat<B> for () {
    type Out = B;

    open spec fn view_concat(a: (), b: B::V) -> B::V {
        b
    }

    fn concat(self, b: B) -> (r: B) {
        b
    }
}

impl<A1: DeepView> ExtractConcat<()> for (A1,) {
    type Out = (A1,);

    open spec fn view_concat(a: (A1::V,), b: ()) -> (A1::V,) {
        a
    }

    fn concat(self, b: ()) -> (r: (A1,)) {
        self
    }
}

impl<A1: DeepView, B1: DeepView> ExtractConcat<(B1,)> for (A1,) {
    type Out = (A1, B1);

    open spec fn view_concat(a: (A1::V,), b: (B1::V,)) -> (A1::V, B1::V) {
        (a.0, b.0)
    }

    fn concat(self, b: (B1,)) -> (r: (A1, B1)) {
        (self.0, b.0)
    }
}

impl<A1: DeepView, A2: DeepView> ExtractConcat<()> for (A1, A2) {
    type Out = (A1, A2);

    open spec fn view_concat(a: (A1::V, A2::V), b: ()) -> (A1::V, A2::V) {
        a
    }

    fn concat(self, b: ()) -> (r: (A1, A2)) {
        self
    }
}

impl<A1: DeepView, A2: DeepView, B1: DeepView> ExtractConcat<(B1,)> for (A1, A2) {
    type Out = (A1, A2, B1);

    open spec fn view_concat(a: (A1::V, A2::V), b: (B1::V,)) -> (A1::V, A2::V, B1::V) {
        (a.0, a.1, b.0)
    }

    fn concat(self, b: (B1,)) -> (r: (A1, A2, B1)) {
        (self.0, self.1, b.0)
    }
}

impl<A1: DeepView, A2: DeepView, A3: DeepView> ExtractConcat<()> for (A1, A2, A3) {
    type Out = (A1, A2, A3);

    open spec fn view_concat(a: (A1::V, A2::V, A3::V), b: ()) -> (A1::V, A2::V, A3::V) {
        a
    }

    fn concat(self, b: ()) -> (r: (A1, A2, A3)) {
        self
    }
}

impl<A1: DeepView, A2: DeepView, A3: DeepView, B1: DeepView> ExtractConcat<(B1,)> for (
    A1,
    A2,
    A3,
) {
    type Out = (A1, A2, A3, B1);

    open spec fn view_concat(a: (A1::V, A2::V, A3::V), b: (B1::V,)) -> (A1::V, A2::V, A3::V, B1::V) {
        (a.0, a.1, a.2, b.0)
    }

    fn concat(self, b: (B1,)) -> (r: (A1, A2, A3, B1)) {
        (self.0, self.1, self.2, b.0)
    }
}

impl<A1: DeepView, A2: DeepView, A3: DeepView, A4: DeepView> ExtractConcat<()> for (
    A1,
    A2,
    A3,
    A4,
) {
    type Out = (A1, A2, A3, A4);

    open spec fn view_concat(a: (A1::V, A2::V, A3::V, A4::V), b: ()) -> (A1::V, A2::V, A3::V, A4::V) {
        a
    }

    fn concat(self, b: ()) -> (r: (A1, A2, A3, A4)) {
        self
    }
}

} // verus!
