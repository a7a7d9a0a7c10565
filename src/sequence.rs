//! The capabilities that the comparison engines ask of a sequence and of its
//! elements.
use vstd::prelude::*;

verus! {

/// An element that can be compared as a whole and duplicated.
///
/// Two elements are the same exactly when their views are equal.
pub trait Token: View + Sized {
    fn same(&self, other: &Self) -> (r: bool)
        ensures
            r == (self@ == other@),
    ;

    fn duplicate(&self) -> (r: Self)
        ensures
            r@ == self@,
    ;
}

/// An ordered, indexable, growable container of tokens.
pub trait Sequence: Sized {
    type Item: Token;

    /// The elements, in order.
    spec fn items(&self) -> Seq<Self::Item>;

    fn empty() -> (r: Self)
        ensures
            r.items().len() == 0,
    ;

    fn length(&self) -> (r: usize)
        ensures
            r == self.items().len(),
    ;

    fn at(&self, i: usize) -> (r: &Self::Item)
        requires
            i < self.items().len(),
        ensures
            *r == self.items()[i as int],
    ;

    fn push_item(&mut self, x: Self::Item)
        ensures
            final(self).items() == old(self).items().push(x),
    ;
}

/// The views of a sequence's elements: what comparisons look at.
pub open spec fn tokens<S: Sequence>(s: &S) -> Seq<<S::Item as View>::V> {
    s.items().map_values(|x: S::Item| x@)
}

/// Relies on `str`'s `PartialEq`: two string slices are equal exactly when
/// they hold the same characters.
#[verifier::external_body]
pub(crate) fn str_equal(a: &str, b: &str) -> (r: bool)
    ensures
        r == (a@ == b@),
{
    a == b
}

impl<'a> Token for &'a str {
    fn same(&self, other: &Self) -> (r: bool) {
        str_equal(*self, *other)
    }

    fn duplicate(&self) -> (r: Self) {
        *self
    }
}

impl Token for String {
    fn same(&self, other: &Self) -> (r: bool) {
        *self == *other
    }

    fn duplicate(&self) -> (r: Self) {
        self.clone()
    }
}

impl<T: Token> Sequence for Vec<T> {
    type Item = T;

    open spec fn items(&self) -> Seq<T> {
        self@
    }

    fn empty() -> (r: Self) {
        Vec::new()
    }

    fn length(&self) -> (r: usize) {
        self.len()
    }

    fn at(&self, i: usize) -> (r: &T) {
        &self[i]
    }

    fn push_item(&mut self, x: T) {
        self.push(x);
    }
}

} // verus!
