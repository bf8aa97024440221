//! Values that the library compares and copies by their views.

use vstd::prelude::*;

verus! {

/// A value that can be compared with another and copied, both by its view.
/// It stands for the `Eq + Hash + Clone` bounds that the clustering and the
/// vote counts put on the values they hold.
pub trait ValueEq: View + Sized {
    /// Whether two values are the same.
    fn eq_value(&self, other: &Self) -> (r: bool)
        ensures
            r == (self@ == other@),
    ;

    /// A copy of the value.
    fn clone_value(&self) -> (r: Self)
        ensures
            r@ == self@,
    ;
}

impl ValueEq for usize {
    fn eq_value(&self, other: &Self) -> (r: bool) {
        *self == *other
    }

    fn clone_value(&self) -> (r: Self) {
        *self
    }
}

impl ValueEq for String {
    fn eq_value(&self, other: &Self) -> (r: bool) {
        *self == *other
    }

    fn clone_value(&self) -> (r: Self) {
        self.clone()
    }
}

} // verus!
