//! Categorical values: what the algorithm needs to know of an element type.

use vstd::prelude::*;

verus! {

/// Element types that K-Modes can cluster.
///
/// Two values are the same category exactly when their views are equal;
/// `duplicate` hands back a value of the same category.
pub trait EquivalenceTarget: View + Sized {
    /// Whether `self` and `other` are the same category.
    fn equivalent(&self, other: &Self) -> (r: bool)
        ensures
            r == (self@ == other@),
    ;

    /// A copy of `self` (same category).
    fn duplicate(&self) -> (r: Self)
        ensures
            r@ == self@,
    ;
}

impl EquivalenceTarget for u8 {
    fn equivalent(&self, other: &Self) -> (r: bool) {
        *self == *other
    }

    fn duplicate(&self) -> (r: Self) {
        *self
    }
}

impl EquivalenceTarget for u16 {
    fn equivalent(&self, other: &Self) -> (r: bool) {
        *self == *other
    }

    fn duplicate(&self) -> (r: Self) {
        *self
    }
}

impl EquivalenceTarget for u32 {
    fn equivalent(&self, other: &Self) -> (r: bool) {
        *self == *other
    }

    fn duplicate(&self) -> (r: Self) {
        *self
    }
}

impl EquivalenceTarget for u64 {
    fn equivalent(&self, other: &Self) -> (r: bool) {
        *self == *other
    }

    fn duplicate(&self) -> (r: Self) {
        *self
    }
}

impl EquivalenceTarget for u128 {
    fn equivalent(&self, other: &Self) -> (r: bool) {
        *self == *other
    }

    fn duplicate(&self) -> (r: Self) {
        *self
    }
}

impl EquivalenceTarget for usize {
    fn equivalent(&self, other: &Self) -> (r: bool) {
        *self == *other
    }

    fn duplicate(&self) -> (r: Self) {
        *self
    }
}

impl EquivalenceTarget for i8 {
    fn equivalent(&self, other: &Self) -> (r: bool) {
        *self == *other
    }

    fn duplicate(&self) -> (r: Self) {
        *self
    }
}

impl EquivalenceTarget for i16 {
    fn equivalent(&self, other: &Self) -> (r: bool) {
        *self == *other
    }

    fn duplicate(&self) -> (r: Self) {
        *self
    }
}

impl EquivalenceTarget for i32 {
    fn equivalent(&self, other: &Self) -> (r: bool) {
        *self == *other
    }

    fn duplicate(&self) -> (r: Self) {
        *self
    }
}

impl EquivalenceTarget for i64 {
    fn equivalent(&self, other: &Self) -> (r: bool) {
        *self == *other
    }

    fn duplicate(&self) -> (r: Self) {
        *self
    }
}

impl EquivalenceTarget for i128 {
    fn equivalent(&self, other: &Self) -> (r: bool) {
        *self == *other
    }

    fn duplicate(&self) -> (r: Self) {
        *self
    }
}

impl EquivalenceTarget for isize {
    fn equivalent(&self, other: &Self) -> (r: bool) {
        *self == *other
    }

    fn duplicate(&self) -> (r: Self) {
        *self
    }
}

impl EquivalenceTarget for bool {
    fn equivalent(&self, other: &Self) -> (r: bool) {
        *self == *other
    }

    fn duplicate(&self) -> (r: Self) {
        *self
    }
}

impl EquivalenceTarget for char {
    fn equivalent(&self, other: &Self) -> (r: bool) {
        *self == *other
    }

    fn duplicate(&self) -> (r: Self) {
        *self
    }
}

/// Compares two string slices by their characters (`<str as PartialEq>::eq`).
/// Trusted: std documents that string equality compares the contents, which is
/// what the view of a `str` is.
#[verifier::external_body]
fn str_equal(a: &str, b: &str) -> (r: bool)
    ensures
        r == (a@ == b@),
{
    a == b
}

impl<'a> EquivalenceTarget for &'a str {
    fn equivalent(&self, other: &Self) -> (r: bool) {
        str_equal(*self, *other)
    }

    fn duplicate(&self) -> (r: Self) {
        *self
    }
}

impl EquivalenceTarget for String {
    fn equivalent(&self, other: &Self) -> (r: bool) {
        *self == *other
    }

    fn duplicate(&self) -> (r: Self) {
        self.clone()
    }
}

} // verus!
