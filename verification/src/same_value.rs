//! Equality of values as their deep views show them.

use vstd::prelude::*;

verus! {

/// A type whose values can be compared, and two of which are the same exactly
/// when their deep views are equal.
pub trait SameValue: DeepView + Sized {
    fn same(&self, other: &Self) -> (result: bool)
        ensures
            result == (self.deep_view() == other.deep_view()),
    ;
}

impl SameValue for bool {
    fn same(&self, other: &Self) -> (result: bool) {
        *self == *other
    }
}

impl SameValue for u8 {
    fn same(&self, other: &Self) -> (result: bool) {
        *self == *other
    }
}

impl SameValue for String {
    fn same(&self, other: &Self) -> (result: bool) {
        *self == *other
    }
}

impl<A: SameValue, B: SameValue> SameValue for (A, B) {
    fn same(&self, other: &Self) -> (result: bool) {
        self.0.same(&other.0) && self.1.same(&other.1)
    }
}

impl<T: SameValue> SameValue for Option<T> {
    fn same(&self, other: &Self) -> (result: bool) {
        match (self, other) {
            (Some(a), Some(b)) => a.same(b),
            (None, None) => true,
            _ => false,
        }
    }
}

impl<T: SameValue> SameValue for Vec<T> {
    fn same(&self, other: &Self) -> (result: bool) {
        if self.len() != other.len() {
            assert(self.deep_view().len() != other.deep_view().len());
            return false;
        }
        for i in 0..self.len()
            invariant
                self.len() == other.len(),
                forall|j: int|
                    0 <= j < i ==> #[trigger] self.deep_view()[j] == other.deep_view()[j],
        {
            if !self[i].same(&other[i]) {
                assert(self.deep_view()[i as int] != other.deep_view()[i as int]);
                return false;
            }
        }
        assert(self.deep_view() =~= other.deep_view());
        true
    }
}

/// The deep view of a result.
pub open spec fn result_view<T: DeepView, E: DeepView>(result: Result<T, E>) -> Result<T::V, E::V> {
    match result {
        Ok(value) => Ok(value.deep_view()),
        Err(error) => Err(error.deep_view()),
    }
}

/// Whether `list` holds a value that is the same as `value`.
pub fn holds<T: SameValue>(list: &[T], value: &T) -> (result: bool)
    ensures
        result == list.deep_view().contains(value.deep_view()),
{
    for i in 0..list.len()
        invariant
            forall|j: int| 0 <= j < i ==> #[trigger] list.deep_view()[j] != value.deep_view(),
    {
        if list[i].same(value) {
            assert(list.deep_view()[i as int] == value.deep_view());
            return true;
        }
    }
    false
}

} // verus!
