use vstd::prelude::*;

verus! {

/// A value that can be compared with another of its type by its view and
/// copied without changing its view. Keys of `SharedMap` and items that
/// `SharedArray` searches for are of such a type.
pub trait SlotKey: Sized + View {
    fn same_as(&self, other: &Self) -> (r: bool)
        ensures
            r == (self@ == other@),
    ;

    fn duplicate(&self) -> (r: Self)
        ensures
            r@ == self@,
    ;
}

impl SlotKey for String {
    fn same_as(&self, other: &Self) -> (r: bool) {
        *self == *other
    }

    fn duplicate(&self) -> (r: Self) {
        self.clone()
    }
}

} // verus!
