//! Small traits shared by the audio and network code.

use vstd::prelude::*;

verus! {

/// Converts a value between native and big- or little-endian byte order in place.
pub trait InPlaceEndiannessConversion {
    fn to_be(&mut self);

    fn to_le(&mut self);
}

/// Fills a buffer with copies of a sequence of items.
pub trait CopyFromIterator<T>: View<V = Seq<T>> + Sized {
    /// Fills the slots of `self`, front first, with `items` while they last; slots past the
    /// last item keep their values.
    fn copy_from_iter(&mut self, items: Vec<T>)
        ensures
            final(self)@.len() == old(self)@.len(),
            forall|i: int|
                0 <= i < old(self)@.len() ==> #[trigger] final(self)@[i] == if i < items@.len() {
                    items@[i]
                } else {
                    old(self)@[i]
                },
    ;
}

impl<T: Copy> CopyFromIterator<T> for Vec<T> {
    fn copy_from_iter(&mut self, items: Vec<T>) {
        let mut i: usize = 0;
        while i < self.len() && i < items.len()
            invariant
                i <= old(self)@.len(),
                i <= items@.len(),
                self@.len() == old(self)@.len(),
                forall|k: int|
                    0 <= k < old(self)@.len() ==> #[trigger] self@[k] == if k < i {
                        items@[k]
                    } else {
                        old(self)@[k]
                    },
            decreases self@.len() - i,
        {
            self.set(i, items[i]);
            i = i + 1;
        }
    }
}

/// Numbers with the arithmetic operators.
pub trait Num: core::ops::Add + core::ops::Sub + core::ops::Mul + core::ops::Div + core::ops::Rem + Sized {

}

/// Totally ordered numbers.
pub trait NumCmp: Eq + Ord + Sized {

}

/// Partially ordered numbers.
pub trait NumPartialCmp: PartialEq + PartialOrd + Sized {

}

/// Numbers with the shift operators.
pub trait NumSh: core::ops::Shl + core::ops::Shr + Sized {

}

} // verus!
