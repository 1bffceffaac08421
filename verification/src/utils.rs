//! Searching a sequence for a value.
use vstd::prelude::*;

verus! {

/// Tells whether `i` is the position of the first occurrence of `x` in `s`.
pub open spec fn is_first_index<T>(s: Seq<T>, x: T, i: int) -> bool {
    &&& 0 <= i < s.len()
    &&& s[i] == x
    &&& forall|j: int| 0 <= j < i ==> s[j] != x
}

/// Linear search in a sequence of values.
pub trait SeqExt<T> {
    /// The values of the sequence, in order.
    spec fn elements(&self) -> Seq<T>;

    /// Tells whether the sequence holds `to_check`.
    fn has_value(&self, to_check: &T) -> (found: bool)
        ensures
            found == self.elements().contains(*to_check),
    ;

    /// The position of the first occurrence of `to_check`, or `None` when the
    /// sequence does not hold it.
    fn index_of(&self, to_check: &T) -> (pos: Option<usize>)
        ensures
            match pos {
                Some(i) => is_first_index(self.elements(), *to_check, i as int),
                None => !self.elements().contains(*to_check),
            },
    ;
}

impl SeqExt<usize> for Vec<usize> {
    open spec fn elements(&self) -> Seq<usize> {
        self@
    }

    fn has_value(&self, value_to_check: &usize) -> (found: bool) {
        self.index_of(value_to_check).is_some()
    }

    fn index_of(&self, value_to_check: &usize) -> (pos: Option<usize>) {
        let mut i: usize = 0;
        while i < self.len()
            invariant
                i <= self@.len(),
                forall|j: int| 0 <= j < i ==> self@[j] != *value_to_check,
            decreases self@.len() - i,
        {
            if self[i] == *value_to_check {
                return Some(i);
            }
            i += 1;
        }
        None
    }
}

} // verus!
