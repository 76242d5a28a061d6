//! What the list's operations do, stated on plain sequences.

use vstd::prelude::*;

verus! {

/// The sequence with `value` put before its first element.
pub open spec fn pushed_front<T>(s: Seq<T>, value: T) -> Seq<T> {
    seq![value] + s
}

/// The sequence with `value` put after its last element.
pub open spec fn pushed_back<T>(s: Seq<T>, value: T) -> Seq<T> {
    s.push(value)
}

/// The first element, or none in an empty sequence.
pub open spec fn front<T>(s: Seq<T>) -> Option<T> {
    if s.len() == 0 {
        None
    } else {
        Some(s.first())
    }
}

/// The last element, or none in an empty sequence.
pub open spec fn back<T>(s: Seq<T>) -> Option<T> {
    if s.len() == 0 {
        None
    } else {
        Some(s.last())
    }
}

/// The sequence without its first element; an empty sequence stays as it is.
pub open spec fn popped_front<T>(s: Seq<T>) -> Seq<T> {
    if s.len() == 0 {
        s
    } else {
        s.drop_first()
    }
}

/// The sequence without its last element; an empty sequence stays as it is.
pub open spec fn popped_back<T>(s: Seq<T>) -> Seq<T> {
    if s.len() == 0 {
        s
    } else {
        s.drop_last()
    }
}

/// The sequence after a removal at the front, where `at_front` holds, or at
/// the back.
pub open spec fn popped<T>(s: Seq<T>, at_front: bool) -> Seq<T> {
    if at_front {
        popped_front(s)
    } else {
        popped_back(s)
    }
}

/// What a removal at the front, where `at_front` holds, or at the back
/// returns.
pub open spec fn taken<T>(s: Seq<T>, at_front: bool) -> Option<T> {
    if at_front {
        front(s)
    } else {
        back(s)
    }
}

/// The sequence after each of `values` was pushed at the front, the first of
/// them first.
pub open spec fn pushed_front_each<T>(s: Seq<T>, values: Seq<T>) -> Seq<T>
    decreases values.len(),
{
    if values.len() == 0 {
        s
    } else {
        pushed_front_each(pushed_front(s, values.first()), values.drop_first())
    }
}

/// The sequence after one removal for each entry of `at_front`, made at the
/// front where the entry holds and at the back where it does not.
pub open spec fn popped_each<T>(s: Seq<T>, at_front: Seq<bool>) -> Seq<T>
    decreases at_front.len(),
{
    if at_front.len() == 0 {
        s
    } else {
        popped_each(popped(s, at_front.first()), at_front.drop_first())
    }
}

/// What those removals return, in the order in which they are made.
pub open spec fn taken_each<T>(s: Seq<T>, at_front: Seq<bool>) -> Seq<Option<T>>
    decreases at_front.len(),
{
    if at_front.len() == 0 {
        Seq::empty()
    } else {
        seq![taken(s, at_front.first())] + taken_each(
            popped(s, at_front.first()),
            at_front.drop_first(),
        )
    }
}

/// `n` times the same end.
pub open spec fn always(at_front: bool, n: nat) -> Seq<bool> {
    Seq::new(n, |k: int| at_front)
}

/// Each value wrapped as a returned element.
pub open spec fn each_some<T>(values: Seq<T>) -> Seq<Option<T>> {
    Seq::new(values.len(), |k: int| Some(values[k]))
}

} // verus!
