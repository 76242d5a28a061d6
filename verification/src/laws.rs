//! Laws of the operations, proved on the sequence model.

use crate::model::always;
use crate::model::back;
use crate::model::each_some;
use crate::model::front;
use crate::model::popped;
use crate::model::popped_back;
use crate::model::popped_each;
use crate::model::popped_front;
use crate::model::pushed_front;
use crate::model::pushed_front_each;
use crate::model::taken;
use crate::model::taken_each;
use vstd::prelude::*;

verus! {

/// Values pushed at the front one after another stand before the old
/// elements, the value pushed last first.
pub proof fn lemma_pushed_front_each<T>(s: Seq<T>, values: Seq<T>)
    ensures
        pushed_front_each(s, values) == values.reverse() + s,
    decreases values.len(),
{
    if values.len() > 0 {
        let rest = values.drop_first();
        lemma_pushed_front_each(pushed_front(s, values.first()), rest);
        assert(rest.reverse() + pushed_front(s, values.first()) =~= values.reverse() + s);
    }
}

/// `n` removals at the front return the first `n` elements in order and
/// leave the others.
pub proof fn lemma_taken_front<T>(s: Seq<T>, n: nat)
    requires
        n <= s.len(),
    ensures
        taken_each(s, always(true, n)) == each_some(s.take(n as int)),
        popped_each(s, always(true, n)) == s.skip(n as int),
    decreases n,
{
    if n > 0 {
        let rest = popped_front(s);
        assert(always(true, n).drop_first() =~= always(true, (n - 1) as nat));
        lemma_taken_front(rest, (n - 1) as nat);
        assert(seq![front(s)] + each_some(rest.take(n - 1)) =~= each_some(s.take(n as int)));
        assert(rest.skip(n - 1) =~= s.skip(n as int));
    }
}

/// `n` removals at the back return the last `n` elements, the last of them
/// first, and leave the others.
pub proof fn lemma_taken_back<T>(s: Seq<T>, n: nat)
    requires
        n <= s.len(),
    ensures
        taken_each(s, always(false, n)) == each_some(s.reverse().take(n as int)),
        popped_each(s, always(false, n)) == s.take(s.len() - n),
    decreases n,
{
    if n > 0 {
        let rest = popped_back(s);
        assert(always(false, n).drop_first() =~= always(false, (n - 1) as nat));
        lemma_taken_back(rest, (n - 1) as nat);
        assert(seq![back(s)] + each_some(rest.reverse().take(n - 1)) =~= each_some(
            s.reverse().take(n as int),
        ));
        assert(rest.take(rest.len() - (n - 1)) =~= s.take(s.len() - n));
    }
}

/// Last in, first out: after `values` are pushed at the front in order, as
/// many removals at the front return them in reverse order and leave the
/// list as it was before the pushes.
pub proof fn lemma_lifo<T>(s: Seq<T>, values: Seq<T>)
    ensures
        taken_each(pushed_front_each(s, values), always(true, values.len())) == each_some(
            values.reverse(),
        ),
        popped_each(pushed_front_each(s, values), always(true, values.len())) == s,
{
    let full = values.reverse() + s;
    lemma_pushed_front_each(s, values);
    lemma_taken_front(full, values.len());
    assert(full.take(values.len() as int) =~= values.reverse());
    assert(full.skip(values.len() as int) =~= s);
}

/// First in, first out: after `values` are pushed at the front of an empty
/// list in order, as many removals at the back return them in that same
/// order and leave the list empty.
pub proof fn lemma_fifo<T>(values: Seq<T>)
    ensures
        taken_each(pushed_front_each(Seq::empty(), values), always(false, values.len()))
            == each_some(values),
        popped_each(pushed_front_each(Seq::empty(), values), always(false, values.len()))
            == Seq::<T>::empty(),
{
    let full = values.reverse();
    lemma_pushed_front_each(Seq::empty(), values);
    assert(values.reverse() + Seq::<T>::empty() =~= full);
    lemma_taken_back(full, values.len());
    assert(full.reverse().take(values.len() as int) =~= values);
}

/// A removal at either end of a list with elements takes exactly one of them
/// away, and a removal from an empty list returns nothing and leaves it empty.
pub proof fn lemma_popped_len<T>(s: Seq<T>, at_front: bool)
    ensures
        s.len() > 0 ==> taken(s, at_front) is Some && popped(s, at_front).len() == s.len() - 1,
        s.len() == 0 ==> taken(s, at_front) is None && popped(s, at_front) == s,
{
}

/// Exhaustion: once as many removals were made as the list had elements, at
/// whichever ends, the list is empty, and a further removal at either end
/// returns nothing and leaves it empty.
pub proof fn lemma_exhaustion<T>(s: Seq<T>, at_front: Seq<bool>)
    requires
        at_front.len() >= s.len(),
    ensures
        popped_each(s, at_front).len() == 0,
        front(popped_each(s, at_front)) is None,
        back(popped_each(s, at_front)) is None,
        popped_front(popped_each(s, at_front)) == popped_each(s, at_front),
        popped_back(popped_each(s, at_front)) == popped_each(s, at_front),
    decreases at_front.len(),
{
    if at_front.len() > 0 {
        lemma_popped_len(s, at_front.first());
        lemma_exhaustion(popped(s, at_front.first()), at_front.drop_first());
    }
}

} // verus!
