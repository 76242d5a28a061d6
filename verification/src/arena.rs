//! An arena: values kept in numbered slots, where the slot vacated last is
//! filled again before a new slot is made.

use vstd::prelude::*;

verus! {

/// Values in numbered slots. A value keeps its slot number until it is removed.
pub struct Arena<T> {
    /// The slots; a vacated one holds nothing.
    slots: Vec<Option<T>>,
    /// The numbers of the vacated slots, the one vacated last at the end.
    vacant: Vec<usize>,
}

impl<T> View for Arena<T> {
    type V = Map<usize, T>;

    /// The occupied slots: each slot number with the value it holds.
    closed spec fn view(&self) -> Map<usize, T> {
        Map::new(
            |at: usize| at < self.slots@.len() && self.slots@[at as int] is Some,
            |at: usize| self.slots@[at as int]->0,
        )
    }
}

impl<T> Arena<T> {
    /// How many slots there are, occupied or not.
    pub closed spec fn slot_count(&self) -> nat {
        self.slots@.len()
    }

    /// The numbers of the vacated slots, in the order in which they were vacated.
    pub closed spec fn vacancies(&self) -> Seq<usize> {
        self.vacant@
    }

    /// The vacancy list names every slot that holds nothing, once, and no other.
    pub closed spec fn well_formed(&self) -> bool {
        let slots = self.slots@;
        let vacant = self.vacant@;
        &&& vacant.no_duplicates()
        &&& forall|j: int|
            0 <= j < vacant.len() ==> {
                &&& (#[trigger] vacant[j]) < slots.len()
                &&& slots[vacant[j] as int] is None
            }
        &&& forall|at: usize|
            at < slots.len() && (#[trigger] slots[at as int]) is None ==> vacant.contains(at)
    }

    /// An arena without slots.
    pub fn new() -> (arena: Self)
        ensures
            arena.well_formed(),
            arena@ == Map::<usize, T>::empty(),
            arena.slot_count() == 0,
            arena.vacancies() == Seq::<usize>::empty(),
    {
        let arena = Arena { slots: Vec::new(), vacant: Vec::new() };
        arena
    }

    /// Puts `value` into the slot vacated last, or into a new slot where none
    /// is vacant, and returns that slot's number.
    pub fn insert(&mut self, value: T) -> (at: usize)
        requires
            old(self).well_formed(),
        ensures
            final(self).well_formed(),
            !old(self)@.dom().contains(at),
            final(self)@ == old(self)@.insert(at, value),
            old(self).vacancies().len() > 0 ==> {
                &&& at == old(self).vacancies().last()
                &&& final(self).vacancies() == old(self).vacancies().drop_last()
                &&& final(self).slot_count() == old(self).slot_count()
            },
            old(self).vacancies().len() == 0 ==> {
                &&& at == old(self).slot_count()
                &&& final(self).vacancies() == old(self).vacancies()
                &&& final(self).slot_count() == old(self).slot_count() + 1
            },
    {
        let at = match self.vacant.pop() {
            Some(at) => {
                self.slots[at] = Some(value);
                at
            },
            None => {
                let at = self.slots.len();
                self.slots.push(Some(value));
                at
            },
        };
        proof {
            let slots = self.slots@;
            let vacant = self.vacant@;
            let before = old(self).vacant@;
            assert forall|x: usize|
                x < slots.len() && (#[trigger] slots[x as int]) is None implies vacant.contains(
                x,
            ) by {
                let j = choose|j: int| 0 <= j < before.len() && before[j] == x;
                assert(vacant[j] == x);
            }
        }
        at
    }

    /// The value in slot `at`.
    pub fn get(&self, at: usize) -> (value: &T)
        requires
            self@.dom().contains(at),
        ensures
            *value == self@[at],
    {
        self.slots[at].as_ref().unwrap()
    }

    /// The value in slot `at`, to be changed in place.
    pub fn get_mut(&mut self, at: usize) -> (value: &mut T)
        requires
            old(self).well_formed(),
            old(self)@.dom().contains(at),
        ensures
            final(self).well_formed(),
            *value == old(self)@[at],
            final(self)@ == old(self)@.insert(at, *final(value)),
            final(self).vacancies() == old(self).vacancies(),
            final(self).slot_count() == old(self).slot_count(),
    {
        self.slots[at].as_mut().unwrap()
    }

    /// Takes the value out of slot `at` and vacates the slot.
    pub fn remove(&mut self, at: usize) -> (value: T)
        requires
            old(self).well_formed(),
            old(self)@.dom().contains(at),
        ensures
            final(self).well_formed(),
            value == old(self)@[at],
            final(self)@ == old(self)@.remove(at),
            final(self).vacancies() == old(self).vacancies().push(at),
            final(self).slot_count() == old(self).slot_count(),
    {
        let value = self.slots[at].take().unwrap();
        self.vacant.push(at);
        proof {
            let slots = self.slots@;
            let vacant = self.vacant@;
            let before = old(self).vacant@;
            assert forall|x: usize|
                x < slots.len() && (#[trigger] slots[x as int]) is None implies vacant.contains(
                x,
            ) by {
                if x == at {
                    assert(vacant[before.len() as int] == x);
                } else {
                    let j = choose|j: int| 0 <= j < before.len() && before[j] == x;
                    assert(vacant[j] == x);
                }
            }
        }
        value
    }
}

} // verus!
