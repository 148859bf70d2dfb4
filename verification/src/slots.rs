//! Tables of numbered slots. A slot holds a live value or is empty; a new
//! value goes into the empty slot with the lowest number, and only where no
//! slot is empty does the table grow. The number of a slot is the id of the
//! value in it, so an id can come back once its slot has been emptied.
use vstd::prelude::*;

verus! {

/// `id` is where the next value goes: the lowest empty slot, or the length
/// of the table where no slot is empty.
pub open spec fn is_first_free<T>(slots: Seq<Option<T>>, id: int) -> bool {
    &&& 0 <= id <= slots.len()
    &&& id < slots.len() ==> slots[id] is None
    &&& forall|j: int| 0 <= j < id ==> (#[trigger] slots[j]) is Some
}

/// The id that the next value will get.
pub open spec fn first_free<T>(slots: Seq<Option<T>>) -> int {
    choose|id: int| is_first_free(slots, id)
}

/// The table after `value` has taken the first free slot.
pub open spec fn filled<T>(slots: Seq<Option<T>>, value: T) -> Seq<Option<T>> {
    let id = first_free(slots);
    if id < slots.len() {
        slots.update(id, Some(value))
    } else {
        slots.push(Some(value))
    }
}

/// The table after slot `id` has been emptied.
pub open spec fn vacated<T>(slots: Seq<Option<T>>, id: int) -> Seq<Option<T>> {
    if 0 <= id < slots.len() {
        slots.update(id, None)
    } else {
        slots
    }
}

/// Slot `id` holds a value.
pub open spec fn live<T>(slots: Seq<Option<T>>, id: int) -> bool {
    0 <= id < slots.len() && slots[id] is Some
}

/// There is exactly one place for the next value.
pub proof fn lemma_first_free_unique<T>(slots: Seq<Option<T>>, id: int)
    requires
        is_first_free(slots, id),
    ensures
        first_free(slots) == id,
{
    let other = first_free(slots);
    assert(is_first_free(slots, other));
    if other < id {
        assert(slots[other] is Some);
    } else if id < other {
        assert(slots[id] is Some);
    }
}

/// Every table has a place for the next value.
pub proof fn lemma_first_free_exists<T>(slots: Seq<Option<T>>)
    ensures
        is_first_free(slots, first_free(slots)),
    decreases slots.len(),
{
    if slots.len() == 0 {
        assert(is_first_free(slots, 0));
    } else {
        let front = slots.drop_last();
        lemma_first_free_exists(front);
        let id = first_free(front);
        if id < front.len() {
            assert forall|j: int| 0 <= j < id implies (#[trigger] slots[j]) is Some by {
                assert(front[j] is Some);
            }
            assert(slots[id] == front[id]);
            assert(is_first_free(slots, id));
        } else {
            assert forall|j: int| 0 <= j < front.len() implies (#[trigger] slots[j]) is Some by {
                assert(front[j] is Some);
            }
            if slots.last() is None {
                assert(is_first_free(slots, slots.len() - 1));
            } else {
                assert(is_first_free(slots, slots.len() as int));
            }
        }
    }
}

/// An id comes back: when a value has been put into a table and its slot is
/// emptied again, the next value gets the same id, whatever the two values
/// are.
pub proof fn lemma_id_reused<T>(slots: Seq<Option<T>>, first: T, second: T)
    ensures
        first_free(vacated(filled(slots, first), first_free(slots))) == first_free(slots),
        live(filled(slots, first), first_free(slots)),
        filled(vacated(filled(slots, first), first_free(slots)), second) == filled(slots, second),
{
    lemma_first_free_exists(slots);
    let id = first_free(slots);
    let full = filled(slots, first);
    let again = vacated(full, id);
    assert forall|j: int| 0 <= j < id implies (#[trigger] again[j]) is Some by {
        assert(slots[j] is Some);
    }
    assert(is_first_free(again, id));
    lemma_first_free_unique(again, id);
    if id < slots.len() {
        assert(filled(again, second) =~= filled(slots, second));
    } else {
        assert(filled(again, second) =~= filled(slots, second));
    }
}

/// A table of numbered slots.
pub struct SlotTable<T> {
    pub slots: Vec<Option<T>>,
}

impl<T> View for SlotTable<T> {
    type V = Seq<Option<T>>;

    open spec fn view(&self) -> Seq<Option<T>> {
        self.slots@
    }
}

impl<T> SlotTable<T> {
    /// A table without slots.
    pub fn new() -> (table: SlotTable<T>)
        ensures
            table@ == Seq::<Option<T>>::empty(),
    {
        SlotTable { slots: Vec::new() }
    }

    /// Number of slots, live or empty.
    pub fn len(&self) -> (n: usize)
        ensures
            n == self@.len(),
    {
        self.slots.len()
    }

    /// Whether slot `id` holds a value.
    pub fn is_live(&self, id: usize) -> (yes: bool)
        ensures
            yes == live(self@, id as int),
    {
        id < self.slots.len() && self.slots[id].is_some()
    }

    /// The id that the next value will get.
    pub fn first_free(&self) -> (id: usize)
        ensures
            id == first_free(self@),
            is_first_free(self@, id as int),
    {
        let n = self.slots.len();
        let mut id: usize = 0;
        while id < n && self.slots[id].is_some()
            invariant
                n == self@.len(),
                id <= n,
                forall|j: int| 0 <= j < id ==> (#[trigger] self@[j]) is Some,
            decreases n - id,
        {
            id += 1;
        }
        proof {
            lemma_first_free_unique(self@, id as int);
        }
        id
    }

    /// Puts `value` into the first free slot and returns the slot's number.
    pub fn insert(&mut self, value: T) -> (id: usize)
        ensures
            id == first_free(old(self)@),
            is_first_free(old(self)@, id as int),
            final(self)@ == filled(old(self)@, value),
            live(final(self)@, id as int),
            final(self)@[id as int] == Some(value),
            final(self)@.len() == if id < old(self)@.len() {
                old(self)@.len()
            } else {
                old(self)@.len() + 1
            },
            forall|j: int| 0 <= j < old(self)@.len() && j != id ==> final(self)@[j] == old(self)@[j],
    {
        let id = self.first_free();
        if id < self.slots.len() {
            self.slots[id] = Some(value);
        } else {
            self.slots.push(Some(value));
        }
        id
    }

    /// Empties slot `id` and hands out what it held.
    pub fn vacate(&mut self, id: usize) -> (gone: Option<T>)
        ensures
            final(self)@ == vacated(old(self)@, id as int),
            gone == if id < old(self)@.len() {
                old(self)@[id as int]
            } else {
                None
            },
    {
        if id < self.slots.len() {
            self.slots[id].take()
        } else {
            None
        }
    }
}

} // verus!
