//! The mathematical model of an arena: a sequence of slots, each with a
//! generation of its own, and a stack of the slots that are free.

use vstd::prelude::*;
use crate::handle::Handle;

verus! {

/// One storage location of the arena.
pub enum Slot {
    /// The slot holds a value; `generation` counts how often the slot was
    /// freed before the value moved in.
    Occupied { value: Seq<char>, generation: u64 },
    /// The slot is free; `generation` counts how often it was freed, and is
    /// what its next occupant's handle will carry.
    Free { generation: u64 },
}

impl Slot {
    /// The number of times the slot was freed.
    pub open spec fn generation(self) -> u64 {
        match self {
            Slot::Occupied { generation, .. } => generation,
            Slot::Free { generation } => generation,
        }
    }
}

/// The number of times that any of the slots was freed: the sum of their
/// generations.
pub open spec fn total_generations(slots: Seq<Slot>) -> nat
    decreases slots.len(),
{
    if slots.len() == 0 {
        0
    } else {
        total_generations(slots.drop_last()) + slots.last().generation() as nat
    }
}

/// The number of slots that hold a value.
pub open spec fn occupied(slots: Seq<Slot>) -> nat
    decreases slots.len(),
{
    if slots.len() == 0 {
        0
    } else {
        occupied(slots.drop_last()) + if slots.last() is Occupied {
            1nat
        } else {
            0nat
        }
    }
}

/// The state of an arena as the contracts speak of it.
pub struct ArenaView {
    /// Every slot that has ever held a value, by position.
    pub slots: Seq<Slot>,
    /// The free slots, the most recently freed first.
    pub free: Seq<usize>,
}

impl ArenaView {
    /// The arena with no slot at all.
    pub open spec fn empty() -> ArenaView {
        ArenaView { slots: Seq::empty(), free: Seq::empty() }
    }

    /// A handle is valid when its slot is occupied and has the handle's
    /// generation.
    pub open spec fn contains(self, h: Handle) -> bool {
        &&& h.index < self.slots.len()
        &&& self.slots[h.index as int] is Occupied
        &&& self.slots[h.index as int].generation() == h.generation
    }

    /// The text filed under `h`, if `h` is valid.
    pub open spec fn get(self, h: Handle) -> Option<Seq<char>> {
        if self.contains(h) {
            Some(self.slots[h.index as int]->value)
        } else {
            None
        }
    }

    /// The number of values in the arena: each occupied slot has one valid
    /// handle, and a free slot has none.
    pub open spec fn len(self) -> nat {
        occupied(self.slots)
    }

    /// The number of removals so far.
    pub open spec fn removals(self) -> nat {
        total_generations(self.slots)
    }

    /// Whether one more value can be filed: a free slot waits, or the
    /// number of slots can still grow by one.
    pub open spec fn has_room(self) -> bool {
        self.free.len() > 0 || self.slots.len() < usize::MAX
    }

    /// The handle that the next insertion returns: the slot on top of the
    /// free stack at that slot's generation, or, when no slot is free, a new
    /// slot after the last at generation zero.
    pub open spec fn next_handle(self) -> Handle {
        if self.free.len() > 0 {
            Handle {
                index: self.free[0],
                generation: self.slots[self.free[0] as int].generation(),
            }
        } else {
            Handle { index: self.slots.len() as usize, generation: 0 }
        }
    }

    /// The arena after `value` was filed under `self.next_handle()`.
    pub open spec fn insert(self, value: Seq<char>) -> ArenaView {
        let generation = self.next_handle().generation;
        if self.free.len() > 0 {
            ArenaView {
                slots: self.slots.update(
                    self.free[0] as int,
                    Slot::Occupied { value, generation },
                ),
                free: self.free.drop_first(),
            }
        } else {
            ArenaView {
                slots: self.slots.push(Slot::Occupied { value, generation }),
                free: self.free,
            }
        }
    }

    /// Whether `h` can be removed: the count of all removals must be able to
    /// move on by one, and with it the slot's generation. An invalid handle
    /// can always be "removed": nothing happens.
    pub open spec fn can_remove(self, h: Handle) -> bool {
        self.contains(h) ==> self.removals() < u64::MAX
    }

    /// The arena after the removal of `h`: a valid handle's slot is freed at
    /// the next generation and put on top of the free stack; an invalid
    /// handle changes nothing.
    pub open spec fn remove(self, h: Handle) -> ArenaView {
        if self.contains(h) {
            ArenaView {
                slots: self.slots.update(
                    h.index as int,
                    Slot::Free { generation: (h.generation + 1) as u64 },
                ),
                free: seq![h.index] + self.free,
            }
        } else {
            self
        }
    }

    /// The arena after the text under `h` was replaced by `value`; an
    /// invalid handle changes nothing.
    pub open spec fn replace(self, h: Handle, value: Seq<char>) -> ArenaView {
        if self.contains(h) {
            ArenaView {
                slots: self.slots.update(
                    h.index as int,
                    Slot::Occupied { value, generation: h.generation },
                ),
                free: self.free,
            }
        } else {
            self
        }
    }

    /// The invariant of every arena: the free stack lists exactly the free
    /// slots, each once, and every slot's position is a `usize`.
    pub open spec fn wf(self) -> bool {
        &&& self.slots.len() <= usize::MAX
        &&& self.free.no_duplicates()
        &&& forall|k: int|
            0 <= k < self.free.len() ==> (#[trigger] self.free[k]) < self.slots.len()
                && self.slots[self.free[k] as int] is Free
        &&& forall|i: int|
            0 <= i < self.slots.len() && (#[trigger] self.slots[i]) is Free ==> exists|k: int|
                0 <= k < self.free.len() && #[trigger] self.free[k] == i
    }
}

/// A new last slot adds its generation to the total.
pub proof fn lemma_total_push(slots: Seq<Slot>, slot: Slot)
    ensures
        total_generations(slots.push(slot)) == total_generations(slots) + slot.generation(),
{
    assert(slots.push(slot).drop_last() =~= slots);
}

/// A slot that changes takes its old generation out of the total and puts
/// its new one in.
pub proof fn lemma_total_update(slots: Seq<Slot>, i: int, slot: Slot)
    requires
        0 <= i < slots.len(),
    ensures
        total_generations(slots.update(i, slot)) == total_generations(slots)
            - slots[i].generation() + slot.generation(),
        slots[i].generation() <= total_generations(slots),
    decreases slots.len(),
{
    let changed = slots.update(i, slot);
    if i == slots.len() - 1 {
        assert(changed.drop_last() =~= slots.drop_last());
    } else {
        lemma_total_update(slots.drop_last(), i, slot);
        assert(changed.drop_last() =~= slots.drop_last().update(i, slot));
    }
}

/// A new last slot counts as occupied if it holds a value.
pub proof fn lemma_occupied_push(slots: Seq<Slot>, slot: Slot)
    ensures
        occupied(slots.push(slot)) == occupied(slots) + if slot is Occupied {
            1nat
        } else {
            0nat
        },
{
    assert(slots.push(slot).drop_last() =~= slots);
}

/// A slot that changes is counted as what it becomes.
pub proof fn lemma_occupied_update(slots: Seq<Slot>, i: int, slot: Slot)
    requires
        0 <= i < slots.len(),
    ensures
        occupied(slots.update(i, slot)) == occupied(slots) - (if slots[i] is Occupied {
            1int
        } else {
            0int
        }) + (if slot is Occupied {
            1int
        } else {
            0int
        }),
    decreases slots.len(),
{
    let changed = slots.update(i, slot);
    if i == slots.len() - 1 {
        assert(changed.drop_last() =~= slots.drop_last());
    } else {
        lemma_occupied_update(slots.drop_last(), i, slot);
        assert(changed.drop_last() =~= slots.drop_last().update(i, slot));
    }
}

/// The empty arena is well formed and holds nothing, and nothing was removed
/// from it.
pub proof fn lemma_empty_wf()
    ensures
        ArenaView::empty().wf(),
        ArenaView::empty().len() == 0,
        ArenaView::empty().removals() == 0,
{
}

/// An insertion keeps the invariant and the generation of every slot.
pub proof fn lemma_insert_wf(a: ArenaView, value: Seq<char>)
    requires
        a.wf(),
        a.has_room(),
    ensures
        a.insert(value).wf(),
        a.insert(value).removals() == a.removals(),
{
    let b = a.insert(value);
    if a.free.len() > 0 {
        let top = a.free[0] as int;
        lemma_total_update(a.slots, top, b.slots[top]);
        assert forall|k: int| 0 <= k < b.free.len() implies (#[trigger] b.free[k]) < b.slots.len()
            && b.slots[b.free[k] as int] is Free by {
            assert(b.free[k] == a.free[k + 1]);
            assert(a.free[k + 1] != a.free[0]);
        }
        assert forall|i: int| 0 <= i < b.slots.len() && (#[trigger] b.slots[i]) is Free implies exists|
            k: int,
        | 0 <= k < b.free.len() && #[trigger] b.free[k] == i by {
            assert(a.slots[i] is Free);
            let k = choose|k: int| 0 <= k < a.free.len() && #[trigger] a.free[k] == i;
            assert(k != 0);
            assert(b.free[k - 1] == i);
        }
        assert(b.free.no_duplicates()) by {
            assert forall|i: int, j: int|
                0 <= i < b.free.len() && 0 <= j < b.free.len() && i != j implies b.free[i]
                != b.free[j] by {
                assert(b.free[i] == a.free[i + 1]);
                assert(b.free[j] == a.free[j + 1]);
            }
        }
    } else {
        lemma_total_push(a.slots, b.slots.last());
        assert forall|i: int| 0 <= i < b.slots.len() && (#[trigger] b.slots[i]) is Free implies exists|
            k: int,
        | 0 <= k < b.free.len() && #[trigger] b.free[k] == i by {
            assert(a.slots[i] is Free);
        }
    }
}

/// A removal keeps the invariant whenever the count of removals can move on,
/// and then adds one to it.
pub proof fn lemma_remove_wf(a: ArenaView, h: Handle)
    requires
        a.wf(),
        a.can_remove(h),
    ensures
        a.remove(h).wf(),
        a.contains(h) ==> h.generation < u64::MAX && a.remove(h).removals() == a.removals() + 1,
{
    let b = a.remove(h);
    if a.contains(h) {
        lemma_total_update(a.slots, h.index as int, b.slots[h.index as int]);
        assert forall|k: int| 0 <= k < b.free.len() implies (#[trigger] b.free[k]) < b.slots.len()
            && b.slots[b.free[k] as int] is Free by {
            if k > 0 {
                assert(b.free[k] == a.free[k - 1]);
            }
        }
        assert forall|i: int| 0 <= i < b.slots.len() && (#[trigger] b.slots[i]) is Free implies exists|
            k: int,
        | 0 <= k < b.free.len() && #[trigger] b.free[k] == i by {
            if i == h.index {
                assert(b.free[0] == i);
            } else {
                assert(a.slots[i] is Free);
                let k = choose|k: int| 0 <= k < a.free.len() && #[trigger] a.free[k] == i;
                assert(b.free[k + 1] == i);
            }
        }
        assert(b.free.no_duplicates()) by {
            assert forall|i: int, j: int|
                0 <= i < b.free.len() && 0 <= j < b.free.len() && i != j implies b.free[i]
                != b.free[j] by {
                if i > 0 {
                    assert(b.free[i] == a.free[i - 1]);
                }
                if j > 0 {
                    assert(b.free[j] == a.free[j - 1]);
                }
            }
        }
    }
}

/// A replacement keeps the invariant, the free stack and every generation.
pub proof fn lemma_replace_wf(a: ArenaView, h: Handle, value: Seq<char>)
    requires
        a.wf(),
    ensures
        a.replace(h, value).wf(),
        a.replace(h, value).free == a.free,
        a.replace(h, value).removals() == a.removals(),
{
    let b = a.replace(h, value);
    if a.contains(h) {
        lemma_total_update(a.slots, h.index as int, b.slots[h.index as int]);
        assert forall|i: int| 0 <= i < b.slots.len() && (#[trigger] b.slots[i]) is Free implies exists|
            k: int,
        | 0 <= k < b.free.len() && #[trigger] b.free[k] == i by {
            assert(i != h.index);
            assert(a.slots[i] is Free);
            let k = choose|k: int| 0 <= k < a.free.len() && #[trigger] a.free[k] == i;
            assert(b.free[k] == i);
        }
    }
}

} // verus!
