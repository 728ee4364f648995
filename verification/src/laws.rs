//! What holds of every arena, whatever was done to it before.

use vstd::prelude::*;
use crate::handle::Handle;
use crate::model::{
    lemma_insert_wf, lemma_occupied_push, lemma_occupied_update, lemma_remove_wf,
    lemma_replace_wf, ArenaView,
};

verus! {

/// One step in the life of an arena.
pub enum Step {
    /// A value is filed.
    Insert(Seq<char>),
    /// The value under a handle is taken out, if the handle is valid.
    Remove(Handle),
    /// The value under a handle is replaced, if the handle is valid.
    Replace(Handle, Seq<char>),
}

impl ArenaView {
    /// The arena after one step.
    pub open spec fn step(self, s: Step) -> ArenaView {
        match s {
            Step::Insert(value) => self.insert(value),
            Step::Remove(h) => self.remove(h),
            Step::Replace(h, value) => self.replace(h, value),
        }
    }

    /// Whether the arena can take the step: an insertion needs room for the
    /// value, a removal room in the count of removals.
    pub open spec fn admits(self, s: Step) -> bool {
        match s {
            Step::Insert(_) => self.has_room(),
            Step::Remove(h) => self.can_remove(h),
            Step::Replace(_, _) => true,
        }
    }

    /// The arena after the steps, taken in order.
    pub open spec fn run(self, steps: Seq<Step>) -> ArenaView
        decreases steps.len(),
    {
        if steps.len() == 0 {
            self
        } else {
            self.step(steps[0]).run(steps.drop_first())
        }
    }

    /// Whether the arena can take the steps, one after the other.
    pub open spec fn admits_all(self, steps: Seq<Step>) -> bool
        decreases steps.len(),
    {
        steps.len() > 0 ==> self.admits(steps[0]) && self.step(steps[0]).admits_all(
            steps.drop_first(),
        )
    }

    /// What the step adds to the number of values: an insertion one more, the
    /// removal of a valid handle one less.
    pub open spec fn gain(self, s: Step) -> int {
        match s {
            Step::Insert(_) => 1,
            Step::Remove(h) => if self.contains(h) {
                -1
            } else {
                0
            },
            Step::Replace(_, _) => 0,
        }
    }

    /// What the steps add to the number of values, taken in order.
    pub open spec fn gain_all(self, steps: Seq<Step>) -> int
        decreases steps.len(),
    {
        if steps.len() == 0 {
            0
        } else {
            self.gain(steps[0]) + self.step(steps[0]).gain_all(steps.drop_first())
        }
    }

    /// A handle is stale when its slot has moved on to a later generation:
    /// no insertion to come can issue it.
    pub open spec fn stale(self, h: Handle) -> bool {
        h.index < self.slots.len() && h.generation < self.slots[h.index as int].generation()
    }
}

/// A value that was just inserted is there: the handle it got is valid and
/// gives the value back.
pub proof fn lemma_insert_then_get(a: ArenaView, value: Seq<char>)
    requires
        a.wf(),
    ensures
        a.insert(value).contains(a.next_handle()),
        a.insert(value).get(a.next_handle()) == Some(value),
{
}

/// The handle of the next insertion is not in use.
pub proof fn lemma_next_handle_is_new(a: ArenaView)
    requires
        a.wf(),
    ensures
        !a.contains(a.next_handle()),
{
}

/// An insertion touches no other handle: a valid one keeps its value, an
/// invalid one stays invalid.
pub proof fn lemma_insert_keeps_others(a: ArenaView, value: Seq<char>, k: Handle)
    requires
        a.wf(),
        k != a.next_handle(),
    ensures
        a.insert(value).get(k) == a.get(k),
{
}

/// After a handle's value was removed the handle is invalid: looking it up
/// gives nothing, and removing it once more changes nothing.
pub proof fn lemma_remove_then_gone(a: ArenaView, h: Handle)
    requires
        a.contains(h),
    ensures
        !a.remove(h).contains(h),
        a.remove(h).get(h) is None,
        a.remove(h).remove(h) == a.remove(h),
{
}

/// The slot of a removed value is the next to be used, at the generation
/// after the one under which the value was filed.
pub proof fn lemma_remove_then_reuse(a: ArenaView, h: Handle)
    requires
        a.wf(),
        a.contains(h),
        a.can_remove(h),
    ensures
        a.remove(h).slots[h.index as int] is Free,
        a.remove(h).slots[h.index as int].generation() == h.generation + 1,
        a.remove(h).next_handle().index == h.index,
        a.remove(h).next_handle().generation == h.generation + 1,
{
    lemma_remove_wf(a, h);
}

/// A removal touches no other handle.
pub proof fn lemma_remove_keeps_others(a: ArenaView, h: Handle, k: Handle)
    requires
        a.wf(),
        k != h,
    ensures
        a.remove(h).get(k) == a.get(k),
{
}

/// A replacement shows when the handle is looked up afterwards, and touches
/// no other handle.
pub proof fn lemma_replace_then_get(a: ArenaView, h: Handle, value: Seq<char>, k: Handle)
    requires
        a.contains(h),
    ensures
        a.replace(h, value).get(h) == Some(value),
        k != h ==> a.replace(h, value).get(k) == a.get(k),
{
}

/// An invalid handle gives nothing, and neither a removal nor a replacement
/// through it changes the arena, however often they are tried.
pub proof fn lemma_invalid_is_inert(a: ArenaView, h: Handle, value: Seq<char>, times: nat)
    requires
        !a.contains(h),
    ensures
        a.get(h) is None,
        a.remove(h) == a,
        a.replace(h, value) == a,
        a.run(Seq::new(times, |i: int| Step::Remove(h))) == a,
    decreases times,
{
    let steps = Seq::new(times, |i: int| Step::Remove(h));
    if times > 0 {
        lemma_invalid_is_inert(a, h, value, (times - 1) as nat);
        assert(steps.drop_first() =~= Seq::new((times - 1) as nat, |i: int| Step::Remove(h)));
    }
}

/// No step takes a slot away or changes the generation of a slot, but for
/// the removal that frees the slot, which adds one to it. A slot begins at
/// generation zero.
pub proof fn lemma_step_generations(a: ArenaView, s: Step, i: int)
    requires
        a.wf(),
        a.admits(s),
        0 <= i < a.step(s).slots.len(),
    ensures
        a.slots.len() <= a.step(s).slots.len(),
        i >= a.slots.len() ==> a.step(s).slots[i].generation() == 0,
        i < a.slots.len() ==> a.step(s).slots[i].generation() == a.slots[i].generation() + (if a.slots[i] is Occupied
            && a.step(s).slots[i] is Free {
            1int
        } else {
            0int
        }),
{
    match s {
        Step::Insert(value) => {},
        Step::Remove(h) => lemma_remove_wf(a, h),
        Step::Replace(h, value) => {},
    }
}

/// The arena holds as many values as were inserted and not removed since.
pub proof fn lemma_run_len(a: ArenaView, steps: Seq<Step>)
    requires
        a.wf(),
        a.admits_all(steps),
    ensures
        a.run(steps).len() == a.len() + a.gain_all(steps),
    decreases steps.len(),
{
    if steps.len() > 0 {
        let b = a.step(steps[0]);
        match steps[0] {
            Step::Insert(value) => {
                if a.free.len() > 0 {
                    lemma_occupied_update(a.slots, a.free[0] as int, b.slots[a.free[0] as int]);
                } else {
                    lemma_occupied_push(a.slots, b.slots.last());
                }
            },
            Step::Remove(h) => {
                if a.contains(h) {
                    lemma_occupied_update(a.slots, h.index as int, b.slots[h.index as int]);
                }
            },
            Step::Replace(h, value) => {
                if a.contains(h) {
                    lemma_occupied_update(a.slots, h.index as int, b.slots[h.index as int]);
                }
            },
        }
        lemma_step_wf(a, steps[0]);
        lemma_run_len(b, steps.drop_first());
    }
}

/// Every step that the arena admits keeps its invariant.
pub proof fn lemma_step_wf(a: ArenaView, s: Step)
    requires
        a.wf(),
        a.admits(s),
    ensures
        a.step(s).wf(),
{
    match s {
        Step::Insert(value) => lemma_insert_wf(a, value),
        Step::Remove(h) => lemma_remove_wf(a, h),
        Step::Replace(h, value) => lemma_replace_wf(a, h, value),
    }
}

/// So does every run of such steps.
pub proof fn lemma_run_wf(a: ArenaView, steps: Seq<Step>)
    requires
        a.wf(),
        a.admits_all(steps),
    ensures
        a.run(steps).wf(),
    decreases steps.len(),
{
    if steps.len() > 0 {
        lemma_step_wf(a, steps[0]);
        lemma_run_wf(a.step(steps[0]), steps.drop_first());
    }
}

/// The removal of a valid handle makes it stale.
pub proof fn lemma_remove_makes_stale(a: ArenaView, h: Handle)
    requires
        a.wf(),
        a.contains(h),
        a.can_remove(h),
    ensures
        a.remove(h).stale(h),
{
    lemma_remove_wf(a, h);
}

/// A stale handle stays stale, whatever step comes next.
pub proof fn lemma_stale_after_step(a: ArenaView, h: Handle, s: Step)
    requires
        a.wf(),
        a.stale(h),
        a.admits(s),
    ensures
        a.step(s).stale(h),
{
    lemma_step_generations(a, s, h.index as int);
}

/// A stale handle is invalid, and the next insertion does not issue it: where
/// the new handle names the same slot, its generation is later.
pub proof fn lemma_stale_never_issued(a: ArenaView, h: Handle)
    requires
        a.wf(),
        a.stale(h),
    ensures
        !a.contains(h),
        a.next_handle() != h,
        a.next_handle().index == h.index ==> a.next_handle().generation > h.generation,
{
}

/// Generations are unique: once a handle's value was removed, nothing that
/// happens to the arena afterwards makes the handle valid again, and no
/// later insertion issues it again. A value that takes over its slot gets a
/// handle of a younger generation.
pub proof fn lemma_generation_unique(a: ArenaView, h: Handle, steps: Seq<Step>)
    requires
        a.wf(),
        a.contains(h),
        a.can_remove(h),
        a.remove(h).admits_all(steps),
    ensures
        !a.remove(h).run(steps).contains(h),
        a.remove(h).run(steps).next_handle() != h,
        a.remove(h).run(steps).next_handle().index == h.index ==> a.remove(h).run(
            steps,
        ).next_handle().generation > h.generation,
{
    lemma_remove_wf(a, h);
    lemma_remove_makes_stale(a, h);
    lemma_stale_after_run(a.remove(h), h, steps);
    lemma_run_wf(a.remove(h), steps);
    lemma_stale_never_issued(a.remove(h).run(steps), h);
}

/// A stale handle stays stale through every run of steps.
pub proof fn lemma_stale_after_run(a: ArenaView, h: Handle, steps: Seq<Step>)
    requires
        a.wf(),
        a.stale(h),
        a.admits_all(steps),
    ensures
        a.run(steps).stale(h),
    decreases steps.len(),
{
    if steps.len() > 0 {
        lemma_step_wf(a, steps[0]);
        lemma_stale_after_step(a, h, steps[0]);
        lemma_stale_after_run(a.step(steps[0]), h, steps.drop_first());
    }
}

} // verus!
