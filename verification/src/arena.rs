//! The arena: strings filed under handles that go stale when the string is
//! removed.

use vstd::prelude::*;
use crate::handle::Handle;
use crate::model::{
    lemma_insert_wf, lemma_remove_wf, lemma_replace_wf, lemma_total_update, ArenaView, Slot,
};
use crate::store::{
    counts_from, slot_holds, store_contains, store_free, store_generation, store_get,
    store_get_mut, store_insert, store_new, store_remove, store_slots, Entry,
};

verus! {

/// What the arena keeps for one slot beside the store.
struct Tag {
    /// The slot's generation: the number of times it was freed.
    generation: u64,
    /// The generation under which the store files the slot's occupant. It
    /// says nothing while the slot is free.
    filed: u64,
}

/// The slot that the model shows for an entry of the store.
spec fn slot_of(entry: Entry, generation: u64) -> Slot {
    match entry {
        Some(filed) => Slot::Occupied { value: filed.1, generation },
        None => Slot::Free { generation },
    }
}

/// A generational arena of strings.
///
/// The strings live in a `generational_arena::Arena`, which picks the slot
/// for each value. That store stamps its keys from one counter for all
/// slots; the arena keeps a generation for each slot instead and hands out
/// handles that carry it, and beside it the store's key for the slot's
/// occupant. The store also holds slots in reserve, free and chained in
/// ascending order behind the slots that were freed; the arena's model
/// leaves them out, so that a slot appears in it when it first takes a value.
pub struct StringArena {
    store: generational_arena::Arena<String>,
    /// One tag for each slot that has held a value.
    tags: Vec<Tag>,
    /// The number of removals so far, which is the store's generation.
    removals: u64,
}

impl View for StringArena {
    type V = ArenaView;

    closed spec fn view(&self) -> ArenaView {
        let entries = store_slots(self.store);
        let reserve = entries.len() - self.tags@.len();
        ArenaView {
            slots: Seq::new(
                self.tags@.len(),
                |i: int| slot_of(entries[i], self.tags@[i].generation),
            ),
            free: store_free(self.store).take(store_free(self.store).len() - reserve),
        }
    }
}

impl StringArena {
    /// The invariant that every function of the arena asks for and keeps.
    pub closed spec fn wf(&self) -> bool {
        let entries = store_slots(self.store);
        let chain = store_free(self.store);
        let used = self.tags@.len();
        let reserve = entries.len() - used;
        &&& used <= entries.len()
        &&& reserve <= chain.len()
        &&& counts_from(chain.skip(chain.len() - reserve), used as int)
        &&& forall|i: int| used <= i < entries.len() ==> (#[trigger] entries[i]) is None
        &&& forall|i: int|
            0 <= i < used ==> (#[trigger] entries[i] matches Some(filed) ==> filed.0
                == self.tags@[i].filed)
        &&& self.removals == store_generation(self.store)
        &&& self.removals == self@.removals()
        &&& self@.wf()
    }

    /// What the invariant says of the model.
    pub proof fn lemma_wf(&self)
        requires
            self.wf(),
        ensures
            self@.wf(),
            self@.removals() <= u64::MAX,
    {
    }

    /// Whether the slot of `h` has a tag, and the tag has the generation of
    /// `h`.
    spec fn tagged(self, h: Handle) -> bool {
        h.index < self.tags@.len() && self.tags@[h.index as int].generation == h.generation
    }

    /// The key under which the store files the occupant of the slot of `h`.
    spec fn key(self, h: Handle) -> Handle {
        Handle { index: h.index, generation: self.tags@[h.index as int].filed }
    }

    /// A handle is valid when its slot is tagged with its generation and the
    /// store holds a value under the slot's key.
    proof fn lemma_key(self, h: Handle)
        requires
            self.wf(),
        ensures
            self@.contains(h) <==> self.tagged(h) && slot_holds(store_slots(self.store), self.key(h)),
            self@.contains(h) ==> store_slots(self.store)[h.index as int] == Some(
                (self.key(h).generation, self@.get(h).unwrap()),
            ),
    {
    }

    /// Whether `after` is this arena with `text` written to the slot of the
    /// valid handle `h`, and nothing else changed.
    spec fn written(self, after: StringArena, h: Handle, text: Seq<char>) -> bool {
        &&& after.removals == self.removals
        &&& after.tags == self.tags
        &&& self.tagged(h)
        &&& slot_holds(store_slots(self.store), self.key(h))
        &&& store_slots(after.store) == store_slots(self.store).update(
            h.index as int,
            Some((self.key(h).generation, text)),
        )
        &&& store_free(after.store) == store_free(self.store)
        &&& store_generation(after.store) == store_generation(self.store)
    }

    /// A write to the store is a replacement in the model, and keeps the
    /// invariant.
    proof fn lemma_written(self, after: StringArena, h: Handle, text: Seq<char>)
        requires
            self.wf(),
            self.written(after, h, text),
        ensures
            after.wf(),
            after@ == self@.replace(h, text),
    {
        assert(after@.slots =~= self@.replace(h, text).slots);
        lemma_replace_wf(self@, h, text);
    }

    /// An arena with no slot and no free slot.
    pub fn new() -> (arena: StringArena)
        ensures
            arena.wf(),
            arena@ == ArenaView::empty(),
            arena@.removals() == 0,
    {
        let arena = StringArena { store: store_new(), tags: Vec::new(), removals: 0 };
        proof {
            assert(arena@.slots =~= Seq::empty());
            assert(arena@.free =~= Seq::empty());
        }
        arena
    }

    /// Files `value` and returns its handle. The value takes the most
    /// recently freed slot, and the handle that slot's generation; when no
    /// slot is free the value takes a new slot after the last, and the
    /// handle generation zero.
    pub fn insert(&mut self, value: String) -> (h: Handle)
        requires
            old(self).wf(),
        ensures
            final(self).wf(),
            h == old(self)@.next_handle(),
            old(self)@.free.len() == 0 ==> h.index == old(self)@.slots.len(),
            final(self)@ == old(self)@.insert(value@),
            final(self)@.get(h) == Some(value@),
            final(self)@.removals() == old(self)@.removals(),
    {
        let ghost before = old(self)@;
        let ghost text = value@;
        let ghost used = self.tags@.len();
        let ghost chain = store_free(self.store);
        let ghost reserve = store_slots(self.store).len() - used;
        proof {
            if chain.len() > 0 {
                if before.free.len() > 0 {
                    assert(chain[0] == before.free[0]);
                } else {
                    assert(chain[0] == chain.skip(chain.len() - reserve)[0]);
                }
            }
        }
        let key = store_insert(&mut self.store, value);
        proof {
            let chain2 = store_free(self.store);
            if chain.len() > 0 && before.free.len() > 0 {
                assert(key.index == before.free[0]);
                assert(chain2.skip(chain2.len() - reserve) =~= chain.skip(chain.len() - reserve));
            } else if chain.len() > 0 {
                assert(key.index == chain.skip(chain.len() - reserve)[0]);
                assert forall|k: int| 0 <= k < reserve - 1 implies #[trigger] chain2[k] == used + 1
                    + k by {
                    assert(chain2[k] == chain.skip(chain.len() - reserve)[k + 1]);
                }
            }
        }
        let generation = if key.index < self.tags.len() {
            let generation = self.tags[key.index].generation;
            self.tags.set(key.index, Tag { generation, filed: key.generation });
            generation
        } else {
            self.tags.push(Tag { generation: 0, filed: key.generation });
            0
        };
        proof {
            let want = before.insert(text);
            assert(self.tags@.len() == self.tags.len());
            assert(self@.slots =~= want.slots);
            assert(self@.free =~= want.free);
            lemma_insert_wf(before, text);
        }
        Handle { index: key.index, generation }
    }

    /// The string filed under `h`, or nothing when `h` is not valid: when its
    /// slot is free, has another generation, or does not exist.
    pub fn get(&self, h: Handle) -> (r: Option<&String>)
        requires
            self.wf(),
        ensures
            match r {
                Some(text) => self@.get(h) == Some(text@),
                None => self@.get(h) is None,
            },
    {
        proof {
            self.lemma_key(h);
        }
        if h.index < self.tags.len() && self.tags[h.index].generation == h.generation {
            store_get(&self.store, Handle { index: h.index, generation: self.tags[h.index].filed })
        } else {
            None
        }
    }

    /// As `get`, for writing: what the caller leaves in the string is what
    /// the arena holds under `h` afterwards. Nothing else changes.
    pub fn get_mut(&mut self, h: Handle) -> (r: Option<&mut String>)
        requires
            old(self).wf(),
        ensures
            final(self).wf(),
            match r {
                Some(text) => old(self)@.get(h) == Some(text@) && final(self)@ == old(self)@.replace(
                    h,
                    final(text)@,
                ),
                None => old(self)@.get(h) is None && final(self)@ == old(self)@,
            },
            final(self)@.removals() == old(self)@.removals(),
    {
        proof {
            self.lemma_key(h);
        }
        if h.index < self.tags.len() && self.tags[h.index].generation == h.generation {
            let key = Handle { index: h.index, generation: self.tags[h.index].filed };
            proof {
                let before = *old(self);
                let after = *final(self);
                let entries = store_slots(before.store);
                assert forall|text: Seq<char>|
                    store_slots(after.store) == #[trigger] entries.update(
                        key.index as int,
                        Some((key.generation, text)),
                    ) && before.written(after, h, text) implies after.wf() && after@
                    == before@.replace(h, text) by {
                    before.lemma_written(after, h, text);
                }
                assert(before.untouched(after) ==> after.wf() && after@ == before@);
            }
            store_get_mut(&mut self.store, key)
        } else {
            None
        }
    }

    /// Whether `after` is this arena with nothing changed.
    spec fn untouched(self, after: StringArena) -> bool {
        &&& after.removals == self.removals
        &&& after.tags == self.tags
        &&& store_slots(after.store) == store_slots(self.store)
        &&& store_free(after.store) == store_free(self.store)
        &&& store_generation(after.store) == store_generation(self.store)
    }

    /// Whether `h` is valid.
    pub fn contains(&self, h: Handle) -> (r: bool)
        requires
            self.wf(),
        ensures
            r == self@.contains(h),
    {
        proof {
            self.lemma_key(h);
        }
        h.index < self.tags.len() && self.tags[h.index].generation == h.generation
            && store_contains(
            &self.store,
            Handle { index: h.index, generation: self.tags[h.index].filed },
        )
    }

    /// Takes the string filed under `h` out of the arena. The slot is freed
    /// at the generation after that of `h` and becomes the first to be used
    /// again, so that `h` is stale from now on. An invalid handle gives
    /// nothing and changes nothing.
    ///
    /// The store counts every removal in a `u64`, and the count must have
    /// room for one more; `try_remove` tests that.
    pub fn remove(&mut self, h: Handle) -> (r: Option<String>)
        requires
            old(self).wf(),
            old(self)@.can_remove(h),
        ensures
            final(self).wf(),
            final(self)@ == old(self)@.remove(h),
            !final(self)@.contains(h),
            match r {
                Some(text) => {
                    &&& old(self)@.get(h) == Some(text@)
                    &&& final(self)@.next_handle().index == h.index
                    &&& final(self)@.next_handle().generation == h.generation + 1
                    &&& final(self)@.removals() == old(self)@.removals() + 1
                },
                None => old(self)@.get(h) is None && final(self)@ == old(self)@,
            },
    {
        let ghost before = old(self)@;
        let ghost chain = store_free(self.store);
        let ghost reserve = store_slots(self.store).len() - self.tags@.len();
        proof {
            self.lemma_key(h);
        }
        if h.index < self.tags.len() && self.tags[h.index].generation == h.generation {
            let filed = self.tags[h.index].filed;
            let r = store_remove(&mut self.store, Handle { index: h.index, generation: filed });
            if r.is_some() {
                proof {
                    lemma_remove_wf(before, h);
                }
                self.tags.set(h.index, Tag { generation: h.generation + 1, filed });
                self.removals = self.removals + 1;
                proof {
                    let want = before.remove(h);
                    let chain2 = store_free(self.store);
                    assert(chain2.skip(chain2.len() - reserve) =~= chain.skip(
                        chain.len() - reserve,
                    ));
                    assert(self@.slots =~= want.slots);
                    assert(self@.free =~= want.free);
                }
            } else {
                proof {
                    assert(self@.slots =~= before.slots);
                }
            }
            r
        } else {
            None
        }
    }

    /// As `remove`, for any arena: where the count of removals has no room
    /// left for one more, a valid handle too gives nothing and changes
    /// nothing.
    pub fn try_remove(&mut self, h: Handle) -> (r: Option<String>)
        requires
            old(self).wf(),
        ensures
            final(self).wf(),
            match r {
                Some(text) => old(self)@.get(h) == Some(text@) && old(self)@.can_remove(h)
                    && final(self)@ == old(self)@.remove(h) && final(self)@.removals() == old(
                    self,
                )@.removals() + 1,
                None => final(self)@ == old(self)@ && (old(self)@.get(h) is None
                    || !old(self)@.can_remove(h)),
            },
    {
        if self.removals < u64::MAX {
            self.remove(h)
        } else {
            None
        }
    }

    /// The string filed under a handle that is known to be valid, for
    /// writing.
    pub fn index_mut(&mut self, h: Handle) -> (text: &mut String)
        requires
            old(self).wf(),
            old(self)@.contains(h),
        ensures
            final(self).wf(),
            old(self)@.get(h) == Some(text@),
            final(self)@ == old(self)@.replace(h, final(text)@),
            final(self)@.removals() == old(self)@.removals(),
    {
        self.get_mut(h).unwrap()
    }
}

/// `arena[h]`: the string filed under a handle that is known to be valid.
impl core::ops::Index<Handle> for StringArena {
    type Output = String;

    fn index(&self, h: Handle) -> (text: &String)
        ensures
            self@.get(h) == Some(text@),
    {
        proof {
            self.lemma_key(h);
        }
        store_get(&self.store, Handle { index: h.index, generation: self.tags[h.index].filed })
            .unwrap()
    }
}

impl vstd::std_specs::core::IndexSpecImpl<Handle> for StringArena {
    open spec fn index_req(&self, h: &Handle) -> bool {
        self.wf() && self@.contains(*h)
    }
}

} // verus!
