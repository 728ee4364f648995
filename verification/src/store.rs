//! The storage behind the arena: `generational_arena::Arena`, and what this
//! crate takes on trust about it. Nothing in this file is proved; the rest of
//! the crate is proved from it.

use vstd::prelude::*;
use crate::handle::Handle;

verus! {

/// What one slot of the store holds: `None` while it is free, else the
/// generation at which it was filled and the text it was filled with.
pub type Entry = Option<(u64, Seq<char>)>;

/// Whether the slot that `h` names is occupied and was filled at the
/// generation of `h`.
pub open spec fn slot_holds(slots: Seq<Entry>, h: Handle) -> bool {
    &&& h.index < slots.len()
    &&& slots[h.index as int] matches Some(entry) && entry.0 == h.generation
}

/// Whether `s` lists the positions `start`, `start + 1`, `start + 2`, ...
pub open spec fn counts_from(s: Seq<usize>, start: int) -> bool {
    forall|k: int| 0 <= k < s.len() ==> #[trigger] s[k] == start + k
}

/// `generational_arena::Arena`, of which the proofs see nothing but what
/// the three functions below name.
#[verifier::external_type_specification]
#[verifier::external_body]
#[verifier::reject_recursive_types(T)]
pub struct ExArena<T>(generational_arena::Arena<T>);

/// The store's slots by position, those it holds in reserve included: `None`
/// for a free slot, and for an occupied one the generation it was filled at
/// and the text it holds.
pub uninterp spec fn store_slots(a: generational_arena::Arena<String>) -> Seq<Option<(u64, Seq<char>)>>;

/// The store's free chain: the slot that its head names, then the slot that
/// this one's link names, and so on until a link names nothing.
pub uninterp spec fn store_free(a: generational_arena::Arena<String>) -> Seq<usize>;

/// The store's generation counter.
pub uninterp spec fn store_generation(a: generational_arena::Arena<String>) -> u64;

/// The slots that the store holds after it has grown to file `entry`: as many
/// new slots as it had before (one if it had none), the first of them filled.
pub open spec fn grown(slots: Seq<Entry>, entry: Entry) -> Seq<Entry> {
    let spare = if slots.len() == 0 { 0 } else { slots.len() - 1 };
    slots.push(entry) + Seq::new(spare as nat, |i: int| None)
}

/// `generational_arena::Arena::new`: a store with four free slots, chained
/// in ascending order, and the generation counter at zero.
#[verifier::external_body]
pub(crate) fn store_new() -> (a: generational_arena::Arena<String>)
    ensures
        store_slots(a) == Seq::new(4, |i: int| None::<(u64, Seq<char>)>),
        store_free(a) == seq![0usize, 1usize, 2usize, 3usize],
        store_generation(a) == 0,
{
    generational_arena::Arena::new()
}

/// `generational_arena::Arena::insert`, which panics on a free chain whose
/// head is no free slot, and otherwise only where memory runs out. The value
/// goes to the head of the free chain, which leaves the chain; where the
/// chain is empty the store grows first, and the value goes to the first new
/// slot while the other new slots form the chain in ascending order. The key
/// carries the store's generation, which stays as it is.
#[verifier::external_body]
pub(crate) fn store_insert(a: &mut generational_arena::Arena<String>, value: String) -> (h: Handle)
    requires
        store_free(*old(a)).len() > 0 ==> store_free(*old(a))[0] < store_slots(*old(a)).len()
            && store_slots(*old(a))[store_free(*old(a))[0] as int] is None,
    ensures
        h.generation == store_generation(*old(a)),
        store_generation(*final(a)) == store_generation(*old(a)),
        store_free(*old(a)).len() > 0 ==> {
            &&& h.index == store_free(*old(a))[0]
            &&& store_free(*final(a)) == store_free(*old(a)).drop_first()
            &&& store_slots(*final(a)) == store_slots(*old(a)).update(
                h.index as int,
                Some((h.generation, value@)),
            )
        },
        store_free(*old(a)).len() == 0 ==> {
            &&& h.index == store_slots(*old(a)).len()
            &&& store_slots(*final(a)) == grown(store_slots(*old(a)), Some((h.generation, value@)))
            &&& store_free(*final(a)).len() == store_slots(*final(a)).len() - h.index - 1
            &&& counts_from(store_free(*final(a)), h.index + 1)
        },
{
    let (index, generation) = a.insert(value).into_raw_parts();
    Handle { index, generation }
}

/// `generational_arena::Arena::get`: the text in the slot that `h` names, if
/// that slot is occupied and was filled at the generation of `h`.
#[verifier::external_body]
pub(crate) fn store_get(a: &generational_arena::Arena<String>, h: Handle) -> (r: Option<&String>)
    ensures
        match r {
            Some(text) => slot_holds(store_slots(*a), h)
                && store_slots(*a)[h.index as int] == Some((h.generation, text@)),
            None => !slot_holds(store_slots(*a), h),
        },
{
    a.get(generational_arena::Index::from_raw_parts(h.index, h.generation))
}

/// `generational_arena::Arena::get_mut`: as `get`, and what the caller
/// writes through the reference is what the slot holds afterwards, at the
/// same generation. Nothing else changes.
#[verifier::external_body]
pub(crate) fn store_get_mut(a: &mut generational_arena::Arena<String>, h: Handle) -> (r: Option<
    &mut String,
>)
    ensures
        store_free(*final(a)) == store_free(*old(a)),
        store_generation(*final(a)) == store_generation(*old(a)),
        match r {
            Some(text) => slot_holds(store_slots(*old(a)), h)
                && store_slots(*old(a))[h.index as int] == Some((h.generation, text@))
                && store_slots(*final(a)) == store_slots(*old(a)).update(
                h.index as int,
                Some((h.generation, final(text)@)),
            ),
            None => !slot_holds(store_slots(*old(a)), h) && store_slots(*final(a)) == store_slots(
                *old(a),
            ),
        },
{
    a.get_mut(generational_arena::Index::from_raw_parts(h.index, h.generation))
}

/// `generational_arena::Arena::contains`: whether the slot that `h` names is
/// occupied and was filled at the generation of `h`.
#[verifier::external_body]
pub(crate) fn store_contains(a: &generational_arena::Arena<String>, h: Handle) -> (r: bool)
    ensures
        r == slot_holds(store_slots(*a), h),
{
    a.contains(generational_arena::Index::from_raw_parts(h.index, h.generation))
}

/// `generational_arena::Arena::remove`, which adds one to the generation
/// counter when it removes, whether or not the counter has room. A
/// valid key gives back the text; its slot is emptied and becomes the head of
/// the free chain. Any other key gives nothing and changes nothing.
#[verifier::external_body]
pub(crate) fn store_remove(a: &mut generational_arena::Arena<String>, h: Handle) -> (r: Option<
    String,
>)
    requires
        slot_holds(store_slots(*old(a)), h) ==> store_generation(*old(a)) < u64::MAX,
    ensures
        match r {
            Some(text) => {
                &&& slot_holds(store_slots(*old(a)), h)
                &&& store_slots(*old(a))[h.index as int] == Some((h.generation, text@))
                &&& store_slots(*final(a)) == store_slots(*old(a)).update(h.index as int, None)
                &&& store_free(*final(a)) == seq![h.index] + store_free(*old(a))
                &&& store_generation(*final(a)) == store_generation(*old(a)) + 1
            },
            None => {
                &&& !slot_holds(store_slots(*old(a)), h)
                &&& store_slots(*final(a)) == store_slots(*old(a))
                &&& store_free(*final(a)) == store_free(*old(a))
                &&& store_generation(*final(a)) == store_generation(*old(a))
            },
        },
{
    a.remove(generational_arena::Index::from_raw_parts(h.index, h.generation))
}

} // verus!
