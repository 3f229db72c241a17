//! Generational arena and its [`Index`] handle.
//!
//! [`Arena<T>`] is a slab-style container that hands out stable [`Index`]
//! handles. When a slot is freed, its generation counter advances, so any
//! still-held handle pointing at that slot is detected and rejected.
//!
//! The arena is described by an [`ArenaModel`]: its identity, one
//! [`SlotModel`] per slot (its generation and, when occupied, its value) and
//! the stack of vacant slots, most recently freed first, that `insert` reuses
//! before it grows. Each arena draws its identity at random when it is
//! created; two arenas share one only by a 1 in 2^64 chance.

use vstd::prelude::*;

use std::hash::BuildHasher;

use crate::error::{Error, Result};

verus! {

/// The mathematical value of an [`Index`]: the generation it was issued
/// under and the slot it points at.
pub struct IndexView {
    /// The identity of the arena that issued the handle.
    pub arena: u64,
    pub generation: u32,
    pub slot: u32,
}

/// Stable handle into an [`Arena`].
///
/// An `Index` is `Copy`, cheap to pass by value, and remains valid until the
/// element it points at is removed. Reusing the underlying slot under a new
/// generation does not revive the handle issued before. A handle also carries
/// the identity of the arena that issued it, and every other arena rejects
/// it.
#[derive(Copy, Clone, Debug, PartialEq, Eq, Hash, PartialOrd, Ord, Structural)]
pub struct Index {
    generation: u32,
    slot: u32,
    arena: u64,
}

impl View for Index {
    type V = IndexView;

    closed spec fn view(&self) -> IndexView {
        IndexView { arena: self.arena, generation: self.generation, slot: self.slot }
    }
}

impl Index {
    /// Returns the slot number this handle points at.
    pub fn slot(self) -> (r: u32)
        ensures
            r == self@.slot,
    {
        self.slot
    }

    /// Returns the generation counter recorded when this handle was issued.
    pub fn generation(self) -> (r: u32)
        ensures
            r == self@.generation,
    {
        self.generation
    }

    /// Two handles are the same handle exactly when they have the same view.
    pub proof fn lemma_view_injective(a: Index, b: Index)
        ensures
            a@ == b@ <==> a == b,
    {
    }
}

/// The mathematical value of one slot of an arena.
pub struct SlotModel<T> {
    /// The slot's current generation counter.
    pub generation: u32,
    /// The element stored in the slot, or `None` when the slot is vacant.
    pub value: Option<T>,
}

/// The mathematical value of an [`Arena`].
#[verifier::ext_equal]
pub struct ArenaModel<T> {
    /// The arena's identity, carried by every handle it issues.
    pub id: u64,
    /// Every slot the arena has ever created, in slot order.
    pub slots: Seq<SlotModel<T>>,
    /// The vacant slots, in the order in which `insert` will reuse them.
    pub free: Seq<u32>,
}

/// The generation a slot moves to when its element is removed: one more,
/// wrapping around at `u32::MAX`.
pub open spec fn bump_generation(g: u32) -> u32 {
    if g == u32::MAX {
        0
    } else {
        (g + 1) as u32
    }
}

impl<T> ArenaModel<T> {
    /// `idx` points at an occupied slot whose generation is the one `idx`
    /// was issued under.
    pub open spec fn is_live(self, idx: IndexView) -> bool {
        &&& idx.arena == self.id
        &&& (idx.slot as int) < self.slots.len()
        &&& self.slots[idx.slot as int].generation == idx.generation
        &&& self.slots[idx.slot as int].value is Some
    }

    /// The element that a live `idx` refers to.
    pub open spec fn value_of(self, idx: IndexView) -> T {
        self.slots[idx.slot as int].value->0
    }

    /// `idx` was issued for its slot under an earlier generation than the
    /// slot's current one.
    pub open spec fn is_retired(self, idx: IndexView) -> bool {
        &&& idx.arena == self.id
        &&& (idx.slot as int) < self.slots.len()
        &&& idx.generation < self.slots[idx.slot as int].generation
    }

    /// The live handles of the slots from `i` on, in slot order.
    pub open spec fn live_from(self, i: int) -> Seq<IndexView>
        decreases self.slots.len() - i,
    {
        if i < 0 || i >= self.slots.len() {
            Seq::empty()
        } else if self.slots[i].value is Some {
            seq![IndexView { arena: self.id, generation: self.slots[i].generation, slot: i as u32 }]
                + self.live_from(i + 1)
        } else {
            self.live_from(i + 1)
        }
    }

    /// Every live handle, in slot order.
    pub open spec fn live_handles(self) -> Seq<IndexView> {
        self.live_from(0)
    }

    /// Number of live elements: the slots that are not on the free list.
    pub open spec fn live_count(self) -> int {
        self.slots.len() - self.free.len()
    }

    /// The set of slots that hold an element.
    pub open spec fn occupied_slots(self) -> Set<int> {
        Set::new(|i: int| 0 <= i < self.slots.len() && self.slots[i].value is Some)
    }

    /// An insertion can be represented: a vacant slot exists, or a new slot
    /// number still fits in a `u32`.
    pub open spec fn can_insert(self) -> bool {
        self.free.len() > 0 || self.slots.len() <= u32::MAX
    }

    /// The handle that the next insertion returns.
    pub open spec fn next_index(self) -> IndexView {
        if self.free.len() > 0 {
            IndexView {
                arena: self.id,
                generation: self.slots[self.free[0] as int].generation,
                slot: self.free[0],
            }
        } else {
            IndexView { arena: self.id, generation: 1, slot: self.slots.len() as u32 }
        }
    }

    /// The arena after inserting `value`: the most recently freed slot is
    /// reused under its current generation; with no vacant slot a new slot is
    /// appended under generation 1.
    pub open spec fn after_insert(self, value: T) -> ArenaModel<T> {
        if self.free.len() > 0 {
            ArenaModel {
                id: self.id,
                slots: self.slots.update(
                    self.free[0] as int,
                    SlotModel {
                        generation: self.slots[self.free[0] as int].generation,
                        value: Some(value),
                    },
                ),
                free: self.free.drop_first(),
            }
        } else {
            ArenaModel {
                id: self.id,
                slots: self.slots.push(SlotModel { generation: 1, value: Some(value) }),
                free: self.free,
            }
        }
    }

    /// The arena after the element behind the live `idx` is overwritten with
    /// `value` in place.
    pub open spec fn after_write(self, idx: IndexView, value: T) -> ArenaModel<T> {
        ArenaModel {
            id: self.id,
            slots: self.slots.update(
                idx.slot as int,
                SlotModel { generation: idx.generation, value: Some(value) },
            ),
            free: self.free,
        }
    }

    /// The arena after removing the live element behind `idx`: the slot
    /// becomes vacant under the next generation and goes on top of the free
    /// list.
    pub open spec fn after_remove(self, idx: IndexView) -> ArenaModel<T> {
        ArenaModel {
            id: self.id,
            slots: self.slots.update(
                idx.slot as int,
                SlotModel {
                    generation: bump_generation(self.slots[idx.slot as int].generation),
                    value: None,
                },
            ),
            free: seq![idx.slot] + self.free,
        }
    }

    /// The arena after `clear`: every slot is vacant, occupied slots moved to
    /// their next generation, and the free list runs through the slots in
    /// ascending order.
    pub open spec fn after_clear(self) -> ArenaModel<T> {
        ArenaModel {
            id: self.id,
            slots: Seq::new(
                self.slots.len(),
                |i: int|
                    SlotModel {
                        generation: if self.slots[i].value is Some {
                            bump_generation(self.slots[i].generation)
                        } else {
                            self.slots[i].generation
                        },
                        value: None,
                    },
            ),
            free: Seq::new(self.slots.len(), |i: int| i as u32),
        }
    }

    /// The free list enumerates each vacant slot exactly once, and slot
    /// numbers fit in a `u32`.
    pub open spec fn wf(self) -> bool {
        &&& self.slots.len() <= u32::MAX as int + 1
        &&& self.free.no_duplicates()
        &&& forall|k: int|
            0 <= k < self.free.len() ==> (#[trigger] self.free[k] as int) < self.slots.len()
                && self.slots[self.free[k] as int].value is None
        &&& forall|i: int|
            0 <= i < self.slots.len() && (#[trigger] self.slots[i]).value is None
                ==> self.free.contains(i as u32)
    }
}

enum Occupant<T> {
    Occupied(T),
    Vacant { next_free: Option<u32> },
}

struct Slot<T> {
    generation: u32,
    occupant: Occupant<T>,
}

impl<T> Slot<T> {
    spec fn model(self) -> SlotModel<T> {
        SlotModel {
            generation: self.generation,
            value: match self.occupant {
                Occupant::Occupied(v) => Some(v),
                Occupant::Vacant { .. } => None,
            },
        }
    }
}

/// The successor of entry `k` on the free list.
spec fn next_link(free: Seq<u32>, k: int) -> Option<u32> {
    if k + 1 < free.len() {
        Some(free[k + 1])
    } else {
        None
    }
}

/// Generational arena. See the module documentation.
pub struct Arena<T> {
    id: u64,
    slots: Vec<Slot<T>>,
    free_head: Option<u32>,
    len: usize,
    free: Ghost<Seq<u32>>,
}

impl<T> View for Arena<T> {
    type V = ArenaModel<T>;

    closed spec fn view(&self) -> ArenaModel<T> {
        ArenaModel {
            id: self.id,
            slots: self.slots@.map_values(|s: Slot<T>| s.model()),
            free: self.free@,
        }
    }
}

impl<T> Arena<T> {
    /// The arena's internal links agree with its model: `free_head` and the
    /// `next_free` links of the vacant slots spell out the free list, and
    /// `len` counts the live elements.
    pub closed spec fn wf(&self) -> bool {
        &&& self@.wf()
        &&& self.len as int == self@.live_count()
        &&& self.free_head == (if self.free@.len() == 0 {
            None
        } else {
            Some(self.free@[0])
        })
        &&& forall|k: int|
            0 <= k < self.free@.len() ==> self.slots@[(#[trigger] self.free@[k]) as int].occupant
                == (Occupant::<T>::Vacant { next_free: next_link(self.free@, k) })
    }

    /// A well-formed arena has a well-formed model.
    pub proof fn lemma_model_wf(&self)
        requires
            self.wf(),
        ensures
            self@.wf(),
            0 <= self@.live_count() <= self@.slots.len(),
    {
        self.lemma_free_shorter_than_slots();
    }

    proof fn lemma_free_shorter_than_slots(&self)
        requires
            self@.wf(),
        ensures
            self@.free.len() <= self@.slots.len(),
    {
        lemma_distinct_below_bound(self@.free, self@.slots.len());
    }

    /// Creates an empty arena that performs no allocation until first insert.
    pub fn new() -> (a: Self)
        ensures
            a.wf(),
            a@.slots == Seq::<SlotModel<T>>::empty(),
            a@.free == Seq::<u32>::empty(),
    {
        let a = Arena {
            id: fresh_arena_id(),
            slots: Vec::new(),
            free_head: None,
            len: 0,
            free: Ghost(Seq::empty()),
        };
        proof {
            assert(a@.slots =~= Seq::<SlotModel<T>>::empty());
        }
        a
    }

    /// The size in bytes of one slot of the arena's storage.
    pub closed spec fn slot_size() -> nat {
        vstd::layout::size_of::<Slot<T>>()
    }

    /// Creates an empty arena with space pre-reserved for `capacity` slots.
    ///
    /// The arena still grows on demand; this is a hint, not a hard cap. A
    /// reservation beyond `isize::MAX` bytes is refused by the vector that
    /// holds the slots, so it is excluded.
    pub fn with_capacity(capacity: usize) -> (a: Self)
        requires
            capacity * Self::slot_size() <= isize::MAX,
        ensures
            a.wf(),
            a@.slots == Seq::<SlotModel<T>>::empty(),
            a@.free == Seq::<u32>::empty(),
    {
        let a = Arena {
            id: fresh_arena_id(),
            slots: Vec::with_capacity(capacity),
            free_head: None,
            len: 0,
            free: Ghost(Seq::empty()),
        };
        proof {
            assert(a@.slots =~= Seq::<SlotModel<T>>::empty());
        }
        a
    }

    /// Reserves capacity for at least `additional` more slots. The contents
    /// are unchanged. A reservation of more than `isize::MAX` bytes in all is
    /// refused by the vector that holds the slots, so it is excluded.
    pub fn reserve(&mut self, additional: usize)
        requires
            old(self).wf(),
            (old(self)@.slots.len() + additional) * Self::slot_size() <= isize::MAX,
        ensures
            final(self).wf(),
            final(self)@ == old(self)@,
    {
        self.slots.reserve(additional);
        proof {
            assert(self@ =~= old(self)@);
        }
    }

    /// Returns the number of slots the arena can hold before reallocating,
    /// occupied and vacant slots alike; never less than the number of slots,
    /// and never more than `isize::MAX` bytes of slots.
    pub fn capacity(&self) -> (r: usize)
        requires
            self.wf(),
        ensures
            r >= self@.slots.len(),
            r * Self::slot_size() <= isize::MAX,
    {
        vec_capacity(&self.slots)
    }

    /// Removes every element and resets the free list.
    ///
    /// Capacity is retained. Every occupied slot moves to its next
    /// generation, so handles issued before the clear are stale afterwards.
    pub fn clear(&mut self)
        requires
            old(self).wf(),
        ensures
            final(self).wf(),
            final(self)@ == old(self)@.after_clear(),
    {
        let ghost old_model = self@;
        let ghost old_slots = self.slots@;
        let total = self.slots.len();
        let mut i: usize = 0;
        while i < total
            invariant
                total == self.slots@.len(),
                total == old_slots.len(),
                total == old_model.slots.len(),
                self.id == old_model.id,
                total <= u32::MAX as int + 1,
                i <= total,
                forall|j: int|
                    0 <= j < i ==> (#[trigger] self.slots@[j]) == (Slot::<T> {
                        generation: old_model.after_clear().slots[j].generation,
                        occupant: Occupant::Vacant {
                            next_free: if j + 1 < total {
                                Some((j + 1) as u32)
                            } else {
                                None
                            },
                        },
                    }),
                forall|j: int| i <= j < total ==> (#[trigger] self.slots@[j]) == old_slots[j],
                forall|j: int| 0 <= j < total ==> old_model.slots[j] == (#[trigger] old_slots[j]).model(),
            decreases total - i,
        {
            proof {
                assert(old_model.slots[i as int] == old_slots[i as int].model());
            }
            let slot = &mut self.slots[i];
            if matches!(slot.occupant, Occupant::Occupied(_)) {
                slot.generation = slot.generation.wrapping_add(1);
                proof {
                    assert(slot.generation == bump_generation(old_slots[i as int].generation));
                }
            }
            slot.occupant = Occupant::Vacant {
                next_free: if i + 1 < total {
                    Some((i + 1) as u32)
                } else {
                    None
                },
            };
            i += 1;
        }
        self.free_head = if total == 0 {
            None
        } else {
            Some(0)
        };
        self.len = 0;
        self.free = Ghost(Seq::new(total as nat, |j: int| j as u32));
        proof {
            assert(self@ =~= old_model.after_clear());
            assert(self.free@.no_duplicates());
            assert forall|j: int|
                0 <= j < self@.slots.len() && (#[trigger] self@.slots[j]).value is None
                implies self@.free.contains(j as u32) by {
                assert(self@.free[j] == j as u32);
            }
            assert forall|k: int| 0 <= k < self.free@.len() implies self.slots@[(
            #[trigger] self.free@[k]) as int].occupant == (Occupant::<T>::Vacant {
                next_free: next_link(self.free@, k),
            }) by {
                assert(self.free@[k] as int == k);
            }
        }
    }

    /// Returns a cursor over `(Index, &T)` for every live element, in slot
    /// order, starting at the first slot.
    pub fn iter(&self) -> (r: Iter<'_, T>)
        requires
            self.wf(),
        ensures
            r.slots() == self@.slots,
            r.arena_id() == self@.id,
            r.position() == 0,
    {
        Iter { arena: self.id, slots: &self.slots, next: 0 }
    }

    /// Returns a cursor over `(Index, &mut T)` for every live element, in
    /// slot order. The arena keeps its slots, generations, free list and
    /// length; what the caller last writes through each yielded reference is
    /// the element it points at once the borrow ends.
    pub fn iter_mut(&mut self) -> (r: IterMut<'_, T>)
        requires
            old(self).wf(),
        ensures
            final(self).wf(),
            r.pending().len() == old(self)@.live_handles().len(),
            forall|k: int|
                0 <= k < r.pending().len() ==> (#[trigger] r.pending()[k]).0@ == old(
                    self,
                )@.live_handles()[k],
            forall|k: int|
                #![trigger r.pending()[k]]
                0 <= k < r.pending().len() ==> {
                    let idx = r.pending()[k].0@;
                    &&& old(self)@.is_live(idx)
                    &&& *r.pending()[k].1 == old(self)@.value_of(idx)
                    &&& final(self)@.slots[idx.slot as int] == (SlotModel {
                        generation: idx.generation,
                        value: Some(*final(r.pending()[k].1)),
                    })
                },
            forall|k1: int, k2: int|
                0 <= k1 < k2 < r.pending().len() ==> (#[trigger] r.pending()[k1]).0@.slot < (
                #[trigger] r.pending()[k2]).0@.slot,
            forall|idx: IndexView|
                #[trigger] old(self)@.is_live(idx) ==> exists|k: int|
                    0 <= k < r.pending().len() && (#[trigger] r.pending()[k]).0@ == idx,
            final(self)@.id == old(self)@.id,
            final(self)@.free == old(self)@.free,
            final(self)@.slots.len() == old(self)@.slots.len(),
            forall|j: int|
                0 <= j < old(self)@.slots.len() && (#[trigger] old(self)@.slots[j]).value is None
                    ==> final(self)@.slots[j] == old(self)@.slots[j],
    {
        let ghost old_slots = self.slots@;
        let ghost old_model = self@;
        proof {
            lemma_reshape_keeps_wf(*self);
        }
        let id = self.id;
        let n = self.slots.len();
        let mut rest: &mut [Slot<T>] = self.slots.as_mut_slice();
        let ghost s0 = rest;
        let ghost mut taken: Seq<&mut Slot<T>> = Seq::empty();
        let mut items: Vec<(Index, &mut T)> = Vec::new();
        let mut i: usize = n;
        while i > 0
            invariant
                i <= n,
                n == old_slots.len(),
                n <= u32::MAX as int + 1,
                old_model.slots.len() == n,
                old_model.id == id,
                forall|j: int| 0 <= j < n ==> old_model.slots[j] == (#[trigger] old_slots[j]).model(),
                items@.len() == old_model.live_from(i as int).len(),
                forall|k: int|
                    0 <= k < items@.len() ==> (#[trigger] items@[items@.len() - 1 - k]).0@
                        == old_model.live_from(i as int)[k],
                rest@ == old_slots.subrange(0, i as int),
                final(s0)@.len() == final(rest)@.len() + (n - i),
                forall|j: int|
                    0 <= j < final(rest)@.len() ==> final(s0)@[j] == #[trigger] final(rest)@[j],
                taken.len() == n - i,
                forall|t: int|
                    #![trigger taken[t]]
                    0 <= t < n - i ==> final(s0)@[final(rest)@.len() + t] == *final(taken[t]),
                forall|j: int|
                    i <= j < n && (#[trigger] old_slots[j]).occupant is Vacant
                        ==> *final(taken[j - i]) == old_slots[j],
                forall|k: int|
                    #![trigger items@[k]]
                    0 <= k < items@.len() ==> {
                        let j = items@[k].0@.slot as int;
                        &&& i <= j < n
                        &&& items@[k].0@ == (IndexView {
                            arena: id,
                            generation: old_slots[j].generation,
                            slot: j as u32,
                        })
                        &&& old_slots[j].occupant is Occupied
                        &&& *items@[k].1 == old_slots[j].occupant->Occupied_0
                        &&& *final(taken[j - i]) == (Slot {
                            generation: old_slots[j].generation,
                            occupant: Occupant::Occupied(*final(items@[k].1)),
                        })
                    },
                forall|k1: int, k2: int|
                    0 <= k1 < k2 < items@.len() ==> (#[trigger] items@[k1]).0@.slot > (
                    #[trigger] items@[k2]).0@.slot,
                forall|j: int|
                    i <= j < n && (#[trigger] old_slots[j]).occupant is Occupied ==> exists|k: int|
                        0 <= k < items@.len() && (#[trigger] items@[k]).0@.slot == j,
            decreases i,
        {
            let ghost prev = rest;
            let ghost old_taken = taken;
            let ghost old_items = items@;
            let (front, back) = rest.split_at_mut(i - 1);
            let ghost f0 = front;
            let ghost b0 = back;
            rest = front;
            i = i - 1;
            let last = back.first_mut().unwrap();
            proof {
                taken = seq![last] + taken;
                assert(final(prev)@ == final(f0)@ + final(b0)@);
                assert(final(b0)@.len() == 1);
                assert(final(b0)@[0] == *final(last));
                assert forall|j: int|
                    #![trigger final(f0)@[j]]
                    0 <= j < final(f0)@.len() implies final(s0)@[j] == final(f0)@[j] by {
                    assert(final(prev)@[j] == final(f0)@[j]);
                }
                assert forall|t: int| 0 <= t < n - i implies final(s0)@[final(f0)@.len() + t]
                    == *final(#[trigger] taken[t]) by {
                    if t == 0 {
                        assert(final(prev)@[final(f0)@.len() as int] == final(b0)@[0]);
                    } else {
                        assert(taken[t] == old_taken[t - 1]);
                    }
                }
            }
            match &mut last.occupant {
                Occupant::Occupied(value) => {
                    items.push((Index { generation: last.generation, slot: i as u32, arena: id }, value));
                },
                Occupant::Vacant { .. } => {},
            }
            proof {
                assert(old_model.slots[i as int] == old_slots[i as int].model());
                let lf = old_model.live_from(i as int);
                let lf1 = old_model.live_from(i + 1);
                assert forall|k: int|
                    0 <= k < items@.len() implies (#[trigger] items@[items@.len() - 1 - k]).0@
                    == lf[k] by {
                    if old_slots[i as int].occupant is Occupied {
                        if k > 0 {
                            assert(items@[items@.len() - 1 - k] == old_items[old_items.len() - 1 - (k
                                - 1)]);
                            assert(lf[k] == lf1[k - 1]);
                        }
                    } else {
                        assert(items@[items@.len() - 1 - k] == old_items[old_items.len() - 1 - k]);
                    }
                }
                assert forall|j: int|
                    i <= j < n && (#[trigger] old_slots[j]).occupant is Occupied implies exists|k: int|
                        0 <= k < items@.len() && (#[trigger] items@[k]).0@.slot == j by {
                    if j == i {
                        assert(items@[items@.len() - 1].0@.slot == j);
                    } else {
                        let k = choose|k: int|
                            0 <= k < old_items.len() && (#[trigger] old_items[k]).0@.slot == j;
                        assert(items@[k] == old_items[k]);
                    }
                }
            }
        }
        let none_left = rest.first_mut();
        proof {
            assert(none_left is None);
            assert forall|k: int| 0 <= k < items@.reverse().len() implies (
            #[trigger] items@.reverse()[k]).0@ == old_model.live_handles()[k] by {
                assert(items@.reverse()[k] == items@[items@.len() - 1 - k]);
            }
            assert forall|idx: IndexView| #[trigger] old_model.is_live(idx) implies exists|k: int|
                0 <= k < items@.reverse().len() && (#[trigger] items@.reverse()[k]).0@ == idx by {
                let j = idx.slot as int;
                assert(old_model.slots[j] == old_slots[j].model());
                let k = choose|k: int| 0 <= k < items@.len() && (#[trigger] items@[k]).0@.slot == j;
                assert(items@.reverse()[items@.len() - 1 - k] == items@[k]);
            }
        }
        IterMut { items }
    }

    /// Number of live elements currently in the arena.
    pub fn len(&self) -> (r: usize)
        requires
            self.wf(),
        ensures
            r == self@.live_count(),
    {
        self.len
    }

    /// Returns `true` when the arena holds no live elements.
    pub fn is_empty(&self) -> (r: bool)
        requires
            self.wf(),
        ensures
            r == (self@.live_count() == 0),
    {
        self.len == 0
    }

    /// Returns `true` if the index refers to a live element.
    pub fn contains(&self, idx: Index) -> (r: bool)
        requires
            self.wf(),
        ensures
            r == self@.is_live(idx@),
    {
        self.get(idx).is_some()
    }

    /// Returns a shared reference to the element behind `idx`, or `None`
    /// if the handle is stale.
    pub fn get(&self, idx: Index) -> (r: Option<&T>)
        requires
            self.wf(),
        ensures
            r is Some <==> self@.is_live(idx@),
            r matches Some(v) ==> *v == self@.value_of(idx@),
    {
        if idx.arena != self.id {
            return None;
        }
        let i = idx.slot as usize;
        if i >= self.slots.len() {
            return None;
        }
        let slot = &self.slots[i];
        proof {
            assert(self@.slots[i as int] == slot.model());
        }
        if slot.generation != idx.generation {
            return None;
        }
        match &slot.occupant {
            Occupant::Occupied(value) => Some(value),
            Occupant::Vacant { .. } => None,
        }
    }

    /// Returns a unique reference to the element behind `idx`, or `None`
    /// if the handle is stale. Whatever the caller writes through the
    /// reference becomes the element's new value.
    pub fn get_mut(&mut self, idx: Index) -> (r: Option<&mut T>)
        requires
            old(self).wf(),
        ensures
            final(self).wf(),
            r is Some <==> old(self)@.is_live(idx@),
            r matches Some(v) ==> *v == old(self)@.value_of(idx@) && final(self)@ == old(
                self,
            )@.after_write(idx@, *final(v)),
            r is None ==> final(self)@ == old(self)@,
    {
        if idx.arena != self.id {
            return None;
        }
        let i = idx.slot as usize;
        if i >= self.slots.len() {
            return None;
        }
        proof {
            assert(self@.slots[i as int] == self.slots@[i as int].model());
        }
        if self.slots[i].generation != idx.generation {
            return None;
        }
        if matches!(self.slots[i].occupant, Occupant::Vacant { .. }) {
            return None;
        }
        proof {
            lemma_write_keeps_wf(*self, i as int);
        }
        let slot = &mut self.slots[i];
        match &mut slot.occupant {
            Occupant::Occupied(value) => Some(value),
            Occupant::Vacant { .. } => None,
        }
    }

    /// Inserts `value` and returns a fresh [`Index`].
    ///
    /// Inserting when no further slot can be represented is a caller error,
    /// excluded by the precondition. Use [`Arena::try_insert`] for the
    /// fallible variant.
    pub fn insert(&mut self, value: T) -> (idx: Index)
        requires
            old(self).wf(),
            old(self)@.can_insert(),
        ensures
            final(self).wf(),
            idx@ == old(self)@.next_index(),
            final(self)@ == old(self)@.after_insert(value),
    {
        match self.try_insert(value) {
            Ok(idx) => idx,
            Err(_) => {
                proof {
                    assert(false);
                }
                Index { generation: 0, slot: 0, arena: 0 }
            },
        }
    }

    /// Inserts `value`, returning an [`Index`] on success or
    /// [`Error::CounterOverflow`] if the arena cannot represent more slots.
    pub fn try_insert(&mut self, value: T) -> (r: Result<Index>)
        requires
            old(self).wf(),
        ensures
            final(self).wf(),
            r is Ok <==> old(self)@.can_insert(),
            r matches Ok(idx) ==> idx@ == old(self)@.next_index() && final(self)@ == old(
                self,
            )@.after_insert(value),
            r matches Err(e) ==> e == Error::CounterOverflow && final(self)@ == old(self)@,
    {
        proof {
            self.lemma_free_shorter_than_slots();
        }
        let ghost old_model = self@;
        let ghost old_free = self.free@;
        if let Some(slot_id) = self.free_head {
            let i = slot_id as usize;
            if i >= self.slots.len() {
                return Err(Error::CounterOverflow);
            }
            proof {
                assert(old_free[0] == slot_id);
            }
            let next_free = match &self.slots[i].occupant {
                Occupant::Vacant { next_free } => *next_free,
                Occupant::Occupied(_) => {
                    return Err(Error::CounterOverflow);
                },
            };
            self.free_head = next_free;
            let slot = &mut self.slots[i];
            slot.occupant = Occupant::Occupied(value);
            let generation = slot.generation;
            self.len = self.len + 1;
            self.free = Ghost(old_free.drop_first());
            proof {
                assert(self@ =~= old_model.after_insert(value));
                assert forall|k: int| 0 <= k < self.free@.len() implies self.slots@[(
                #[trigger] self.free@[k]) as int].occupant == (Occupant::<T>::Vacant {
                    next_free: next_link(self.free@, k),
                }) by {
                    assert(old_free[k + 1] == self.free@[k]);
                    assert(old_free[k + 1] != old_free[0]);
                }
                assert forall|j: int|
                    0 <= j < self@.slots.len() && (#[trigger] self@.slots[j]).value is None
                    implies self@.free.contains(j as u32) by {
                    assert(old_model.slots[j].value is None);
                    let k = choose|k: int| 0 <= k < old_free.len() && old_free[k] == j as u32;
                    assert(k != 0);
                    assert(self@.free[k - 1] == j as u32);
                }
            }
            Ok(Index { generation, slot: slot_id, arena: self.id })
        } else {
            let slot_idx = self.slots.len();
            if slot_idx > u32::MAX as usize {
                return Err(Error::CounterOverflow);
            }
            self.slots.push(Slot { generation: 1, occupant: Occupant::Occupied(value) });
            proof {
                vstd::std_specs::vec::axiom_spec_len(&self.slots);
            }
            self.len = self.len + 1;
            proof {
                assert(self@ =~= old_model.after_insert(value));
            }
            Ok(Index { generation: 1, slot: slot_idx as u32, arena: self.id })
        }
    }

    /// Removes the element behind `idx` and returns it, or `None` if the
    /// handle is stale.
    pub fn remove(&mut self, idx: Index) -> (r: Option<T>)
        requires
            old(self).wf(),
        ensures
            final(self).wf(),
            old(self)@.is_live(idx@) ==> r == Some(old(self)@.value_of(idx@)) && final(self)@
                == old(self)@.after_remove(idx@),
            !old(self)@.is_live(idx@) ==> r is None && final(self)@ == old(self)@,
    {
        let ghost old_model = self@;
        let ghost old_free = self.free@;
        if idx.arena != self.id {
            return None;
        }
        let i = idx.slot as usize;
        if i >= self.slots.len() {
            return None;
        }
        proof {
            assert(self@.slots[i as int] == self.slots@[i as int].model());
        }
        if self.slots[i].generation != idx.generation {
            return None;
        }
        if matches!(self.slots[i].occupant, Occupant::Vacant { .. }) {
            return None;
        }
        proof {
            lemma_distinct_below_bound_excluding(old_free, old_model.slots.len(), idx.slot);
        }
        let mut prior = Occupant::Vacant { next_free: self.free_head };
        let slot = &mut self.slots[i];
        core::mem::swap(&mut slot.occupant, &mut prior);
        slot.generation = slot.generation.wrapping_add(1);
        self.free_head = Some(idx.slot);
        self.len = self.len - 1;
        self.free = Ghost(seq![idx.slot] + old_free);
        proof {
            assert(self@ =~= old_model.after_remove(idx@));
            assert forall|k: int| 0 <= k < self.free@.len() implies self.slots@[(
            #[trigger] self.free@[k]) as int].occupant == (Occupant::<T>::Vacant {
                next_free: next_link(self.free@, k),
            }) by {
                if k > 0 {
                    assert(self.free@[k] == old_free[k - 1]);
                    assert(old_free[k - 1] != idx.slot);
                }
            }
            assert(self.free@.no_duplicates()) by {
                assert forall|a: int, b: int|
                    0 <= a < self.free@.len() && 0 <= b < self.free@.len() && a != b
                    implies self.free@[a] != self.free@[b] by {
                    if a > 0 && b > 0 {
                        assert(old_free[a - 1] != old_free[b - 1]);
                    } else if a == 0 {
                        assert(old_free[b - 1] != idx.slot);
                    } else {
                        assert(old_free[a - 1] != idx.slot);
                    }
                }
            }
            assert forall|j: int|
                0 <= j < self@.slots.len() && (#[trigger] self@.slots[j]).value is None
                implies self@.free.contains(j as u32) by {
                if j != i {
                    let k = choose|k: int| 0 <= k < old_free.len() && old_free[k] == j as u32;
                    assert(self@.free[k + 1] == j as u32);
                } else {
                    assert(self@.free[0] == j as u32);
                }
            }
        }
        match prior {
            Occupant::Occupied(value) => Some(value),
            Occupant::Vacant { .. } => None,
        }
    }
}

impl<T> Default for Arena<T> {
    /// An empty arena, as [`Arena::new`].
    fn default() -> (a: Self)
        ensures
            a.wf(),
            a@.slots == Seq::<SlotModel<T>>::empty(),
            a@.free == Seq::<u32>::empty(),
    {
        Self::new()
    }
}

/// Cursor over `(Index, &T)` pairs for the live elements of an arena, in
/// slot order, returned by [`Arena::iter`].
pub struct Iter<'a, T> {
    arena: u64,
    slots: &'a Vec<Slot<T>>,
    next: usize,
}

impl<'a, T> Iter<'a, T> {
    #[verifier::type_invariant]
    spec fn inv(self) -> bool {
        &&& self.next <= self.slots@.len()
        &&& self.slots@.len() <= u32::MAX as int + 1
    }

    /// The slots of the arena being walked.
    pub closed spec fn slots(self) -> Seq<SlotModel<T>> {
        self.slots@.map_values(|s: Slot<T>| s.model())
    }

    /// The first slot not yet visited.
    pub closed spec fn position(self) -> int {
        self.next as int
    }

    /// The identity of the arena being walked.
    pub closed spec fn arena_id(self) -> u64 {
        self.arena
    }

    /// Returns the next live element at or after the current position,
    /// together with its handle, and moves past it; `None` once no live slot
    /// is left.
    pub fn next(&mut self) -> (r: Option<(Index, &'a T)>)
        ensures
            final(self).slots() == old(self).slots(),
            final(self).arena_id() == old(self).arena_id(),
            0 <= old(self).position() <= old(self).slots().len(),
            match r {
                Some((idx, v)) => {
                    &&& idx@.arena == old(self).arena_id()
                    &&& old(self).position() <= idx@.slot < old(self).slots().len()
                    &&& old(self).slots()[idx@.slot as int] == SlotModel {
                        generation: idx@.generation,
                        value: Some(*v),
                    }
                    &&& forall|j: int|
                        old(self).position() <= j < idx@.slot ==> (#[trigger] old(
                            self,
                        ).slots()[j]).value is None
                    &&& final(self).position() == idx@.slot + 1
                },
                None => {
                    &&& forall|j: int|
                        old(self).position() <= j < old(self).slots().len() ==> (#[trigger] old(
                            self,
                        ).slots()[j]).value is None
                    &&& final(self).position() == old(self).slots().len()
                },
            },
    {
        proof {
            use_type_invariant(&*self);
        }
        let slots: &'a Vec<Slot<T>> = self.slots;
        let len = slots.len();
        let start = self.next;
        let mut i = self.next;
        while i < len
            invariant
                slots == self.slots,
                slots == old(self).slots,
                self.arena == old(self).arena,
                start == self.next,
                start == old(self).next,
                len == slots@.len(),
                len <= u32::MAX as int + 1,
                start <= i <= len,
                forall|j: int| start <= j < i ==> (#[trigger] slots@[j]).occupant is Vacant,
            decreases len - i,
        {
            let slot = &slots[i];
            match &slot.occupant {
                Occupant::Occupied(value) => {
                    self.next = i + 1;
                    return Some(
                        (Index { generation: slot.generation, slot: i as u32, arena: self.arena }, value),
                    );
                },
                Occupant::Vacant { .. } => {},
            }
            i += 1;
        }
        self.next = len;
        proof {
            assert forall|j: int| start <= j < len implies (#[trigger] old(self).slots()[j]).value is None by {
                assert(slots@[j].occupant is Vacant);
            }
        }
        None
    }
}

/// Cursor over `(Index, &mut T)` pairs for the live elements of an arena,
/// in slot order, returned by [`Arena::iter_mut`].
pub struct IterMut<'a, T> {
    items: Vec<(Index, &'a mut T)>,
}

impl<'a, T> IterMut<'a, T> {
    /// The pairs not yet yielded, in the order `next` yields them.
    pub closed spec fn pending(self) -> Seq<(Index, &'a mut T)> {
        self.items@.reverse()
    }

    /// Returns the next pair and moves past it; `None` once every pair has
    /// been yielded.
    pub fn next(&mut self) -> (r: Option<(Index, &'a mut T)>)
        ensures
            old(self).pending().len() == 0 ==> r is None && final(self).pending().len() == 0,
            old(self).pending().len() > 0 ==> r == Some(old(self).pending()[0])
                && final(self).pending() == old(self).pending().drop_first(),
    {
        let r = self.items.pop();
        proof {
            if old(self).items@.len() > 0 {
                assert(self.items@.reverse() =~= old(self).items@.reverse().drop_first());
            }
        }
        r
    }
}

/// Inserting into a well-formed arena yields a handle that was not live
/// before, that resolves to the inserted value afterwards, and the arena stays
/// well formed with one more live element.
pub proof fn lemma_insert_then_get<T>(m: ArenaModel<T>, value: T)
    requires
        m.wf(),
        m.can_insert(),
    ensures
        !m.is_live(m.next_index()),
        m.after_insert(value).wf(),
        m.after_insert(value).is_live(m.next_index()),
        m.after_insert(value).value_of(m.next_index()) == value,
        m.after_insert(value).live_count() == m.live_count() + 1,
{
    let a = m.after_insert(value);
    if m.free.len() > 0 {
        assert(m.slots[m.free[0] as int].value is None);
        assert forall|i: int|
            0 <= i < a.slots.len() && (#[trigger] a.slots[i]).value is None
            implies a.free.contains(i as u32) by {
            let k = choose|k: int| 0 <= k < m.free.len() && m.free[k] == i as u32;
            assert(k != 0);
            assert(a.free[k - 1] == i as u32);
        }
        assert forall|k: int| 0 <= k < a.free.len() implies (#[trigger] a.free[k] as int)
            < a.slots.len() && a.slots[a.free[k] as int].value is None by {
            assert(m.free[k + 1] != m.free[0]);
        }
    } else {
        assert forall|i: int|
            0 <= i < a.slots.len() && (#[trigger] a.slots[i]).value is None
            implies a.free.contains(i as u32) by {
            assert(m.slots[i].value is None);
        }
    }
}

/// Writing through `get_mut` is what `get` reads back afterwards: the handle
/// stays live, resolves to the written value, and every other live handle
/// keeps its value.
pub proof fn lemma_write_then_get<T>(m: ArenaModel<T>, idx: IndexView, value: T, other: IndexView)
    requires
        m.wf(),
        m.is_live(idx),
    ensures
        m.after_write(idx, value).wf(),
        m.after_write(idx, value).is_live(idx),
        m.after_write(idx, value).value_of(idx) == value,
        m.after_write(idx, value).live_count() == m.live_count(),
        m.is_live(other) && other.slot != idx.slot ==> m.after_write(idx, value).is_live(other)
            && m.after_write(idx, value).value_of(other) == m.value_of(other),
{
    let a = m.after_write(idx, value);
    assert forall|i: int|
        0 <= i < a.slots.len() && (#[trigger] a.slots[i]).value is None
        implies a.free.contains(i as u32) by {
        assert(m.slots[i].value is None);
    }
}

/// Every pair an iterator yields is a live handle of the arena it walks,
/// together with the element that handle resolves to.
pub proof fn lemma_yielded_pair_is_live<T>(m: ArenaModel<T>, idx: IndexView, value: T)
    requires
        idx.arena == m.id,
        (idx.slot as int) < m.slots.len(),
        m.slots[idx.slot as int] == (SlotModel { generation: idx.generation, value: Some(value) }),
    ensures
        m.is_live(idx),
        m.value_of(idx) == value,
{
}

/// Walking an arena with `Iter::next` yields exactly its live handles in slot
/// order: from position `p`, when the first occupied slot at or after `p` is
/// `j`, the live handles from `p` on are the handle of `j` followed by those
/// after `j`; when no slot from `p` on is occupied there are none.
pub proof fn lemma_iter_step_yields_live_handles<T>(m: ArenaModel<T>, p: int, j: int)
    requires
        0 <= p <= j <= m.slots.len(),
        forall|t: int| p <= t < j ==> (#[trigger] m.slots[t]).value is None,
    ensures
        j < m.slots.len() && m.slots[j].value is Some ==> m.live_from(p) == seq![
            IndexView { arena: m.id, generation: m.slots[j].generation, slot: j as u32 },
        ] + m.live_from(j + 1),
        j == m.slots.len() ==> m.live_from(p).len() == 0,
    decreases j - p,
{
    if p < j {
        lemma_iter_step_yields_live_handles(m, p + 1, j);
    }
}

/// Inserting leaves every other live handle live, resolving to the same
/// value.
pub proof fn lemma_insert_keeps_others<T>(m: ArenaModel<T>, value: T, idx: IndexView)
    requires
        m.wf(),
        m.can_insert(),
        m.is_live(idx),
    ensures
        m.after_insert(value).is_live(idx),
        m.after_insert(value).value_of(idx) == m.value_of(idx),
{
    if m.free.len() > 0 {
        assert(m.slots[m.free[0] as int].value is None);
    }
}

/// Removing a live handle returns the arena to a well-formed state with one
/// live element fewer, in which that handle is stale; every other live handle
/// keeps its value.
pub proof fn lemma_remove_invalidates<T>(m: ArenaModel<T>, idx: IndexView, other: IndexView)
    requires
        m.wf(),
        m.is_live(idx),
    ensures
        m.after_remove(idx).wf(),
        !m.after_remove(idx).is_live(idx),
        m.after_remove(idx).live_count() == m.live_count() - 1,
        m.is_live(other) && other != idx ==> m.after_remove(idx).is_live(other)
            && m.after_remove(idx).value_of(other) == m.value_of(other),
{
    let a = m.after_remove(idx);
    assert(!m.free.contains(idx.slot));
    assert(a.free.no_duplicates()) by {
        assert forall|x: int, y: int| 0 <= x < a.free.len() && 0 <= y < a.free.len() && x != y
            implies a.free[x] != a.free[y] by {
            if x > 0 && y > 0 {
                assert(m.free[x - 1] != m.free[y - 1]);
            } else if x == 0 {
                assert(m.free[y - 1] != idx.slot);
            } else {
                assert(m.free[x - 1] != idx.slot);
            }
        }
    }
    assert forall|k: int| 0 <= k < a.free.len() implies (#[trigger] a.free[k] as int)
        < a.slots.len() && a.slots[a.free[k] as int].value is None by {
        if k > 0 {
            assert(a.free[k] == m.free[k - 1]);
            assert(m.free[k - 1] != idx.slot);
        }
    }
    assert forall|i: int|
        0 <= i < a.slots.len() && (#[trigger] a.slots[i]).value is None
        implies a.free.contains(i as u32) by {
        if i != idx.slot as int {
            let k = choose|k: int| 0 <= k < m.free.len() && m.free[k] == i as u32;
            assert(a.free[k + 1] == i as u32);
        } else {
            assert(a.free[0] == i as u32);
        }
    }
    if m.is_live(other) && other != idx {
        assert(other.slot != idx.slot);
    }
}

/// After a removal, inserting again, even into the very slot just freed,
/// does not revive the removed handle: the slot comes back under another
/// generation.
pub proof fn lemma_reuse_does_not_revive<T>(m: ArenaModel<T>, idx: IndexView, value: T)
    requires
        m.wf(),
        m.is_live(idx),
    ensures
        m.after_remove(idx).can_insert(),
        m.after_remove(idx).next_index().slot == idx.slot,
        m.after_remove(idx).next_index().generation != idx.generation,
        !m.after_remove(idx).after_insert(value).is_live(idx),
{
}

/// A retired handle (issued under an earlier generation of its slot) never
/// resolves.
pub proof fn lemma_retired_is_stale<T>(m: ArenaModel<T>, idx: IndexView)
    requires
        m.is_retired(idx),
    ensures
        !m.is_live(idx),
{
}

/// Removing a handle retires it, unless its slot's generation counter is at
/// `u32::MAX` and wraps around to zero.
pub proof fn lemma_remove_retires<T>(m: ArenaModel<T>, idx: IndexView)
    requires
        m.is_live(idx),
        idx.generation < u32::MAX,
    ensures
        m.after_remove(idx).is_retired(idx),
{
}

/// One state-changing call on an arena, as its contract describes it.
pub enum ArenaOp<T> {
    /// `insert` or `try_insert` of a value.
    Insert(T),
    /// `remove` of a handle.
    Remove(IndexView),
    /// `clear`.
    Clear,
    /// A write of a value through the reference `get_mut` returns for a
    /// handle.
    Write(IndexView, T),
}

/// The arena after one call: a call that is refused (an insertion that
/// cannot be represented, a removal or write of a handle that is not live)
/// changes nothing.
pub open spec fn apply_op<T>(m: ArenaModel<T>, op: ArenaOp<T>) -> ArenaModel<T> {
    match op {
        ArenaOp::Insert(v) => if m.can_insert() {
            m.after_insert(v)
        } else {
            m
        },
        ArenaOp::Remove(i) => if m.is_live(i) {
            m.after_remove(i)
        } else {
            m
        },
        ArenaOp::Clear => m.after_clear(),
        ArenaOp::Write(i, v) => if m.is_live(i) {
            m.after_write(i, v)
        } else {
            m
        },
    }
}

/// The arena after a sequence of calls, in order.
pub open spec fn apply_ops<T>(m: ArenaModel<T>, ops: Seq<ArenaOp<T>>) -> ArenaModel<T>
    decreases ops.len(),
{
    if ops.len() == 0 {
        m
    } else {
        apply_ops(apply_op(m, ops[0]), ops.drop_first())
    }
}

/// The call moves slot `s` from generation `u32::MAX` around to zero: it
/// removes the element of that slot, or clears the arena while the slot is
/// occupied.
pub open spec fn wraps_slot<T>(m: ArenaModel<T>, op: ArenaOp<T>, s: u32) -> bool {
    &&& (s as int) < m.slots.len()
    &&& m.slots[s as int].value is Some
    &&& m.slots[s as int].generation == u32::MAX
    &&& match op {
        ArenaOp::Remove(i) => m.is_live(i) && i.slot == s,
        ArenaOp::Clear => true,
        _ => false,
    }
}

/// No call of the sequence wraps the generation of slot `s`.
pub open spec fn never_wraps<T>(m: ArenaModel<T>, ops: Seq<ArenaOp<T>>, s: u32) -> bool
    decreases ops.len(),
{
    ops.len() == 0 || (!wraps_slot(m, ops[0], s) && never_wraps(
        apply_op(m, ops[0]),
        ops.drop_first(),
        s,
    ))
}

/// Every call keeps a well-formed arena well formed.
pub proof fn lemma_op_keeps_wf<T>(m: ArenaModel<T>, op: ArenaOp<T>)
    requires
        m.wf(),
    ensures
        apply_op(m, op).wf(),
        apply_op(m, op).id == m.id,
{
    match op {
        ArenaOp::Insert(v) => {
            if m.can_insert() {
                lemma_insert_then_get(m, v);
            }
        },
        ArenaOp::Remove(i) => {
            if m.is_live(i) {
                lemma_remove_invalidates(m, i, i);
            }
        },
        ArenaOp::Clear => {
            lemma_clear_invalidates_all(m, m.next_index());
        },
        ArenaOp::Write(i, v) => {
            if m.is_live(i) {
                lemma_write_then_get(m, i, v, i);
            }
        },
    }
}

/// A retired handle stays retired across any call that does not wrap its
/// own slot's generation: insertions, writes, removals and clears that touch
/// other slots or keep the counter below `u32::MAX`.
pub proof fn lemma_retired_stays_retired<T>(m: ArenaModel<T>, idx: IndexView, op: ArenaOp<T>)
    requires
        m.wf(),
        m.is_retired(idx),
        !wraps_slot(m, op, idx.slot),
    ensures
        apply_op(m, op).is_retired(idx),
{
    match op {
        ArenaOp::Insert(v) => {
            if m.can_insert() && m.free.len() > 0 {
                assert(m.slots[m.free[0] as int].value is None);
            }
        },
        _ => {},
    }
}

/// Once removed, a handle never resolves again: after removing a live handle
/// whose generation is below `u32::MAX`, no sequence of further calls that
/// leaves its own slot's generation from wrapping around makes it live.
pub proof fn lemma_removed_stays_stale<T>(m: ArenaModel<T>, h: IndexView, ops: Seq<ArenaOp<T>>)
    requires
        m.wf(),
        m.is_live(h),
        h.generation < u32::MAX,
        never_wraps(m.after_remove(h), ops, h.slot),
    ensures
        apply_ops(m.after_remove(h), ops).wf(),
        apply_ops(m.after_remove(h), ops).is_retired(h),
        !apply_ops(m.after_remove(h), ops).is_live(h),
{
    lemma_remove_invalidates(m, h, h);
    lemma_remove_retires(m, h);
    lemma_retired_forever(m.after_remove(h), h, ops);
}

/// A retired handle stays retired, and so stale, through every sequence of
/// calls that never wraps its own slot's generation.
pub proof fn lemma_retired_forever<T>(m: ArenaModel<T>, idx: IndexView, ops: Seq<ArenaOp<T>>)
    requires
        m.wf(),
        m.is_retired(idx),
        never_wraps(m, ops, idx.slot),
    ensures
        apply_ops(m, ops).wf(),
        apply_ops(m, ops).is_retired(idx),
        !apply_ops(m, ops).is_live(idx),
    decreases ops.len(),
{
    if ops.len() > 0 {
        lemma_op_keeps_wf(m, ops[0]);
        lemma_retired_stays_retired(m, idx, ops[0]);
        lemma_retired_forever(apply_op(m, ops[0]), idx, ops.drop_first());
    }
}

/// The call is an insertion that can be represented and returns `h`.
pub open spec fn issues<T>(m: ArenaModel<T>, op: ArenaOp<T>, h: IndexView) -> bool {
    op is Insert && m.can_insert() && m.next_index() == h
}

/// No call of the sequence clears the arena or removes `h`.
pub open spec fn spares<T>(ops: Seq<ArenaOp<T>>, h: IndexView) -> bool {
    forall|j: int|
        0 <= j < ops.len() ==> !(#[trigger] ops[j] is Clear) && ops[j] != ArenaOp::<T>::Remove(h)
}

/// Some call of the sequence returns `h` from an insertion, and no later
/// call clears the arena or removes `h`.
pub open spec fn issued_and_spared<T>(m: ArenaModel<T>, ops: Seq<ArenaOp<T>>, h: IndexView) -> bool
    decreases ops.len(),
{
    ops.len() > 0 && ((issues(m, ops[0], h) && spares(ops.drop_first(), h)) || issued_and_spared(
        apply_op(m, ops[0]),
        ops.drop_first(),
        h,
    ))
}

/// No call of the sequence clears the arena.
pub open spec fn never_clears<T>(ops: Seq<ArenaOp<T>>) -> bool {
    forall|j: int| 0 <= j < ops.len() ==> !(#[trigger] ops[j] is Clear)
}

/// The number of calls of the sequence that insert an element.
pub open spec fn inserted_count<T>(m: ArenaModel<T>, ops: Seq<ArenaOp<T>>) -> int
    decreases ops.len(),
{
    if ops.len() == 0 {
        0
    } else {
        (if ops[0] is Insert && m.can_insert() {
            1int
        } else {
            0int
        }) + inserted_count(apply_op(m, ops[0]), ops.drop_first())
    }
}

/// The number of calls of the sequence that remove an element: removals of
/// a live handle.
pub open spec fn removed_count<T>(m: ArenaModel<T>, ops: Seq<ArenaOp<T>>) -> int
    decreases ops.len(),
{
    if ops.len() == 0 {
        0
    } else {
        (if ops[0] matches ArenaOp::Remove(i) && m.is_live(i) {
            1int
        } else {
            0int
        }) + removed_count(apply_op(m, ops[0]), ops.drop_first())
    }
}

/// One call makes `h` live exactly when it inserts and returns `h`, and
/// keeps it live exactly when it neither clears the arena nor removes `h`.
pub proof fn lemma_op_liveness<T>(m: ArenaModel<T>, op: ArenaOp<T>, h: IndexView)
    requires
        m.wf(),
    ensures
        apply_op(m, op).is_live(h) <==> (m.is_live(h) && !(op is Clear) && op != ArenaOp::<T>::Remove(
            h,
        )) || issues(m, op, h),
{
    match op {
        ArenaOp::Insert(v) => {
            if m.can_insert() {
                lemma_insert_then_get(m, v);
                if m.is_live(h) {
                    lemma_insert_keeps_others(m, v, h);
                }
                if m.free.len() > 0 {
                    assert(m.slots[m.free[0] as int].value is None);
                }
            }
        },
        ArenaOp::Remove(i) => {
            if m.is_live(i) {
                lemma_remove_invalidates(m, i, h);
            }
        },
        ArenaOp::Clear => {
            lemma_clear_invalidates_all(m, h);
        },
        ArenaOp::Write(i, v) => {
            if m.is_live(i) {
                lemma_write_then_get(m, i, v, h);
            }
        },
    }
}

/// A handle resolves after a sequence of calls exactly when it was live
/// before and no call cleared the arena or removed it, or some call returned
/// it from an insertion and no later call cleared the arena or removed it.
/// From an empty arena: exactly when it was issued and neither removed nor
/// cleared since.
pub proof fn lemma_live_iff_issued_and_spared<T>(
    m: ArenaModel<T>,
    ops: Seq<ArenaOp<T>>,
    h: IndexView,
)
    requires
        m.wf(),
    ensures
        apply_ops(m, ops).is_live(h) <==> (m.is_live(h) && spares(ops, h)) || issued_and_spared(
            m,
            ops,
            h,
        ),
    decreases ops.len(),
{
    if ops.len() > 0 {
        let m1 = apply_op(m, ops[0]);
        let rest = ops.drop_first();
        lemma_op_keeps_wf(m, ops[0]);
        lemma_op_liveness(m, ops[0], h);
        lemma_live_iff_issued_and_spared(m1, rest, h);
        assert(spares(ops, h) <==> !(ops[0] is Clear) && ops[0] != ArenaOp::<T>::Remove(h)
            && spares(rest, h)) by {
            if !(ops[0] is Clear) && ops[0] != ArenaOp::<T>::Remove(h) && spares(rest, h) {
                assert forall|j: int| 0 <= j < ops.len() implies !(#[trigger] ops[j] is Clear)
                    && ops[j] != ArenaOp::<T>::Remove(h) by {
                    if j > 0 {
                        assert(ops[j] == rest[j - 1]);
                    }
                }
            }
            if spares(ops, h) {
                assert forall|j: int| 0 <= j < rest.len() implies !(#[trigger] rest[j] is Clear)
                    && rest[j] != ArenaOp::<T>::Remove(h) by {
                    assert(rest[j] == ops[j + 1]);
                }
                assert(!(ops[0] is Clear));
            }
        }
    }
}

/// Without a `clear`, the number of live elements after a sequence of calls
/// is the number before, plus the elements inserted, minus those removed.
pub proof fn lemma_len_counts_inserts_and_removes<T>(m: ArenaModel<T>, ops: Seq<ArenaOp<T>>)
    requires
        m.wf(),
        never_clears(ops),
    ensures
        apply_ops(m, ops).wf(),
        apply_ops(m, ops).live_count() == m.live_count() + inserted_count(m, ops) - removed_count(
            m,
            ops,
        ),
    decreases ops.len(),
{
    if ops.len() > 0 {
        let rest = ops.drop_first();
        lemma_op_keeps_wf(m, ops[0]);
        assert forall|j: int| 0 <= j < rest.len() implies !(#[trigger] rest[j] is Clear) by {
            assert(rest[j] == ops[j + 1]);
        }
        assert(!(ops[0] is Clear));
        lemma_len_counts_inserts_and_removes(apply_op(m, ops[0]), rest);
        match ops[0] {
            ArenaOp::Insert(v) => {
                if m.can_insert() {
                    lemma_insert_then_get(m, v);
                }
            },
            ArenaOp::Remove(i) => {
                if m.is_live(i) {
                    lemma_remove_invalidates(m, i, i);
                }
            },
            ArenaOp::Clear => {},
            ArenaOp::Write(i, v) => {
                if m.is_live(i) {
                    lemma_write_then_get(m, i, v, i);
                }
            },
        }
    }
}

/// After `clear` no handle resolves, the arena holds no element, and every
/// slot is on the free list.
pub proof fn lemma_clear_invalidates_all<T>(m: ArenaModel<T>, idx: IndexView)
    requires
        m.wf(),
    ensures
        m.after_clear().wf(),
        !m.after_clear().is_live(idx),
        m.after_clear().live_count() == 0,
{
    let c = m.after_clear();
    assert forall|i: int|
        0 <= i < c.slots.len() && (#[trigger] c.slots[i]).value is None
        implies c.free.contains(i as u32) by {
        assert(c.free[i] == i as u32);
    }
}

/// Clearing retires every live handle whose generation is below `u32::MAX`:
/// its slot moves to a later generation, so the insertion right after the
/// clear does not return it, and it never resolves again through any later
/// calls that leave its own slot's generation from wrapping around.
pub proof fn lemma_clear_retires_live<T>(
    m: ArenaModel<T>,
    h: IndexView,
    value: T,
    ops: Seq<ArenaOp<T>>,
)
    requires
        m.wf(),
        m.is_live(h),
        h.generation < u32::MAX,
    ensures
        m.after_clear().is_retired(h),
        m.after_clear().next_index() != h,
        !m.after_clear().after_insert(value).is_live(h),
        never_wraps(m.after_clear(), ops, h.slot) ==> !apply_ops(m.after_clear(), ops).is_live(h),
{
    let c = m.after_clear();
    lemma_clear_invalidates_all(m, h);
    assert(c.is_retired(h));
    lemma_retired_stays_retired(c, h, ArenaOp::Insert(value));
    if never_wraps(c, ops, h.slot) {
        lemma_retired_forever(c, h, ops);
    }
}

/// The live count of a well-formed arena is the number of occupied slots:
/// `len` counts exactly the elements that handles can reach.
pub proof fn lemma_live_count_is_occupied<T>(m: ArenaModel<T>)
    requires
        m.wf(),
    ensures
        m.occupied_slots().finite(),
        m.live_count() == m.occupied_slots().len(),
{
    let n = m.slots.len() as int;
    let range = vstd::set_lib::set_int_range(0, n);
    vstd::set_lib::lemma_int_range(0, n);
    let ints = m.free.map_values(|v: u32| v as int);
    let vacant = ints.to_set();
    assert(ints.no_duplicates()) by {
        assert forall|a: int, b: int| 0 <= a < ints.len() && 0 <= b < ints.len() && a != b
            implies ints[a] != ints[b] by {
            assert(m.free[a] != m.free[b]);
        }
    }
    ints.unique_seq_to_set();
    let occ = m.occupied_slots();
    assert(occ =~= range.difference(vacant)) by {
        assert forall|i: int| occ.contains(i) implies range.difference(vacant).contains(i) by {
            if vacant.contains(i) {
                let k = choose|k: int| 0 <= k < ints.len() && ints[k] == i;
                assert(m.free[k] as int == i);
            }
        }
        assert forall|i: int| range.difference(vacant).contains(i) implies occ.contains(i) by {
            if m.slots[i].value is None {
                assert(m.free.contains(i as u32));
                let k = choose|k: int| 0 <= k < m.free.len() && m.free[k] == i as u32;
                assert(ints[k] == i);
            }
        }
    }
    assert(vacant.subset_of(range)) by {
        assert forall|x: int| vacant.contains(x) implies range.contains(x) by {
            let k = choose|k: int| 0 <= k < ints.len() && ints[k] == x;
            assert(m.free[k] as int == x);
        }
    }
    vstd::set_lib::lemma_set_difference_len(range, vacant);
    assert(range.intersect(vacant) =~= vacant);
}

/// The occupied slots from slot `i` on.
spec fn occupied_from<T>(m: ArenaModel<T>, i: int) -> Set<int> {
    Set::new(|j: int| i <= j < m.slots.len() && m.slots[j].value is Some)
}

/// The live handles from slot `i` on are the handles of the occupied slots
/// from `i` on, one per slot, in increasing slot order.
proof fn lemma_live_from_exact<T>(m: ArenaModel<T>, i: int)
    requires
        0 <= i <= m.slots.len(),
        m.slots.len() <= u32::MAX as int + 1,
    ensures
        occupied_from(m, i).finite(),
        m.live_from(i).len() == occupied_from(m, i).len(),
        forall|k: int|
            0 <= k < m.live_from(i).len() ==> {
                let h = #[trigger] m.live_from(i)[k];
                &&& i <= h.slot < m.slots.len()
                &&& m.slots[h.slot as int].value is Some
                &&& h == IndexView {
                    arena: m.id,
                    generation: m.slots[h.slot as int].generation,
                    slot: h.slot,
                }
            },
        forall|k: int, l: int|
            0 <= k < l < m.live_from(i).len() ==> (#[trigger] m.live_from(i)[k]).slot
                < (#[trigger] m.live_from(i)[l]).slot,
        forall|j: int|
            i <= j < m.slots.len() && (#[trigger] m.slots[j]).value is Some ==> exists|k: int|
                0 <= k < m.live_from(i).len() && (#[trigger] m.live_from(i)[k]).slot == j,
    decreases m.slots.len() - i,
{
    let n = m.slots.len() as int;
    if i == n {
        assert(occupied_from(m, i) =~= Set::<int>::empty());
    } else {
        lemma_live_from_exact(m, i + 1);
        let rest = m.live_from(i + 1);
        let cur = m.live_from(i);
        if m.slots[i].value is Some {
            let h = IndexView { arena: m.id, generation: m.slots[i].generation, slot: i as u32 };
            assert(cur == seq![h] + rest);
            assert(occupied_from(m, i) =~= occupied_from(m, i + 1).insert(i));
            assert(!occupied_from(m, i + 1).contains(i));
            assert forall|k: int| 0 <= k < cur.len() implies {
                let g = #[trigger] cur[k];
                &&& i <= g.slot < n
                &&& m.slots[g.slot as int].value is Some
                &&& g == IndexView {
                    arena: m.id,
                    generation: m.slots[g.slot as int].generation,
                    slot: g.slot,
                }
            } by {
                if k > 0 {
                    assert(cur[k] == rest[k - 1]);
                }
            }
            assert forall|k: int, l: int| 0 <= k < l < cur.len() implies (#[trigger] cur[k]).slot
                < (#[trigger] cur[l]).slot by {
                assert(cur[l] == rest[l - 1]);
                if k > 0 {
                    assert(cur[k] == rest[k - 1]);
                }
            }
            assert forall|j: int| i <= j < n && (#[trigger] m.slots[j]).value is Some implies exists|
                k: int,
            | 0 <= k < cur.len() && (#[trigger] cur[k]).slot == j by {
                if j == i {
                    assert(cur[0].slot == j);
                } else {
                    let k = choose|k: int| 0 <= k < rest.len() && (#[trigger] rest[k]).slot == j;
                    assert(cur[k + 1] == rest[k]);
                }
            }
        } else {
            assert(cur == rest);
            assert(occupied_from(m, i) =~= occupied_from(m, i + 1));
        }
    }
}

/// Walking an arena yields exactly its live handles: as many as `len`
/// counts, each live, every live handle among them, in strictly increasing
/// slot order.
pub proof fn lemma_live_handles_exact<T>(m: ArenaModel<T>)
    requires
        m.wf(),
    ensures
        m.live_handles().len() == m.live_count(),
        forall|k: int| 0 <= k < m.live_handles().len() ==> m.is_live(#[trigger] m.live_handles()[k]),
        forall|h: IndexView| m.is_live(h) ==> m.live_handles().contains(h),
        forall|k: int, l: int|
            0 <= k < l < m.live_handles().len() ==> (#[trigger] m.live_handles()[k]).slot
                < (#[trigger] m.live_handles()[l]).slot,
{
    lemma_live_from_exact(m, 0);
    lemma_live_count_is_occupied(m);
    assert(occupied_from(m, 0) =~= m.occupied_slots());
    assert forall|h: IndexView| m.is_live(h) implies m.live_handles().contains(h) by {
        let j = h.slot as int;
        assert(m.slots[j].value is Some);
        let k = choose|k: int|
            0 <= k < m.live_handles().len() && (#[trigger] m.live_handles()[k]).slot == j;
        assert(m.live_handles()[k] == h);
    }
}

/// Calls `RandomState::new`, which std documents as initialised with random
/// keys; nothing is stated of the keys.
#[verifier::external_body]
fn random_state() -> std::collections::hash_map::RandomState {
    std::collections::hash_map::RandomState::new()
}

/// Calls `BuildHasher::hash_one` on `state` with a fixed input; the result
/// depends on the state's random keys and nothing is stated of it.
#[verifier::external_body]
fn random_state_hash(state: &std::collections::hash_map::RandomState) -> u64 {
    state.hash_one(0u8)
}

/// A fresh arena identity: a 64-bit value drawn from a randomly keyed hasher,
/// so two arenas share an identity only by a 1 in 2^64 chance.
fn fresh_arena_id() -> u64 {
    let state = random_state();
    random_state_hash(&state)
}

/// The number of elements the vector can hold without reallocating.
///
/// Calls `Vec::capacity`; std documents that the capacity is never below
/// the length and that a vector never allocates more than `isize::MAX`
/// bytes (a zero-sized element takes none). The exact value depends on the
/// allocator and is not stated.
#[verifier::external_body]
fn vec_capacity<T>(v: &Vec<T>) -> (r: usize)
    ensures
        r >= v@.len(),
        r * vstd::layout::size_of::<T>() <= isize::MAX,
{
    v.capacity()
}

/// Changing only the elements of occupied slots, whatever the new elements,
/// keeps the arena well formed and its model the same but for those
/// elements.
proof fn lemma_reshape_keeps_wf<T>(a: Arena<T>)
    requires
        a.wf(),
    ensures
        forall|b: Arena<T>|
            {
                &&& b.slots@.len() == a.slots@.len()
                &&& forall|j: int|
                    0 <= j < a.slots@.len() ==> {
                        &&& (#[trigger] b.slots@[j]).generation == a.slots@[j].generation
                        &&& a.slots@[j].occupant is Vacant ==> b.slots@[j] == a.slots@[j]
                        &&& a.slots@[j].occupant is Occupied ==> b.slots@[j].occupant is Occupied
                    }
                &&& b.id == a.id
                &&& b.free_head == a.free_head
                &&& b.len == a.len
                &&& b.free == a.free
            } ==> #[trigger] b.wf(),
{
    assert forall|b: Arena<T>|
        {
            &&& b.slots@.len() == a.slots@.len()
            &&& forall|j: int|
                0 <= j < a.slots@.len() ==> {
                    &&& (#[trigger] b.slots@[j]).generation == a.slots@[j].generation
                    &&& a.slots@[j].occupant is Vacant ==> b.slots@[j] == a.slots@[j]
                    &&& a.slots@[j].occupant is Occupied ==> b.slots@[j].occupant is Occupied
                }
            &&& b.id == a.id
            &&& b.free_head == a.free_head
            &&& b.len == a.len
            &&& b.free == a.free
        } implies #[trigger] b.wf() by {
        assert forall|k: int| 0 <= k < b.free@.len() implies (#[trigger] b@.free[k] as int)
            < b@.slots.len() && b@.slots[b@.free[k] as int].value is None by {
            assert(a@.slots[a.free@[k] as int].value is None);
            assert(a.slots@[a.free@[k] as int].occupant is Vacant);
        }
        assert forall|i: int|
            0 <= i < b@.slots.len() && (#[trigger] b@.slots[i]).value is None
            implies b@.free.contains(i as u32) by {
            assert(b.slots@[i].occupant is Vacant);
            assert(a.slots@[i].occupant is Vacant);
            assert(a@.slots[i].value is None);
        }
        assert forall|k: int| 0 <= k < b.free@.len() implies b.slots@[(
        #[trigger] b.free@[k]) as int].occupant == (Occupant::<T>::Vacant {
            next_free: next_link(b.free@, k),
        }) by {
            assert(a.slots@[a.free@[k] as int].occupant == (Occupant::<T>::Vacant {
                next_free: next_link(a.free@, k),
            }));
        }
    }
}

/// Overwriting the element of an occupied slot, whatever the new element,
/// keeps the arena well formed.
proof fn lemma_write_keeps_wf<T>(a: Arena<T>, i: int)
    requires
        a.wf(),
        0 <= i < a.slots@.len(),
        a.slots@[i].occupant is Occupied,
    ensures
        forall|b: Arena<T>|
            {
                &&& b.slots@.len() == a.slots@.len()
                &&& forall|j: int| 0 <= j < a.slots@.len() && j != i ==> b.slots@[j] == a.slots@[j]
                &&& b.slots@[i].generation == a.slots@[i].generation
                &&& b.slots@[i].occupant is Occupied
                &&& b.free_head == a.free_head
                &&& b.len == a.len
                &&& b.free == a.free
                &&& b.id == a.id
            } ==> #[trigger] b.wf() && b@ == a@.after_write(
                IndexView { arena: a.id, generation: a.slots@[i].generation, slot: i as u32 },
                b.slots@[i].occupant->Occupied_0,
            ),
{
    assert forall|b: Arena<T>|
        {
            &&& b.slots@.len() == a.slots@.len()
            &&& forall|j: int| 0 <= j < a.slots@.len() && j != i ==> b.slots@[j] == a.slots@[j]
            &&& b.slots@[i].generation == a.slots@[i].generation
            &&& b.slots@[i].occupant is Occupied
            &&& b.free_head == a.free_head
            &&& b.len == a.len
            &&& b.free == a.free
            &&& b.id == a.id
        } implies #[trigger] b.wf() && b@ == a@.after_write(
        IndexView { arena: a.id, generation: a.slots@[i].generation, slot: i as u32 },
        b.slots@[i].occupant->Occupied_0,
    ) by {
        let v = b.slots@[i].occupant->Occupied_0;
        assert(b@ =~= a@.after_write(
            IndexView { arena: a.id, generation: a.slots@[i].generation, slot: i as u32 },
            v,
        ));
        assert forall|k: int| 0 <= k < b.free@.len() implies b.slots@[(
        #[trigger] b.free@[k]) as int].occupant == (Occupant::<T>::Vacant {
            next_free: next_link(b.free@, k),
        }) by {
            assert(a.slots@[a.free@[k] as int].occupant == (Occupant::<T>::Vacant {
                next_free: next_link(a.free@, k),
            }));
        }
    }
}

/// A sequence of distinct numbers below `n` that avoids one such number has
/// fewer than `n` entries.
proof fn lemma_distinct_below_bound_excluding(s: Seq<u32>, n: nat, x: u32)
    requires
        s.no_duplicates(),
        (x as int) < n,
        forall|k: int| 0 <= k < s.len() ==> (#[trigger] s[k] as int) < n && s[k] != x,
    ensures
        s.len() < n,
{
    let ints = s.map_values(|v: u32| v as int);
    let set = ints.to_set();
    assert(ints.no_duplicates()) by {
        assert forall|a: int, b: int| 0 <= a < ints.len() && 0 <= b < ints.len() && a != b
            implies ints[a] != ints[b] by {
            assert(s[a] != s[b]);
        }
    }
    ints.unique_seq_to_set();
    let range = vstd::set_lib::set_int_range(0, n as int).remove(x as int);
    vstd::set_lib::lemma_int_range(0, n as int);
    assert(set.subset_of(range)) by {
        assert forall|v: int| set.contains(v) implies range.contains(v) by {
            let k = choose|k: int| 0 <= k < ints.len() && ints[k] == v;
            assert(s[k] as int == v);
        }
    }
    vstd::set_lib::lemma_len_subset(set, range);
}

/// A sequence of distinct numbers below `n` has at most `n` entries.
proof fn lemma_distinct_below_bound(s: Seq<u32>, n: nat)
    requires
        s.no_duplicates(),
        forall|k: int| 0 <= k < s.len() ==> (#[trigger] s[k] as int) < n,
    ensures
        s.len() <= n,
{
    let ints = s.map_values(|x: u32| x as int);
    let set = ints.to_set();
    assert(ints.no_duplicates()) by {
        assert forall|a: int, b: int| 0 <= a < ints.len() && 0 <= b < ints.len() && a != b
            implies ints[a] != ints[b] by {
            assert(s[a] != s[b]);
        }
    }
    ints.unique_seq_to_set();
    let range = vstd::set_lib::set_int_range(0, n as int);
    vstd::set_lib::lemma_int_range(0, n as int);
    assert(set.subset_of(range)) by {
        assert forall|x: int| set.contains(x) implies range.contains(x) by {
            let k = choose|k: int| 0 <= k < ints.len() && ints[k] == x;
            assert(s[k] as int == x);
        }
    }
    vstd::set_lib::lemma_len_subset(set, range);
}

} // verus!
