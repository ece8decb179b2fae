use vstd::prelude::*;

use crate::archetype::{ArchetypeId, ArchetypeRow};

verus! {

/// Index of an entity slot in the `EntityStore`.
#[derive(Clone, Copy, Debug, PartialEq, Eq, Structural)]
pub struct EntityId(pub u32);

/// Generation of an entity slot: uneven means alive, even means empty.
#[derive(Clone, Copy, Debug, PartialEq, Eq, Structural)]
pub struct EntityGeneration(pub u32);

impl EntityId {
    pub fn as_index(self) -> (r: usize)
        ensures
            r == self.0,
    {
        self.0 as usize
    }
}

impl EntityGeneration {
    /// Uneven generations mark a filled slot.
    pub fn is_alive(self) -> (r: bool)
        ensures
            r == (self.0 % 2 == 1),
    {
        self.0 % 2 == 1
    }
}

/// A handle to an entity: its slot and the generation of the slot when it was handed out.
#[derive(Clone, Copy, Debug, PartialEq, Eq, Structural)]
pub struct Entity {
    pub generation: EntityGeneration,
    pub id: EntityId,
}

/// Marks a slot that does not point into any archetype (yet).
pub const SENTINEL: u32 = u32::MAX;

/// The generation that follows `g` (wrapping around at `u32::MAX`).
pub open spec fn next_generation(g: u32) -> u32 {
    if g == u32::MAX {
        0
    } else {
        (g + 1) as u32
    }
}

#[derive(Clone, Copy)]
struct EntitySlot {
    archetype: ArchetypeId,
    /// row in the archetype; if this slot is empty it links the free list
    row: ArchetypeRow,
    /// even is empty, uneven is filled
    generation: EntityGeneration,
}

impl EntitySlot {
    fn new() -> (s: Self)
        ensures
            s.generation.0 == 1,
            s.archetype.0 == SENTINEL,
            s.row.0 == SENTINEL,
    {
        EntitySlot {
            archetype: ArchetypeId(SENTINEL),
            row: ArchetypeRow(SENTINEL),
            generation: EntityGeneration(1),
        }
    }

    fn new_empty(previous_free: u32) -> (s: Self)
        ensures
            s.generation.0 == 2,
            s.archetype.0 == SENTINEL,
            s.row.0 == previous_free,
    {
        EntitySlot {
            archetype: ArchetypeId(SENTINEL),
            row: ArchetypeRow(previous_free),
            generation: EntityGeneration(2),
        }
    }

    fn is_empty(&self) -> (r: bool)
        ensures
            r == (self.generation.0 % 2 == 0),
    {
        !self.generation.is_alive()
    }

    fn next_free(&self) -> (r: usize)
        ensures
            r == self.row.0,
    {
        self.row.0 as usize
    }

    fn fill(&mut self) -> (g: EntityGeneration)
        ensures
            final(self).generation.0 == next_generation(old(self).generation.0),
            final(self).row.0 == SENTINEL,
            final(self).archetype.0 == SENTINEL,
            g == final(self).generation,
    {
        self.generation = EntityGeneration(self.generation.0.wrapping_add(1));
        self.row = ArchetypeRow(SENTINEL);
        self.archetype = ArchetypeId(SENTINEL);
        self.generation
    }

    fn empty_out(&mut self, previous_free: u32) -> (g: EntityGeneration)
        ensures
            final(self).generation.0 == next_generation(old(self).generation.0),
            final(self).row.0 == previous_free,
            final(self).archetype == old(self).archetype,
            g == final(self).generation,
    {
        self.generation = EntityGeneration(self.generation.0.wrapping_add(1));
        self.row = ArchetypeRow(previous_free);
        self.generation
    }
}

/// The slot indices `hi - 1, hi - 2, ..., lo`.
pub open spec fn descending(lo: nat, hi: nat) -> Seq<usize> {
    Seq::new((hi - lo) as nat, |j: int| (hi - 1 - j) as usize)
}

proof fn lemma_descending_step(lo: nat, hi: nat)
    requires
        lo <= hi,
    ensures
        descending(lo, hi + 1) == seq![hi as usize] + descending(lo, hi),
        hi > lo ==> descending(lo, hi).drop_first() == descending(lo, (hi - 1) as nat),
{
    assert(descending(lo, hi + 1) =~= seq![hi as usize] + descending(lo, hi));
    if hi > lo {
        assert(descending(lo, hi).drop_first() =~= descending(lo, (hi - 1) as nat));
    }
}

/// Result of `EntityStore::force_alive`.
pub enum ForceAliveResult {
    MadeAlive(Entity),
    WasAliveBefore(Entity),
}

/// A generational arena that can only store entities.
///
/// Empty slots form a free list threaded through their `row` fields;
/// the ghost sequence `free` is that list in order.
pub struct EntityStore {
    slots: Vec<EntitySlot>,
    next_free: usize,
    deferred_creations: usize,
    free: Ghost<Seq<usize>>,
}

impl EntityStore {
    /// Number of slots.
    pub closed spec fn count(&self) -> nat {
        self.slots@.len()
    }

    /// Generation stored in slot `i`.
    pub closed spec fn gen_of(&self, i: int) -> u32 {
        self.slots@[i].generation.0
    }

    /// Archetype stored in slot `i`.
    pub closed spec fn archetype_of(&self, i: int) -> ArchetypeId {
        self.slots@[i].archetype
    }

    /// Row stored in slot `i` (for an empty slot: the next link of the free list).
    pub closed spec fn row_of(&self, i: int) -> ArchetypeRow {
        self.slots@[i].row
    }

    /// The free list, in the order in which `create` hands its slots out.
    pub closed spec fn free_list(&self) -> Seq<usize> {
        self.free@
    }

    /// Head of the free list (a value `>= count()` when the list is empty).
    pub closed spec fn next_free_spec(&self) -> usize {
        self.next_free
    }

    /// Number of deferred creations not yet realized.
    pub closed spec fn deferred_spec(&self) -> usize {
        self.deferred_creations
    }

    /// Slot `i` holds a living entity.
    pub open spec fn slot_alive(&self, i: int) -> bool {
        0 <= i < self.count() && self.gen_of(i) % 2 == 1
    }

    /// The slot of `e` exists and carries `e`'s generation.
    pub open spec fn entity_alive(&self, e: Entity) -> bool {
        e.id.0 < self.count() && self.gen_of(e.id.0 as int) == e.generation.0
    }

    /// Slot `i` is unchanged between `self` and `other`.
    pub open spec fn same_slot(&self, other: &Self, i: int) -> bool {
        &&& self.gen_of(i) == other.gen_of(i)
        &&& self.archetype_of(i) == other.archetype_of(i)
        &&& self.row_of(i) == other.row_of(i)
    }

    /// The end marker of the free list: the first link that points past the slots.
    pub closed spec fn free_end(&self) -> int {
        if self.free@.len() == 0 {
            self.next_free as int
        } else {
            self.slots@[self.free@.last() as int].row.0 as int
        }
    }

    /// The entity that the `k`-th creation from now will hand out.
    pub open spec fn deferred_entity(&self, k: nat) -> Entity {
        if k < self.free_list().len() {
            let i = self.free_list()[k as int];
            Entity {
                generation: EntityGeneration(next_generation(self.gen_of(i as int))),
                id: EntityId(i as u32),
            }
        } else {
            Entity {
                generation: EntityGeneration(1),
                id: EntityId((self.count() + k - self.free_list().len()) as u32),
            }
        }
    }

    pub closed spec fn wf(&self) -> bool {
        let free = self.free@;
        let slots = self.slots@;
        &&& slots.len() <= u32::MAX
        &&& self.next_free <= u32::MAX
        &&& forall|k: int|
            0 <= k < free.len() ==> #[trigger] free[k] < slots.len() && slots[free[k] as int].generation.0
                % 2 == 0
        &&& forall|k: int, l: int| 0 <= k < l < free.len() ==> #[trigger] free[k] != #[trigger] free[l]
        &&& forall|i: int|
            0 <= i < slots.len() && #[trigger] slots[i].generation.0 % 2 == 0 ==> free.contains(
                i as usize,
            )
        &&& free.len() == 0 ==> self.next_free >= slots.len()
        &&& free.len() > 0 ==> self.next_free == free[0]
        &&& forall|k: int|
            0 <= k < free.len() - 1 ==> slots[#[trigger] free[k] as int].row.0 == free[k + 1]
        &&& free.len() > 0 ==> slots[free.last() as int].row.0 >= slots.len()
    }

    /// The transition made by `create`.
    pub closed spec fn create_step(&self, post: &Self, e: Entity) -> bool {
        &&& e == self.deferred_entity(0)
        &&& post.deferred_creations == self.deferred_creations
        &&& if self.free@.len() == 0 {
            &&& post.slots@ == self.slots@.push(
                EntitySlot {
                    archetype: ArchetypeId(SENTINEL),
                    row: ArchetypeRow(SENTINEL),
                    generation: EntityGeneration(1),
                },
            )
            &&& post.free@ == Seq::<usize>::empty()
            &&& post.next_free == self.slots@.len() + 1
        } else {
            let i = self.free@[0];
            &&& post.slots@ == self.slots@.update(
                i as int,
                EntitySlot {
                    archetype: ArchetypeId(SENTINEL),
                    row: ArchetypeRow(SENTINEL),
                    generation: EntityGeneration(next_generation(self.slots@[i as int].generation.0)),
                },
            )
            &&& post.free@ == self.free@.drop_first()
            &&& post.next_free == self.slots@[i as int].row.0
        }
    }

    proof fn lemma_free_contains(&self, i: int) -> (k: int)
        requires
            self.wf(),
            0 <= i < self.count(),
            self.gen_of(i) % 2 == 0,
        ensures
            0 <= k < self.free@.len(),
            self.free@[k] == i,
    {
        assert(self.slots@[i].generation.0 % 2 == 0);
        assert(self.free@.contains(i as usize));
        choose|k: int| 0 <= k < self.free@.len() && self.free@[k] == i
    }

    pub fn new() -> (s: Self)
        ensures
            s.wf(),
            s.count() == 0,
            s.free_list().len() == 0,
            s.deferred_spec() == 0,
            s.next_free_spec() == 0,
    {
        EntityStore {
            slots: Vec::new(),
            next_free: 0,
            deferred_creations: 0,
            free: Ghost(Seq::empty()),
        }
    }

    /// Head of the free list; equal to or past the number of slots when no slot is free.
    pub fn next_free(&self) -> (r: usize)
        ensures
            r == self.next_free_spec(),
    {
        self.next_free
    }

    /// Number of deferred creations that were handed out and not yet realized.
    pub fn deferred_creations(&self) -> (r: usize)
        ensures
            r == self.deferred_spec(),
    {
        self.deferred_creations
    }

    /// Number of slots.
    pub fn slot_count(&self) -> (r: usize)
        ensures
            r == self.count(),
    {
        self.slots.len()
    }

    /// Creates a new entity: reuses the head of the free list or appends a new slot.
    pub fn create(&mut self) -> (e: Entity)
        requires
            old(self).wf(),
            old(self).count() < u32::MAX,
        ensures
            final(self).wf(),
            old(self).create_step(&*final(self), e),
            e == old(self).deferred_entity(0),
            e.generation.0 % 2 == 1,
            !old(self).entity_alive(e),
            final(self).entity_alive(e),
            final(self).archetype_of(e.id.0 as int).0 == SENTINEL,
            final(self).row_of(e.id.0 as int).0 == SENTINEL,
            final(self).deferred_spec() == old(self).deferred_spec(),
            old(self).free_list().len() == 0 ==> final(self).count() == old(self).count() + 1
                && e.id.0 == old(self).count() && e.generation.0 == 1 && final(self).next_free_spec()
                == final(self).count() && final(self).free_list().len() == 0,
            old(self).free_list().len() > 0 ==> final(self).count() == old(self).count() && e.id.0
                == old(self).free_list()[0] && final(self).free_list() == old(self).free_list().drop_first(),
            forall|i: int|
                0 <= i < old(self).count() && i != e.id.0 ==> #[trigger] final(self).same_slot(
                    old(self),
                    i,
                ),
    {
        if self.next_free >= self.slots.len() {
            let id = EntityId(self.slots.len() as u32);
            let slot = EntitySlot::new();
            let generation = slot.generation;
            self.slots.push(slot);
            self.next_free = self.slots.len();
            proof {
                let old_free = self.free@;
                if old_free.len() > 0 {
                    assert(old_free[0] < old(self).slots@.len());
                }
                assert(forall|i: int|
                    0 <= i < old(self).slots@.len() ==> self.slots@[i] == old(self).slots@[i]);
                assert forall|i: int|
                    0 <= i < self.slots@.len() && #[trigger] self.slots@[i].generation.0 % 2
                        == 0 implies self.free@.contains(i as usize) by {
                    if i < old(self).slots@.len() {
                        assert(old(self).slots@[i].generation.0 % 2 == 0);
                        assert(old(self).free@.contains(i as usize));
                        let k = choose|k: int|
                            0 <= k < old(self).free@.len() && old(self).free@[k] == i;
                        assert(old(self).free@[k] < old(self).slots@.len());
                    }
                }
                assert(self.slots@ =~= old(self).slots@.push(
                    EntitySlot {
                        archetype: ArchetypeId(SENTINEL),
                        row: ArchetypeRow(SENTINEL),
                        generation: EntityGeneration(1),
                    },
                ));
                assert(Entity { generation, id } == old(self).deferred_entity(0));
                assert(self.deferred_creations == old(self).deferred_creations);
                assert(self.free@ =~= Seq::<usize>::empty());
                assert(self.next_free == old(self).slots@.len() + 1);
            }
            Entity { generation, id }
        } else {
            self.take_free_head()
        }
    }

    /// Pops the head of the free list and fills its slot.
    fn take_free_head(&mut self) -> (e: Entity)
        requires
            old(self).wf(),
            old(self).free@.len() > 0,
        ensures
            final(self).wf(),
            old(self).create_step(&*final(self), e),
            e.id.0 == old(self).free@[0],
            e.generation.0 == next_generation(old(self).slots@[e.id.0 as int].generation.0),
    {
        let index = self.next_free;
        proof {
            assert(old(self).free@[0] < old(self).slots@.len());
        }
        let mut slot = self.slots[index];
        self.next_free = slot.next_free();
        let generation = slot.fill();
        self.slots.set(index, slot);
        proof {
            let of = old(self).free@;
            self.free@ = of.drop_first();
            assert forall|i: int|
                0 <= i < self.slots@.len() && #[trigger] self.slots@[i].generation.0 % 2
                    == 0 implies self.free@.contains(i as usize) by {
                assert(i != index);
                assert(old(self).slots@[i].generation.0 % 2 == 0);
                assert(old(self).free@.contains(i as usize));
                let k = choose|k: int| 0 <= k < of.len() && of[k] == i;
                assert(k != 0);
                assert(self.free@[k - 1] == i);
            }
            assert forall|k: int| 0 <= k < self.free@.len() - 1 implies self.slots@[
                #[trigger] self.free@[k] as int].row.0 == self.free@[k + 1] by {
                assert(of[k + 1int] != of[0]);
                assert(of[k + 1int] == self.free@[k]);
            }
            assert forall|k: int| 0 <= k < self.free@.len() implies #[trigger] self.free@[k]
                < self.slots@.len() && self.slots@[self.free@[k] as int].generation.0 % 2
                == 0 by {
                assert(of[k + 1int] != of[0]);
                assert(of[k + 1int] == self.free@[k]);
            }
            if self.free@.len() > 0 {
                assert(of[of.len() - 1] != of[0]);
                assert(self.free@[0] == of[1]);
            }
            assert(self.slots@ =~= old(self).slots@.update(
                index as int,
                EntitySlot {
                    archetype: ArchetypeId(SENTINEL),
                    row: ArchetypeRow(SENTINEL),
                    generation: EntityGeneration(
                        next_generation(old(self).slots@[index as int].generation.0),
                    ),
                },
            ));
        }
        Entity { generation, id: EntityId(index as u32) }
    }

    /// Destroys the entity: its slot becomes the new head of the free list.
    /// Does nothing if the entity is not alive.
    pub fn destroy(&mut self, e: Entity)
        requires
            old(self).wf(),
            e.generation.0 % 2 == 1,
        ensures
            final(self).wf(),
            final(self).count() == old(self).count(),
            final(self).deferred_spec() == old(self).deferred_spec(),
            !final(self).entity_alive(e),
            old(self).entity_alive(e) ==> final(self).free_list() == seq![e.id.0 as usize].add(
                old(self).free_list(),
            ) && final(self).gen_of(e.id.0 as int) == next_generation(e.generation.0)
                && final(self).archetype_of(e.id.0 as int) == old(self).archetype_of(
                e.id.0 as int,
            ),
            !old(self).entity_alive(e) ==> *final(self) == *old(self),
            forall|i: int|
                0 <= i < old(self).count() && i != e.id.0 ==> #[trigger] final(self).same_slot(
                    old(self),
                    i,
                ),
    {
        let index = e.id.0 as usize;
        if index < self.slots.len() {
            let mut slot = self.slots[index];
            if slot.generation != e.generation {
                return ;
            }
            let prev = self.next_free;
            slot.empty_out(prev as u32);
            self.slots.set(index, slot);
            self.next_free = index;
            proof {
                let of = old(self).free@;
                let nf = seq![index].add(of);
                assert(!of.contains(index)) by {
                    if of.contains(index) {
                        let k = choose|k: int| 0 <= k < of.len() && of[k] == index;
                        assert(old(self).slots@[of[k] as int].generation.0 % 2 == 0);
                    }
                }
                self.free@ = nf;
                assert forall|k: int| 0 <= k < nf.len() implies #[trigger] nf[k]
                    < self.slots@.len() && self.slots@[nf[k] as int].generation.0 % 2 == 0 by {
                    if k > 0 {
                        assert(nf[k] == of[k - 1]);
                    }
                }
                assert forall|k: int, l: int| 0 <= k < l < nf.len() implies #[trigger] nf[k]
                    != #[trigger] nf[l] by {
                    if k == 0 {
                        assert(nf[l] == of[l - 1]);
                        assert(of.contains(of[l - 1]));
                    } else {
                        assert(nf[k] == of[k - 1]);
                        assert(nf[l] == of[l - 1]);
                    }
                }
                assert forall|i: int|
                    0 <= i < self.slots@.len() && #[trigger] self.slots@[i].generation.0 % 2
                        == 0 implies nf.contains(i as usize) by {
                    if i == index {
                        assert(nf[0] == index);
                    } else {
                        assert(old(self).slots@[i].generation.0 % 2 == 0);
                        assert(of.contains(i as usize));
                        let k = choose|k: int| 0 <= k < of.len() && of[k] == i;
                        assert(nf[k + 1int] == i);
                    }
                }
                assert forall|k: int| 0 <= k < nf.len() - 1 implies self.slots@[
                    #[trigger] nf[k] as int].row.0 == nf[k + 1int] by {
                    if k == 0 {
                        assert(nf[1] == of[0]);
                    } else {
                        assert(nf[k] == of[k - 1]);
                        assert(nf[k + 1int] == of[k]);
                        assert(of[k - 1] != index);
                    }
                }
                if of.len() > 0 {
                    assert(nf.last() == of.last());
                    assert(of.last() != index);
                }
                assert(nf =~= seq![e.id.0 as usize].add(of));
            }
        }
    }

    /// Hands out the entity that the next realized creation will produce,
    /// without touching the slots. Realized by `realize_deferred`.
    pub fn create_deferred(&mut self) -> (e: Entity)
        requires
            old(self).wf(),
            old(self).count() + old(self).deferred_spec() < usize::MAX,
        ensures
            final(self).wf(),
            e == old(self).deferred_entity(old(self).deferred_spec() as nat),
            final(self).deferred_spec() == old(self).deferred_spec() + 1,
            final(self).same_entities(old(self)),
    {
        let mut count = self.deferred_creations;
        self.deferred_creations = count + 1;

        let ghost c0 = count;
        let ghost free = self.free@;
        let mut index = self.next_free;
        while count > 0 && index < self.slots.len()
            invariant
                self.wf(),
                free == self.free@,
                count <= c0,
                c0 - count <= free.len(),
                c0 - count < free.len() ==> index == free[c0 - count],
                c0 - count == free.len() ==> index >= self.slots@.len(),
                self.slots@.len() + c0 < usize::MAX,
            decreases count,
        {
            proof {
                assert(c0 - count < free.len());
            }
            count -= 1;
            let slot = &self.slots[index];
            index = slot.next_free();
            proof {
                let k = c0 - count;
                if k < free.len() {
                    assert(self.slots@[free[k - 1] as int].row.0 == free[k]);
                } else {
                    assert(free[k - 1] == free.last());
                }
            }
        }

        if index < self.slots.len() {
            proof {
                if c0 - count == free.len() {
                    assert(false);
                }
            }
            let slot = &self.slots[index];
            Entity {
                generation: EntityGeneration(slot.generation.0.wrapping_add(1)),
                id: EntityId(index as u32),
            }
        } else {
            proof {
                if c0 - count < free.len() {
                    assert(free[c0 - count] < self.slots@.len());
                }
            }
            Entity {
                generation: EntityGeneration(1),
                id: EntityId((self.slots.len() + count) as u32),
            }
        }
    }

    /// Everything but the deferred creation counter is the same.
    pub open spec fn same_entities(&self, other: &Self) -> bool {
        &&& self.count() == other.count()
        &&& self.free_list() == other.free_list()
        &&& self.next_free_spec() == other.next_free_spec()
        &&& forall|i: int| 0 <= i < self.count() ==> #[trigger] self.same_slot(other, i)
    }

    /// Resets the deferred creation counter and returns it: the caller has to call
    /// `create` that many times to realize the deferred entities.
    #[must_use]
    pub fn realize_deferred(&mut self) -> (r: usize)
        requires
            old(self).wf(),
        ensures
            final(self).wf(),
            r == old(self).deferred_spec(),
            final(self).deferred_spec() == 0,
            final(self).same_entities(old(self)),
    {
        let r = self.deferred_creations;
        self.deferred_creations = 0;
        r
    }

    /// Stores where in the archetypes the living entity `e` lives. The generation of `e` is
    /// odd: an even one would name an empty slot, whose row field links the free list.
    pub fn set_archetype(&mut self, e: Entity, id: ArchetypeId, row: ArchetypeRow)
        requires
            old(self).wf(),
            old(self).entity_alive(e),
            e.generation.0 % 2 == 1,
        ensures
            final(self).wf(),
            final(self).count() == old(self).count(),
            final(self).free_list() == old(self).free_list(),
            final(self).next_free_spec() == old(self).next_free_spec(),
            final(self).deferred_spec() == old(self).deferred_spec(),
            final(self).gen_of(e.id.0 as int) == old(self).gen_of(e.id.0 as int),
            final(self).archetype_of(e.id.0 as int) == id,
            final(self).row_of(e.id.0 as int) == row,
            forall|i: int|
                0 <= i < old(self).count() && i != e.id.0 ==> #[trigger] final(self).same_slot(
                    old(self),
                    i,
                ),
    {
        let index = e.id.0 as usize;
        let mut slot = self.slots[index];
        slot.archetype = id;
        slot.row = row;
        self.slots.set(index, slot);
        proof {
            self.lemma_set_alive_slot(old(self), index as int);
        }
    }

    /// Sets the archetype of the living entity in slot `eid` without checking a generation.
    /// The slot must hold a living entity: in an empty slot the row field links the free
    /// list, and overwriting it would hand out wrong slots later.
    pub fn set_archetype_unchecked(&mut self, eid: EntityId, id: ArchetypeId, row: ArchetypeRow)
        requires
            old(self).wf(),
            old(self).slot_alive(eid.0 as int),
        ensures
            final(self).wf(),
            final(self).count() == old(self).count(),
            final(self).free_list() == old(self).free_list(),
            final(self).next_free_spec() == old(self).next_free_spec(),
            final(self).deferred_spec() == old(self).deferred_spec(),
            final(self).gen_of(eid.0 as int) == old(self).gen_of(eid.0 as int),
            final(self).archetype_of(eid.0 as int) == id,
            final(self).row_of(eid.0 as int) == row,
            forall|i: int|
                0 <= i < old(self).count() && i != eid.0 ==> #[trigger] final(self).same_slot(
                    old(self),
                    i,
                ),
    {
        let index = eid.0 as usize;
        let mut slot = self.slots[index];
        slot.archetype = id;
        slot.row = row;
        self.slots.set(index, slot);
        proof {
            self.lemma_set_alive_slot(old(self), index as int);
        }
    }

    /// Changing the archetype and row of a living slot keeps the free list intact.
    proof fn lemma_set_alive_slot(&self, old: &Self, index: int)
        requires
            old.wf(),
            0 <= index < old.slots@.len(),
            old.slots@[index].generation.0 % 2 == 1,
            self.slots@.len() == old.slots@.len(),
            self.slots@[index].generation == old.slots@[index].generation,
            forall|i: int| 0 <= i < old.slots@.len() && i != index ==> self.slots@[i] == old.slots@[i],
            self.free@ == old.free@,
            self.next_free == old.next_free,
        ensures
            self.wf(),
    {
        let free = self.free@;
        assert forall|k: int| 0 <= k < free.len() implies free[k] != index by {
            assert(old.slots@[free[k] as int].generation.0 % 2 == 0);
        }
        assert forall|k: int| 0 <= k < free.len() implies #[trigger] free[k] < self.slots@.len()
            && self.slots@[free[k] as int].generation.0 % 2 == 0 by {
            assert(free[k] != index);
        }
        assert forall|i: int|
            0 <= i < self.slots@.len() && #[trigger] self.slots@[i].generation.0 % 2
                == 0 implies free.contains(i as usize) by {
            assert(old.slots@[i].generation.0 % 2 == 0);
        }
        assert forall|k: int| 0 <= k < free.len() - 1 implies self.slots@[
            #[trigger] free[k] as int].row.0 == free[k + 1] by {
            assert(free[k] != index);
        }
        if free.len() > 0 {
            assert(free[free.len() - 1] != index);
        }
    }

    /// Checks whether the entity is alive by comparing its generation with its slot.
    pub fn is_alive(&self, e: Entity) -> (r: bool)
        ensures
            r == self.entity_alive(e),
    {
        let index = e.id.0 as usize;
        if index < self.slots.len() {
            self.slots[index].generation == e.generation
        } else {
            false
        }
    }

    /// Whether slot `id` holds a living entity.
    pub fn is_slot_alive(&self, id: EntityId) -> (r: bool)
        ensures
            r == self.slot_alive(id.0 as int),
    {
        let index = id.0 as usize;
        if index < self.slots.len() {
            self.slots[index].generation.is_alive()
        } else {
            false
        }
    }

    /// Where the living entity `e` lives.
    pub fn get_archetype(&self, e: Entity) -> (r: (ArchetypeId, ArchetypeRow))
        requires
            self.entity_alive(e),
        ensures
            r.0 == self.archetype_of(e.id.0 as int),
            r.1 == self.row_of(e.id.0 as int),
    {
        let slot = &self.slots[e.id.0 as usize];
        (slot.archetype, slot.row)
    }

    /// Where the living entity in slot `id` lives.
    pub fn get_archetype_unchecked(&self, id: EntityId) -> (r: (ArchetypeId, ArchetypeRow))
        requires
            self.slot_alive(id.0 as int),
        ensures
            r.0 == self.archetype_of(id.0 as int),
            r.1 == self.row_of(id.0 as int),
    {
        let slot = &self.slots[id.0 as usize];
        (slot.archetype, slot.row)
    }

    /// Returns the entity for the living slot `id`.
    pub fn get_from_id(&self, id: EntityId) -> (e: Entity)
        requires
            self.slot_alive(id.0 as int),
        ensures
            e.id == id,
            e.generation.0 == self.gen_of(id.0 as int),
            self.entity_alive(e),
    {
        let slot = &self.slots[id.0 as usize];
        Entity { generation: slot.generation, id }
    }

    /// Whether `force_alive(id)` can be asked: every id but the last one a `u32` can hold
    /// names a slot the store can grow to.
    pub open spec fn force_alive_allowed(&self, id: EntityId) -> bool {
        id.0 < u32::MAX
    }

    /// Checks `force_alive_allowed`.
    pub fn can_force_alive(&self, id: EntityId) -> (r: bool)
        requires
            self.wf(),
        ensures
            r == self.force_alive_allowed(id),
    {
        id.0 < u32::MAX
    }

    /// Points the last slot of the free list at the end marker `SENTINEL`, past every slot
    /// the store can hold, so that growing the store keeps the list a list.
    fn seal_free_tail(&mut self)
        requires
            old(self).wf(),
            old(self).free@.len() > 0,
        ensures
            final(self).wf(),
            final(self).free@ == old(self).free@,
            final(self).next_free == old(self).next_free,
            final(self).deferred_creations == old(self).deferred_creations,
            final(self).slots@.len() == old(self).slots@.len(),
            final(self).free_end() == SENTINEL,
            forall|i: int|
                0 <= i < old(self).slots@.len() && i != old(self).free@.last() ==> #[trigger] final(self).slots@[i]
                    == old(self).slots@[i],
            final(self).slots@[old(self).free@.last() as int].generation == old(self).slots@[old(self).free@.last() as int].generation,
            final(self).slots@[old(self).free@.last() as int].archetype == old(self).slots@[old(self).free@.last() as int].archetype,
    {
        let ghost free = self.free@;
        let mut cur = self.next_free;
        let ghost mut k: int = 0;
        while self.slots[cur].next_free() < self.slots.len()
            invariant
                self.wf(),
                free == self.free@,
                0 <= k < free.len(),
                cur == free[k],
                self.slots@ == old(self).slots@,
                self.next_free == old(self).next_free,
                self.deferred_creations == old(self).deferred_creations,
                free == old(self).free@,
            decreases free.len() - k,
        {
            proof {
                if k == free.len() - 1 {
                    assert(false);
                }
                assert(self.slots@[free[k] as int].row.0 == free[k + 1]);
            }
            cur = self.slots[cur].next_free();
            proof {
                k = k + 1;
            }
        }
        proof {
            if k < free.len() - 1 {
                assert(self.slots@[free[k] as int].row.0 == free[k + 1]);
                assert(free[k + 1] < self.slots@.len());
            }
            assert(k == free.len() - 1);
        }
        let mut slot = self.slots[cur];
        slot.row = ArchetypeRow(SENTINEL);
        self.slots.set(cur, slot);
        proof {
            let o = old(self);
            assert forall|j: int| 0 <= j < free.len() - 1 implies self.slots@[#[trigger] free[j] as int].row.0 == free[j + 1] by {
                assert(free[j] != free[free.len() - 1]);
                assert(o.slots@[free[j] as int].row.0 == free[j + 1]);
            }
            assert forall|i: int|
                0 <= i < self.slots@.len() && #[trigger] self.slots@[i].generation.0 % 2 == 0 implies self.free@.contains(
                i as usize,
            ) by {
                assert(o.slots@[i].generation == self.slots@[i].generation);
            }
            assert forall|j: int|
                0 <= j < free.len() implies #[trigger] free[j] < self.slots@.len() && self.slots@[free[j] as int].generation.0
                % 2 == 0 by {
                assert(o.slots@[free[j] as int].generation == self.slots@[free[j] as int].generation);
            }
        }
    }

    /// Makes the entity in slot `id` alive, growing the store if needed.
    /// If it was not alive before, it still has to be placed into an archetype.
    #[must_use]
    #[verifier::spinoff_prover]
    #[verifier::rlimit(80)]
    pub fn force_alive(&mut self, id: EntityId) -> (r: ForceAliveResult)
        requires
            old(self).wf(),
            old(self).force_alive_allowed(id),
        ensures
            final(self).wf(),
            final(self).deferred_spec() == old(self).deferred_spec(),
            match r {
                ForceAliveResult::WasAliveBefore(e) => {
                    &&& old(self).slot_alive(id.0 as int)
                    &&& e.id == id
                    &&& e.generation.0 == old(self).gen_of(id.0 as int)
                    &&& *final(self) == *old(self)
                },
                ForceAliveResult::MadeAlive(e) => {
                    &&& !old(self).slot_alive(id.0 as int)
                    &&& e.id == id
                    &&& e.generation.0 % 2 == 1
                    &&& final(self).entity_alive(e)
                    &&& final(self).archetype_of(id.0 as int).0 == SENTINEL
                    &&& final(self).row_of(id.0 as int).0 == SENTINEL
                    &&& (id.0 < old(self).count() ==> {
                        &&& final(self).count() == old(self).count()
                        &&& e.generation.0 == next_generation(old(self).gen_of(id.0 as int))
                        &&& exists|p: int|
                            0 <= p < old(self).free_list().len() && old(self).free_list()[p]
                                == id.0 && final(self).free_list() == old(self).free_list().remove(
                                p,
                            )
                    })
                    &&& (id.0 >= old(self).count() ==> {
                        &&& final(self).count() == id.0 + 1
                        &&& e.generation.0 == 3
                        &&& final(self).free_list() == descending(old(self).count(), id.0 as nat)
                            + old(self).free_list()
                    })
                    &&& forall|i: int|
                        0 <= i < old(self).count() && i != id.0 && old(self).slot_alive(i)
                            ==> #[trigger] final(self).same_slot(old(self), i)
                    &&& forall|i: int|
                        0 <= i < old(self).count() && i != id.0 ==> #[trigger] final(self).gen_of(
                            i,
                        ) == old(self).gen_of(i)
                    &&& forall|i: int|
                        old(self).count() <= i < final(self).count() && i != id.0
                            ==> !#[trigger] final(self).slot_alive(i)
                    &&& forall|i: int|
                        old(self).count() <= i < final(self).count() && i != id.0
                            ==> #[trigger] final(self).gen_of(i) == 2
                },
            },
    {
        let index = id.as_index();
        if index < self.slots.len() {
            if self.slots[index].generation.is_alive() {
                return ForceAliveResult::WasAliveBefore(
                    Entity { generation: self.slots[index].generation, id },
                );
            } else if self.next_free == index {
                let e = self.take_free_head();
                proof {
                    assert(self.free@ =~= old(self).free@.remove(0));
                }
                return ForceAliveResult::MadeAlive(e);
            } else {
                let generation = self.unlink_free(index);
                proof {
                    let e = Entity { generation, id };
                    assert(self.entity_alive(e));
                    assert(e.generation.0 % 2 == 1);
                    assert(forall|i: int|
                        0 <= i < old(self).count() && i != id.0 && old(self).slot_alive(i)
                            ==> #[trigger] self.same_slot(old(self), i));
                    assert(forall|i: int|
                        0 <= i < old(self).count() && i != id.0 ==> #[trigger] self.gen_of(i)
                            == old(self).gen_of(i));
                    let p = choose|p: int|
                        0 <= p < old(self).free@.len() && old(self).free@[p] == index
                            && self.free@ == old(self).free@.remove(p);
                    assert(old(self).free_list()[p] == id.0);
                    assert(self.count() == old(self).count());
                    assert(e.generation.0 == next_generation(old(self).gen_of(id.0 as int)));
                    assert(self.archetype_of(id.0 as int).0 == SENTINEL);
                    assert(!old(self).slot_alive(id.0 as int));
                }
                return ForceAliveResult::MadeAlive(Entity { generation, id });
            }
        } else {
            if self.next_free >= self.slots.len() {
                self.next_free = self.slots.len();
                proof {
                    if self.free@.len() > 0 {
                        assert(old(self).free@[0] < old(self).slots@.len());
                    }
                }
            } else {
                proof {
                    if self.free@.len() == 0 {
                        assert(false);
                    }
                }
                self.seal_free_tail();
            }
            self.grow_to(index);
            let e = self.take_free_head();
            proof {
                lemma_descending_step(old(self).slots@.len(), index as nat);
                assert(self.free@ =~= descending(old(self).slots@.len(), index as nat)
                    + old(self).free@);
            }
            ForceAliveResult::MadeAlive(e)
        }
    }

    /// Takes the empty slot `index`, which is not the head, out of the free list and fills it.
    fn unlink_free(&mut self, index: usize) -> (generation: EntityGeneration)
        requires
            old(self).wf(),
            index < old(self).slots@.len(),
            old(self).slots@[index as int].generation.0 % 2 == 0,
            old(self).next_free != index,
        ensures
            final(self).wf(),
            final(self).deferred_creations == old(self).deferred_creations,
            final(self).slots@.len() == old(self).slots@.len(),
            generation.0 == next_generation(old(self).slots@[index as int].generation.0),
            final(self).slots@[index as int].generation == generation,
            final(self).slots@[index as int].row.0 == SENTINEL,
            final(self).slots@[index as int].archetype.0 == SENTINEL,
            exists|p: int|
                0 <= p < old(self).free@.len() && old(self).free@[p] == index && final(self).free@
                    == old(self).free@.remove(p),
            forall|i: int|
                0 <= i < old(self).slots@.len() && i != index ==> (#[trigger] final(self).slots@[i]).generation == old(self).slots@[i].generation,
            forall|i: int|
                0 <= i < old(self).slots@.len() && i != index && old(self).slots@[i].generation.0
                    % 2 == 1 ==> (#[trigger] final(self).slots@[i]) == old(self).slots@[i],
    {
                let ghost free = self.free@;
        let ghost p = self.lemma_free_contains(index as int);
        proof {
            assert(p != 0);
        }
        let mut prev = self.next_free;
        let ghost mut k: int = 0;
        while self.slots[prev].next_free() != index
            invariant
                self.wf(),
                free == self.free@,
                0 <= k < p,
                0 < p < free.len(),
                free[p] == index,
                prev == free[k],
            decreases p - k,
        {
            proof {
                assert(self.slots@[free[k] as int].row.0 == free[k + 1]);
                if k + 1 == p {
                    assert(false);
                }
            }
            prev = self.slots[prev].next_free();
            proof {
                k = k + 1;
            }
        }
        proof {
            assert(self.slots@[free[k] as int].row.0 == free[k + 1]);
            assert(k + 1 == p);
        }
        let next_row = self.slots[index].row.0;
        let mut prev_slot = self.slots[prev];
        prev_slot.row = ArchetypeRow(next_row);
        self.slots.set(prev, prev_slot);
        let mut slot = self.slots[index];
        let generation = slot.fill();
        self.slots.set(index, slot);
        proof {
            let nf = free.remove(p);
            self.free@ = nf;
            self.lemma_unlink(old(self), p, index as int, prev as int);
            assert(old(self).slots@[prev as int].generation.0 % 2 == 0);
        }
        generation
    }

    /// Appends empty slots, each becoming the head of the free list, until `index` is a slot.
    #[verifier::spinoff_prover]
    #[verifier::rlimit(40)]
    fn grow_to(&mut self, index: usize)
        requires
            old(self).wf(),
            old(self).slots@.len() <= index < u32::MAX,
            old(self).free_end() > index || (old(self).free@.len() == 0 && old(self).next_free
                == old(self).slots@.len()),
        ensures
            final(self).wf(),
            final(self).slots@.len() == index + 1,
            final(self).next_free == index,
            final(self).free@ == descending(old(self).slots@.len(), (index + 1) as nat) + old(self).free@,
            forall|i: int| 0 <= i < old(self).slots@.len() ==> final(self).slots@[i] == old(self).slots@[i],
            forall|i: int|
                old(self).slots@.len() <= i < final(self).slots@.len() ==> (#[trigger] final(self).slots@[i]).generation.0
                    == 2,
            final(self).deferred_creations == old(self).deferred_creations,
    {
        let ghost id_u = index;
            let ghost oc = self.slots@.len();
            let ghost old_free = self.free@;
            while index >= self.slots.len()
                invariant
                    self.wf(),
                    oc == old(self).slots@.len(),
                    oc <= self.slots@.len() <= index + 1,
                    index == id_u,
                    index < u32::MAX,
                    old_free == old(self).free@,
                    self.free@ == descending(oc, self.slots@.len()) + old_free,
                    forall|i: int| 0 <= i < oc ==> self.slots@[i] == old(self).slots@[i],
                    forall|i: int|
                        oc <= i < self.slots@.len() ==> (#[trigger] self.slots@[i]).generation.0
                            == 2 && self.slots@[i].archetype.0 == SENTINEL,
                    self.slots@.len() > oc ==> self.next_free == self.slots@.len() - 1,
                    self.free_end() > index || (self.free@.len() == 0 && self.next_free
                        == self.slots@.len()),
                    self.deferred_creations == old(self).deferred_creations,
                decreases index + 1 - self.slots@.len(),
            {
                let ghost len = self.slots@.len();
                let ghost pre = *self;
                if self.next_free == self.slots.len() {
                    proof {
                        if self.free@.len() > 0 {
                            assert(self.free@[0] < len);
                        }
                    }
                    self.slots.push(EntitySlot::new_empty(SENTINEL));
                } else {
                    let nf = self.next_free as u32;
                    self.slots.push(EntitySlot::new_empty(nf));
                    self.next_free = self.slots.len() - 1;
                }
                proof {
                    lemma_descending_step(oc, len);
                    self.free@ = seq![len as usize] + pre.free@;
                    self.lemma_grow(pre, len as int, index as int);
                    assert(self.free@ =~= descending(oc, self.slots@.len()) + old_free);
                }
            }
    }


    /// Unlinking the slot at position `p` of the free list keeps the store well formed.
    #[verifier::rlimit(60)]
    proof fn lemma_unlink(&self, old: &Self, p: int, index: int, prev: int)
        requires
            old.wf(),
            0 < p < old.free@.len(),
            old.free@[p] == index,
            old.free@[p - 1] == prev,
            self.free@ == old.free@.remove(p),
            self.next_free == old.next_free,
            self.slots@.len() == old.slots@.len(),
            self.slots@[prev].row.0 == old.slots@[index].row.0,
            self.slots@[prev].generation == old.slots@[prev].generation,
            self.slots@[index].generation.0 == next_generation(old.slots@[index].generation.0),
            forall|i: int|
                0 <= i < old.slots@.len() && i != prev && i != index ==> self.slots@[i]
                    == old.slots@[i],
        ensures
            self.wf(),
    {
        let of = old.free@;
        let nf = self.free@;
        assert(prev != index);
        assert forall|k: int| 0 <= k < nf.len() implies #[trigger] nf[k] < self.slots@.len()
            && self.slots@[nf[k] as int].generation.0 % 2 == 0 by {
            if k < p {
                assert(nf[k] == of[k]);
                assert(of[k] != of[p]);
            } else {
                assert(nf[k] == of[k + 1int]);
                assert(of[k + 1int] != of[p]);
            }
        }
        assert forall|k: int, l: int| 0 <= k < l < nf.len() implies #[trigger] nf[k]
            != #[trigger] nf[l] by {
            let k2 = if k < p {
                k
            } else {
                k + 1
            };
            let l2 = if l < p {
                l
            } else {
                l + 1
            };
            assert(nf[k] == of[k2]);
            assert(nf[l] == of[l2]);
        }
        assert forall|i: int|
            0 <= i < self.slots@.len() && #[trigger] self.slots@[i].generation.0 % 2
                == 0 implies nf.contains(i as usize) by {
            assert(i != index);
            assert(old.slots@[i].generation.0 % 2 == 0);
            assert(of.contains(i as usize));
            let k = choose|k: int| 0 <= k < of.len() && of[k] == i;
            assert(k != p);
            if k < p {
                assert(nf[k] == i);
            } else {
                assert(nf[k - 1] == i);
            }
        }
        assert forall|k: int| 0 <= k < nf.len() - 1 implies self.slots@[
            #[trigger] nf[k] as int].row.0 == nf[k + 1int] by {
            if k < p - 1 {
                assert(nf[k] == of[k]);
                assert(nf[k + 1int] == of[k + 1int]);
                assert(of[k] != of[p]);
                assert(of[k] != of[p - 1]);
            } else if k == p - 1 {
                assert(nf[k] == prev);
                assert(nf[k + 1int] == of[p + 1]);
                assert(old.slots@[of[p] as int].row.0 == of[p + 1]);
            } else {
                assert(nf[k] == of[k + 1int]);
                assert(nf[k + 1int] == of[k + 2]);
                assert(of[k + 1int] != of[p]);
                assert(of[k + 1int] != of[p - 1]);
            }
        }
        if p == of.len() - 1 {
            assert(nf.last() == prev);
        } else {
            assert(nf.last() == of.last());
            assert(of.last() != of[p]);
            assert(of.last() != of[p - 1]);
        }
        assert(nf[0] == of[0]);
    }

    /// Appending an empty slot at the front of the free list keeps the growth invariant.
    #[verifier::spinoff_prover]
    #[verifier::rlimit(60)]
    proof fn lemma_grow(&self, pre: Self, len: int, index: int)
        requires
            pre.wf(),
            len == pre.slots@.len(),
            len <= index < u32::MAX,
            self.slots@.len() == len + 1,
            forall|i: int| 0 <= i < len ==> self.slots@[i] == pre.slots@[i],
            self.slots@[len].generation.0 == 2,
            self.free@ == seq![len as usize] + pre.free@,
            self.next_free == len,
            pre.next_free == len ==> pre.free@.len() == 0 && self.slots@[len].row.0 == SENTINEL,
            pre.next_free != len ==> self.slots@[len].row.0 == pre.next_free,
            pre.free_end() > index || (pre.free@.len() == 0 && pre.next_free == len),
        ensures
            self.wf(),
            self.free_end() > index,
    {
        let of = pre.free@;
        let nf = self.free@;
        assert forall|k: int| 0 <= k < nf.len() implies #[trigger] nf[k] < self.slots@.len()
            && self.slots@[nf[k] as int].generation.0 % 2 == 0 by {
            if k > 0 {
                assert(nf[k] == of[k - 1]);
            }
        }
        assert forall|k: int, l: int| 0 <= k < l < nf.len() implies #[trigger] nf[k]
            != #[trigger] nf[l] by {
            assert(nf[l] == of[l - 1]);
            if k > 0 {
                assert(nf[k] == of[k - 1]);
            }
        }
        assert forall|i: int|
            0 <= i < self.slots@.len() && #[trigger] self.slots@[i].generation.0 % 2
                == 0 implies nf.contains(i as usize) by {
            if i == len {
                assert(nf[0] == len);
            } else {
                assert(pre.slots@[i].generation.0 % 2 == 0);
                assert(of.contains(i as usize));
                let k = choose|k: int| 0 <= k < of.len() && of[k] == i;
                assert(nf[k + 1int] == i);
            }
        }
        assert forall|k: int| 0 <= k < nf.len() - 1 implies self.slots@[
            #[trigger] nf[k] as int].row.0 == nf[k + 1int] by {
            if k == 0 {
                assert(nf[1] == of[0]);
            } else {
                assert(nf[k] == of[k - 1]);
                assert(nf[k + 1int] == of[k]);
            }
        }
        if of.len() > 0 {
            assert(nf.last() == of.last());
        }
    }

    /// Law: one creation shifts the deferred entities by one. The `k + 1`-th entity that
    /// `create_deferred` predicts before a `create` is the `k`-th one it predicts after it,
    /// so realizing `n` deferred creations hands out exactly the `n` predicted entities.
    pub proof fn lemma_create_shifts_deferred(pre: &EntityStore, post: &EntityStore, e: Entity, k: nat)
        requires
            pre.wf(),
            pre.create_step(post, e),
        ensures
            post.deferred_entity(k) == pre.deferred_entity(k + 1),
            e == pre.deferred_entity(0),
    {
        let f = pre.free@;
        if f.len() > 0 {
            if k + 1 < f.len() {
                assert(post.free@[k as int] == f[k + 1int]);
                assert(f[k + 1int] != f[0]);
                assert(f[k + 1int] < pre.slots@.len());
            }
        }
    }

    /// Law: a run of creations hands out, in order, the entities that `deferred_entity`
    /// names before the run: the `j`-th creation returns the `j`-th of them.
    pub proof fn lemma_creates_in_deferred_order(states: Seq<EntityStore>, es: Seq<Entity>)
        requires
            states.len() == es.len() + 1,
            forall|j: int| 0 <= j < es.len() ==> (#[trigger] states[j]).wf() && states[j].create_step(&states[j + 1], es[j]),
        ensures
            forall|j: int| 0 <= j < es.len() ==> #[trigger] es[j] == states[0].deferred_entity(j as nat),
    {
        assert forall|j: int| 0 <= j < es.len() implies #[trigger] es[j] == states[0].deferred_entity(j as nat) by {
            assert(states[j].wf() && states[j].create_step(&states[j + 1], es[j]));
            Self::lemma_create_shifts_deferred(&states[j], &states[j + 1], es[j], 0);
            Self::lemma_shift_run(states, es, j, 0);
        }
    }

    /// Along a run of creations, the `k`-th named entity after `m` steps is the
    /// `k + m`-th one before them.
    proof fn lemma_shift_run(states: Seq<EntityStore>, es: Seq<Entity>, m: int, k: nat)
        requires
            states.len() == es.len() + 1,
            0 <= m <= es.len(),
            forall|j: int| 0 <= j < es.len() ==> (#[trigger] states[j]).wf() && states[j].create_step(&states[j + 1], es[j]),
        ensures
            states[m].deferred_entity(k) == states[0].deferred_entity((k + m) as nat),
        decreases m,
    {
        if m > 0 {
            assert(states[m - 1].wf() && states[m - 1].create_step(&states[m], es[m - 1]));
            Self::lemma_create_shifts_deferred(&states[m - 1], &states[m], es[m - 1], k);
            Self::lemma_shift_run(states, es, m - 1, k + 1);
        }
    }

    /// Law: the entities named for deferred creation stay the same while nothing but the
    /// deferred count changes, as across `create_deferred` and `realize_deferred`.
    pub proof fn lemma_same_entities_same_deferred(a: &EntityStore, b: &EntityStore, k: nat)
        requires
            a.wf(),
            b.same_entities(a),
        ensures
            b.deferred_entity(k) == a.deferred_entity(k),
    {
        a.lemma_free_list();
        if k < a.free_list().len() {
            let i = a.free_list()[k as int] as int;
            assert(a.free_list().contains(a.free_list()[k as int]));
            assert(b.same_slot(a, i));
        }
    }

    /// The free list holds distinct empty slots, and every empty slot.
    pub proof fn lemma_free_list(&self)
        requires
            self.wf(),
        ensures
            forall|k: int|
                0 <= k < self.free_list().len() ==> #[trigger] self.free_list()[k] < self.count()
                    && !self.slot_alive(self.free_list()[k] as int),
            forall|k: int, l: int|
                0 <= k < l < self.free_list().len() ==> #[trigger] self.free_list()[k]
                    != #[trigger] self.free_list()[l],
            forall|i: int|
                0 <= i < self.count() && !#[trigger] self.slot_alive(i) ==> self.free_list().contains(
                    i as usize,
                ),
            self.count() <= u32::MAX,
    {
        assert forall|i: int|
            0 <= i < self.count() && !#[trigger] self.slot_alive(i) implies self.free_list().contains(
            i as usize,
        ) by {
            assert(self.slots@[i].generation.0 % 2 == 0);
        }
    }
}

} // verus!
