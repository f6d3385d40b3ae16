//! Entity identifiers and the allocator that hands them out.
use vstd::prelude::*;

verus! {

/// Index of an archetype inside a world.
pub type ArchetypeId = usize;

/// An opaque handle to an entity: a slot index and the generation of that slot.
#[derive(Clone, Copy, Debug, PartialEq, Eq, Hash, Structural)]
pub struct Entity {
    pub index: u32,
    pub generation: u32,
}

/// Where the components of a live entity are stored.
#[derive(Clone, Copy, Debug, PartialEq, Eq, Structural)]
pub struct EntityLocation {
    pub archetype_id: ArchetypeId,
    pub row: usize,
}

/// The state of one slot of the allocator.
///
/// `generation` is the generation that the next handle of this slot carries.
/// A slot whose generation went past `u32::MAX` is retired and never reused.
#[derive(Clone, Copy, Debug)]
pub struct EntityMeta {
    pub generation: u64,
    pub alive: bool,
    pub location: Option<EntityLocation>,
}

/// The largest generation a handle can carry, as an integer.
pub open spec fn max_generation() -> int {
    u32::MAX as int
}

/// Allocates entity handles, recycles freed slots with a bumped generation and
/// records where each live entity is stored.
pub struct Entities {
    meta: Vec<EntityMeta>,
    free_list: Vec<u32>,
}

impl Entities {
    /// The slots, indexed by entity index.
    pub closed spec fn metas(&self) -> Seq<EntityMeta> {
        self.meta@
    }

    /// The slots that `alloc` reuses, last one first.
    pub closed spec fn free_slots(&self) -> Seq<u32> {
        self.free_list@
    }

    /// How many more handles can be allocated.
    pub open spec fn spec_room(&self) -> int {
        (u32::MAX as int - self.metas().len()) + self.free_slots().len()
    }

    pub open spec fn slot_ok(m: EntityMeta) -> bool {
        &&& m.generation <= max_generation() + 1
        &&& m.alive ==> m.generation <= max_generation()
        &&& !m.alive ==> m.location.is_none()
    }

    pub open spec fn wf(&self) -> bool {
        &&& self.metas().len() <= u32::MAX as int
        &&& forall|i: int| 0 <= i < self.metas().len() ==> #[trigger] Self::slot_ok(self.metas()[i])
        &&& self.free_slots().no_duplicates()
        &&& forall|k: int|
            0 <= k < self.free_slots().len() ==> {
                let i = #[trigger] self.free_slots()[k] as int;
                &&& i < self.metas().len()
                &&& !self.metas()[i].alive
                &&& self.metas()[i].generation <= max_generation()
            }
    }

    /// The handle `e` names the current occupant of a live slot.
    pub open spec fn spec_is_valid(&self, e: Entity) -> bool {
        &&& (e.index as int) < self.metas().len()
        &&& self.metas()[e.index as int].alive
        &&& self.metas()[e.index as int].generation == e.generation as u64
    }

    /// The handle `e` belonged to its slot once and the slot has moved past it.
    pub open spec fn is_stale(&self, e: Entity) -> bool {
        &&& (e.index as int) < self.metas().len()
        &&& (e.generation as u64) < self.metas()[e.index as int].generation
    }

    /// `later` is a state that can follow `self`: no slot is dropped and no
    /// generation goes back.
    pub open spec fn evolves_to(&self, later: &Entities) -> bool {
        &&& self.metas().len() <= later.metas().len()
        &&& forall|i: int|
            0 <= i < self.metas().len() ==> #[trigger] self.metas()[i].generation
                <= later.metas()[i].generation
    }

    pub fn new() -> (r: Entities)
        ensures
            r.wf(),
            r.metas().len() == 0,
            r.spec_room() == u32::MAX as int,
    {
        Entities { meta: Vec::new(), free_list: Vec::new() }
    }

    /// Number of slots ever handed out.
    pub fn len(&self) -> (r: usize)
        ensures
            r as int == self.metas().len(),
    {
        self.meta.len()
    }

    /// How many more handles can be allocated, saturated at `u64::MAX`.
    pub fn room(&self) -> (r: u64)
        requires
            self.wf(),
        ensures
            r as int == if self.spec_room() > u64::MAX as int {
                u64::MAX as int
            } else {
                self.spec_room()
            },
    {
        let fresh = u32::MAX as u64 - self.meta.len() as u64;
        let freed = self.free_list.len() as u64;
        if freed > u64::MAX - fresh {
            u64::MAX
        } else {
            fresh + freed
        }
    }

    pub fn is_valid(&self, e: Entity) -> (r: bool)
        ensures
            r == self.spec_is_valid(e),
    {
        let i = e.index as usize;
        i < self.meta.len() && self.meta[i].alive && self.meta[i].generation == e.generation as u64
    }

    /// The location of a live entity, if it has been placed.
    pub fn get(&self, e: Entity) -> (r: Option<EntityLocation>)
        ensures
            r == (if self.spec_is_valid(e) {
                self.metas()[e.index as int].location
            } else {
                None
            }),
    {
        if self.is_valid(e) {
            self.meta[e.index as usize].location
        } else {
            None
        }
    }

    /// Grows the slot table so that `additional` allocations of new slots do
    /// not reallocate it.
    pub fn reserve(&mut self, additional: usize)
        ensures
            final(self).metas() == old(self).metas(),
            final(self).free_slots() == old(self).free_slots(),
    {
        self.meta.reserve(additional);
    }

    /// Hands out a handle: a freed slot with its bumped generation when there
    /// is one, else a new slot. The entity is live and not yet placed.
    pub fn allocate(&mut self) -> (r: Entity)
        requires
            old(self).wf(),
            old(self).spec_room() >= 1,
        ensures
            final(self).wf(),
            final(self).spec_room() == old(self).spec_room() - 1,
            old(self).evolves_to(&*final(self)),
            !old(self).spec_is_valid(r),
            !old(self).is_stale(r),
            final(self).spec_is_valid(r),
            final(self).metas()[r.index as int].location.is_none(),
            (r.index as int) < old(self).metas().len() ==> !old(self).metas()[r.index as int].alive,
            final(self).metas().len() == old(self).metas().len() || (final(self).metas().len()
                == old(self).metas().len() + 1 && r.index as int == old(self).metas().len()),
            forall|i: int|
                0 <= i < old(self).metas().len() && i != r.index as int ==> #[trigger] final(self).metas()[i] == old(self).metas()[i],
    {
        match self.free_list.pop() {
            Some(index) => {
                proof {
                    let k = old(self).free_slots().len() - 1;
                    assert(old(self).free_slots()[k] == index);
                }
                let generation = self.meta[index as usize].generation;
                self.meta.set(
                    index as usize,
                    EntityMeta { generation, alive: true, location: None },
                );
                proof {
                    let fs = final(self).free_slots();
                    let ofs = old(self).free_slots();
                    assert forall|k: int| 0 <= k < fs.len() implies fs[k] != index by {
                        assert(ofs[k] == fs[k]);
                        assert(ofs[ofs.len() - 1] == index);
                    }
                    assert(self.free_slots().no_duplicates());
                }
                Entity { index, generation: generation as u32 }
            },
            None => {
                let index = self.meta.len() as u32;
                self.meta.push(EntityMeta { generation: 0, alive: true, location: None });
                Entity { index, generation: 0 }
            },
        }
    }

    /// Frees the slot of a live handle and bumps its generation, so that the
    /// handle is invalid from now on. A handle that is not valid is left
    /// alone and `false` comes back.
    pub fn free(&mut self, e: Entity) -> (r: bool)
        requires
            old(self).wf(),
        ensures
            final(self).wf(),
            r == old(self).spec_is_valid(e),
            old(self).evolves_to(&*final(self)),
            final(self).metas().len() == old(self).metas().len(),
            final(self).spec_room() >= old(self).spec_room(),
            !r ==> *final(self) == *old(self),
            r ==> final(self).is_stale(e),
            r ==> final(self).metas()[e.index as int] == (EntityMeta {
                generation: (e.generation + 1) as u64,
                alive: false,
                location: None,
            }),
            forall|i: int|
                0 <= i < old(self).metas().len() && i != e.index as int ==> #[trigger] final(self).metas()[i] == old(self).metas()[i],
    {
        if !self.is_valid(e) {
            return false;
        }
        let i = e.index as usize;
        let generation = self.meta[i].generation + 1;
        self.meta.set(i, EntityMeta { generation, alive: false, location: None });
        if generation <= u32::MAX as u64 {
            proof {
                let ofs = old(self).free_slots();
                assert forall|k: int| 0 <= k < ofs.len() implies ofs[k] != e.index by {
                    assert(!old(self).metas()[ofs[k] as int].alive);
                }
            }
            self.free_list.push(e.index);
            proof {
                let fs = final(self).free_slots();
                let ofs = old(self).free_slots();
                assert(fs == ofs.push(e.index));
                assert forall|a: int, b: int|
                    0 <= a < fs.len() && 0 <= b < fs.len() && a != b implies fs[a] != fs[b] by {
                    if a < ofs.len() && b < ofs.len() {
                        assert(fs[a] == ofs[a] && fs[b] == ofs[b]);
                    } else if a < ofs.len() {
                        assert(fs[a] == ofs[a]);
                        assert(!old(self).metas()[ofs[a] as int].alive);
                    } else {
                        assert(fs[b] == ofs[b]);
                        assert(!old(self).metas()[ofs[b] as int].alive);
                    }
                }
            }
        }
        true
    }

    /// Records where the live entity in slot `index` is stored, or that it
    /// has no row for now.
    pub fn set_location(&mut self, index: u32, location: Option<EntityLocation>)
        requires
            old(self).wf(),
            (index as int) < old(self).metas().len(),
            old(self).metas()[index as int].alive,
        ensures
            final(self).wf(),
            final(self).spec_room() == old(self).spec_room(),
            final(self).metas().len() == old(self).metas().len(),
            final(self).metas()[index as int] == (EntityMeta {
                location,
                ..old(self).metas()[index as int]
            }),
            forall|i: int|
                0 <= i < old(self).metas().len() && i != index as int ==> #[trigger] final(self).metas()[i] == old(self).metas()[i],
    {
        let m = self.meta[index as usize];
        self.meta.set(
            index as usize,
            EntityMeta { generation: m.generation, alive: m.alive, location },
        );
        proof {
            assert forall|k: int| 0 <= k < self.free_slots().len() implies #[trigger] self.free_slots()[k]
                != index by {
                assert(!old(self).metas()[old(self).free_slots()[k] as int].alive);
            }
            assert forall|i: int| 0 <= i < self.metas().len() implies #[trigger] Self::slot_ok(
                self.metas()[i],
            ) by {
                assert(Self::slot_ok(old(self).metas()[i]));
            }
        }
    }
}

/// A handle that its slot has moved past stays invalid in every later state:
/// once `free` has bumped the generation of its slot, no recycling of that slot
/// makes the old handle valid again.
pub proof fn lemma_freed_handle_stays_invalid(before: &Entities, after: &Entities, e: Entity)
    requires
        before.is_stale(e),
        before.evolves_to(after),
    ensures
        after.is_stale(e),
        !after.spec_is_valid(e),
{
}

/// Two steps that each keep every slot and never lower a generation compose.
pub proof fn lemma_evolves_trans(a: &Entities, b: &Entities, c: &Entities)
    requires
        a.evolves_to(b),
        b.evolves_to(c),
    ensures
        a.evolves_to(c),
{
    assert forall|i: int| 0 <= i < a.metas().len() implies #[trigger] a.metas()[i].generation
        <= c.metas()[i].generation by {
        assert(a.metas()[i].generation <= b.metas()[i].generation);
        assert(b.metas()[i].generation <= c.metas()[i].generation);
    }
}

} // verus!
