//! Type-erased access to the components of one type, for code that knows the
//! type only at run time.
use vstd::prelude::*;
use crate::archetype::{swap_removed, lemma_col_of, row_map, strictly_sorted, ComponentId, ComponentValue};
use crate::entity::Entity;
use crate::world::{EcsError, World};

verus! {

/// What a façade needs to reach the components of its type: the stable type
/// key under which the type is registered in a world.
#[derive(Clone, Copy, Debug, PartialEq, Eq, Structural)]
pub struct ReflectComponentFns {
    pub type_key: u64,
}

impl ReflectComponentFns {
    /// The façade functions for the type registered under `type_key`.
    pub fn new(type_key: u64) -> (r: ReflectComponentFns)
        ensures
            r.type_key == type_key,
    {
        ReflectComponentFns { type_key }
    }
}

/// The component id that `type_key` has in `w`, if it is registered there.
pub open spec fn resolve(w: &World, type_key: u64) -> Option<ComponentId> {
    if exists|j: int| 0 <= j < w.infos().len() && w.infos()[j].type_key == type_key {
        Some((choose|j: int| 0 <= j < w.infos().len() && w.infos()[j].type_key == type_key) as ComponentId)
    } else {
        None
    }
}

/// Each registered type key resolves to the one id registered under it.
pub proof fn lemma_resolve_is(w: &World, t: ComponentId)
    requires
        w.base_ok(),
        t < w.infos().len(),
    ensures
        resolve(w, w.infos()[t as int].type_key) == Some(t),
{
    let key = w.infos()[t as int].type_key;
    let j = choose|j: int| 0 <= j < w.infos().len() && w.infos()[j].type_key == key;
    if j != t as int {
        assert(w.infos()[j].type_key != w.infos()[t as int].type_key);
    }
}

/// Operates on the components of one type of a world through its type key.
#[derive(Clone, Copy, Debug)]
pub struct ReflectComponent(pub ReflectComponentFns);

impl ReflectComponent {
    /// The id of this façade's type in `w`, if registered.
    pub open spec fn id_in(&self, w: &World) -> Option<ComponentId> {
        resolve(w, self.0.type_key)
    }

    /// What `reflect` returns: the value of this type on `e`, where `e` is
    /// live and has one.
    pub open spec fn reflect_spec(&self, w: &World, e: Entity) -> Option<Seq<u8>> {
        match self.id_in(w) {
            Some(c) => if w.view().contains_key(e) && w.view()[e].contains_key(c) {
                Some(w.view()[e][c])
            } else {
                None
            },
            None => None,
        }
    }

    pub fn new(fns: ReflectComponentFns) -> (r: ReflectComponent)
        ensures
            r.0 == fns,
    {
        ReflectComponent(fns)
    }

    /// The functions this façade is made of.
    pub fn fn_pointers(&self) -> (r: &ReflectComponentFns)
        ensures
            *r == self.0,
    {
        &self.0
    }

    /// Resolves this façade's type to its component id in `world`.
    pub fn component_id(&self, world: &World) -> (r: Option<ComponentId>)
        requires
            world.wf(),
        ensures
            r == self.id_in(world),
    {
        let r = world.component_id(self.0.type_key);
        proof {
            match r {
                Some(c) => {
                    let j = choose|j: int|
                        0 <= j < world.infos().len() && world.infos()[j].type_key == self.0.type_key;
                    assert(world.base_ok());
                    assert(j == c as int);
                },
                None => {},
            }
        }
        r
    }

    /// The value of this type on `entity`; nothing where the entity is not
    /// live, lacks the component, or the type is not registered.
    pub fn reflect<'a>(&self, world: &'a World, entity: Entity) -> (r: Option<&'a ComponentValue>)
        requires
            world.wf(),
        ensures
            match r {
                Some(v) => self.reflect_spec(world, entity) == Some(v@),
                None => self.reflect_spec(world, entity) is None,
            },
    {
        match self.component_id(world) {
            None => None,
            Some(c) => world.get(entity, c),
        }
    }

    /// The component of this type on `entity`, to be written in place; nothing
    /// where the entity is not live, lacks it, or the type is not registered.
    /// Once the borrow ends, `World::lemma_cell_written` gives the world's
    /// consistency and its new contents.
    pub fn reflect_mut<'a>(&self, world: &'a mut World, entity: Entity) -> (r: Option<&'a mut ComponentValue>)
        requires
            old(world).wf(),
        ensures
            match r {
                Some(v) => {
                    &&& self.reflect_spec(&*old(world), entity) == Some(v@)
                    &&& final(world).cell_written(&*old(world), entity, self.id_in(&*old(world)).unwrap(), final(v)@)
                },
                None => self.reflect_spec(&*old(world), entity) is None && *final(world) == *old(world),
            },
    {
        match self.component_id(world) {
            None => None,
            Some(c) => world.get_mut(entity, c),
        }
    }

    /// Overwrites the component of this type on `entity` with `value`.
    pub fn apply(&self, world: &mut World, entity: Entity, value: ComponentValue)
        requires
            old(world).wf(),
            self.reflect_spec(&*old(world), entity) is Some,
            value@.len() == old(world).infos()[self.id_in(&*old(world)).unwrap() as int].size,
        ensures
            final(world).wf(),
            final(world).infos() == old(world).infos(),
            final(world).allocator() == old(world).allocator(),
            final(world).archs().len() == old(world).archs().len(),
            final(world).view() == old(world).view().insert(
                entity,
                old(world).view()[entity].insert(self.id_in(&*old(world)).unwrap(), value@),
            ),
    {
        let ghost w0 = *world;
        let ghost v_view = value@;
        let slot = self.reflect_mut(world, entity).unwrap();
        *slot = value;
        proof {
            World::lemma_cell_written(&w0, &*world, entity, self.id_in(&w0).unwrap(), v_view);
        }
    }

    /// Sets the component of this type on `entity` to `value`, adding it
    /// where the entity does not have it yet.
    pub fn apply_or_insert(&self, world: &mut World, entity: Entity, value: ComponentValue) -> (r: Result<(), EcsError>)
        requires
            old(world).wf(),
            old(world).archs().len() + 1 < usize::MAX,
        ensures
            final(world).wf(),
            final(world).infos() == old(world).infos(),
            old(world).allocator().evolves_to(&final(world).allocator()),
            final(world).archs().len() <= old(world).archs().len() + 1,
            r == self.insert_result(&*old(world), entity, value@),
            r is Ok ==> final(world).view() == old(world).view().insert(
                entity,
                old(world).view()[entity].insert(self.id_in(&*old(world)).unwrap(), value@),
            ),
            r is Err ==> *final(world) == *old(world),
            r is Ok && old(world).view()[entity].contains_key(self.id_in(&*old(world)).unwrap()) ==> {
                &&& final(world).allocator() == old(world).allocator()
                &&& final(world).archs().len() == old(world).archs().len()
                &&& forall|b: int|
                    0 <= b < old(world).archs().len() ==> #[trigger] final(world).archetype_rows(b)
                        == old(world).archetype_rows(b)
            },
            r is Ok && !old(world).view()[entity].contains_key(self.id_in(&*old(world)).unwrap()) ==> ({
                let l = old(world).location_of(entity);
                final(world).archetype_rows(l.archetype_id as int) == swap_removed(
                    old(world).archetype_rows(l.archetype_id as int),
                    l.row as int,
                )
            }),
    {
        self.insert(world, entity, value)
    }

    /// What `insert` returns.
    pub open spec fn insert_result(&self, w: &World, e: Entity, v: Seq<u8>) -> Result<(), EcsError> {
        if !w.view().contains_key(e) {
            Err(EcsError::NoSuchEntity)
        } else if self.id_in(w) is None {
            Err(EcsError::UnknownComponent)
        } else if v.len() != w.infos()[self.id_in(w).unwrap() as int].size {
            Err(EcsError::LayoutMismatch)
        } else {
            Ok(())
        }
    }

    /// Adds the component of this type with `value` to `entity`, moving it to
    /// the matching archetype, or overwrites it where present.
    pub fn insert(&self, world: &mut World, entity: Entity, value: ComponentValue) -> (r: Result<(), EcsError>)
        requires
            old(world).wf(),
            old(world).archs().len() + 1 < usize::MAX,
        ensures
            final(world).wf(),
            final(world).infos() == old(world).infos(),
            old(world).allocator().evolves_to(&final(world).allocator()),
            final(world).archs().len() <= old(world).archs().len() + 1,
            r == self.insert_result(&*old(world), entity, value@),
            r is Ok ==> final(world).view() == old(world).view().insert(
                entity,
                old(world).view()[entity].insert(self.id_in(&*old(world)).unwrap(), value@),
            ),
            r is Err ==> *final(world) == *old(world),
            r is Ok && old(world).view()[entity].contains_key(self.id_in(&*old(world)).unwrap()) ==> {
                &&& final(world).allocator() == old(world).allocator()
                &&& final(world).archs().len() == old(world).archs().len()
                &&& forall|b: int|
                    0 <= b < old(world).archs().len() ==> #[trigger] final(world).archetype_rows(b)
                        == old(world).archetype_rows(b)
            },
            r is Ok && !old(world).view()[entity].contains_key(self.id_in(&*old(world)).unwrap()) ==> ({
                let l = old(world).location_of(entity);
                final(world).archetype_rows(l.archetype_id as int) == swap_removed(
                    old(world).archetype_rows(l.archetype_id as int),
                    l.row as int,
                )
            }),
    {
        if !world.contains(entity) {
            proof {
                assert(old(world).allocator().evolves_to(&old(world).allocator()));
            }
            return Err(EcsError::NoSuchEntity);
        }
        match self.component_id(world) {
            None => {
                proof {
                    assert(old(world).allocator().evolves_to(&old(world).allocator()));
                }
                Err(EcsError::UnknownComponent)
            },
            Some(c) => world.insert(entity, c, value),
        }
    }

    /// Takes the component of this type off `entity`, moving it to the
    /// matching archetype, and returns its value; nothing where it has none.
    pub fn remove(&self, world: &mut World, entity: Entity) -> (r: Option<ComponentValue>)
        requires
            old(world).wf(),
            old(world).archs().len() + 1 < usize::MAX,
        ensures
            final(world).wf(),
            final(world).infos() == old(world).infos(),
            old(world).allocator().evolves_to(&final(world).allocator()),
            final(world).archs().len() <= old(world).archs().len() + 1,
            match self.reflect_spec(&*old(world), entity) {
                Some(v) => r is Some && r.unwrap()@ == v && final(world).view() == old(world).view().insert(
                    entity,
                    old(world).view()[entity].remove(self.id_in(&*old(world)).unwrap()),
                ),
                None => r is None && *final(world) == *old(world),
            },
            r is Some ==> ({
                let l = old(world).location_of(entity);
                final(world).archetype_rows(l.archetype_id as int) == swap_removed(
                    old(world).archetype_rows(l.archetype_id as int),
                    l.row as int,
                )
            }),
    {
        match self.component_id(world) {
            None => {
                proof {
                    assert(old(world).allocator().evolves_to(&old(world).allocator()));
                }
                None
            },
            Some(c) => world.remove(entity, c),
        }
    }
}

/// A façade reads back what was spawned: if `e` was spawned with the sorted
/// ids `ids` and the values `vals`, and the façade's type has id `ids[k]`,
/// then `reflect` gives `vals[k]`; for a live entity without that component
/// it gives nothing.
pub proof fn lemma_reflect_round_trip(
    rc: ReflectComponent,
    w0: &World,
    w1: &World,
    e: Entity,
    ids: Seq<ComponentId>,
    vals: Seq<Seq<u8>>,
    k: int,
)
    requires
        strictly_sorted(ids),
        ids.len() == vals.len(),
        0 <= k < ids.len(),
        rc.id_in(w1) == Some(ids[k]),
        w1.view() == w0.view().insert(e, row_map(ids, vals)),
    ensures
        rc.reflect_spec(w1, e) == Some(vals[k]),
        forall|f: Entity|
            #[trigger] w1.view().contains_key(f) && !w1.view()[f].contains_key(ids[k]) ==> rc.reflect_spec(w1, f)
                is None,
{
    lemma_col_of(ids, k);
    assert(ids.contains(ids[k]));
}

} // verus!
