//! Spawning a batch of bundles of one kind into one archetype.
use vstd::prelude::*;
use crate::archetype::{
    copy_ids, row_map, sort_bundle, sort_ids, sorted_ids, strictly_sorted, values_view, ComponentId,
    ComponentValue,
};
use crate::entity::{lemma_evolves_trans, ArchetypeId, Entities, Entity, EntityLocation};
use crate::world::{BundleInfo, ComponentInfo, World};

verus! {

/// The bundles of a batch, as byte sequences.
pub open spec fn bundles_view(bundles: Seq<Vec<ComponentValue>>) -> Seq<Seq<Seq<u8>>> {
    Seq::new(bundles.len(), |i: int| values_view(bundles[i]@))
}

/// Every bundle holds one value per id, and the allocator has room for all
/// of them.
pub open spec fn batch_ok(w: &World, ids: Seq<ComponentId>, bundles: Seq<Seq<Seq<u8>>>) -> bool {
    &&& forall|i: int| 0 <= i < bundles.len() ==> (#[trigger] bundles[i]).len() == ids.len()
    &&& w.allocator().spec_room() >= bundles.len()
}

/// Spawns one entity per bundle, in order, into the archetype of the batch's
/// bundle kind. The iterator holds the world for as long as it lives; `finish`
/// spawns whatever was not taken yet and hands the world back. The bundles
/// are taken as they come: their values are not checked against the sizes
/// registered for their components.
pub struct SpawnBatchIter {
    world: World,
    ids: Vec<ComponentId>,
    archetype: ArchetypeId,
    pending: Vec<Vec<ComponentValue>>,
    spawned: Vec<Entity>,
    input: Ghost<Seq<Seq<Seq<u8>>>>,
    start: Ghost<Map<Entity, Map<ComponentId, Seq<u8>>>>,
    start_alloc: Ghost<Entities>,
}

impl SpawnBatchIter {
    /// The world as it is now.
    pub closed spec fn world_view(&self) -> Map<Entity, Map<ComponentId, Seq<u8>>> {
        self.world.view()
    }

    /// The world held by the iterator, as it is now.
    pub closed spec fn world_state(&self) -> World {
        self.world
    }

    /// The archetype that the batch spawns into.
    pub closed spec fn target(&self) -> ArchetypeId {
        self.archetype
    }

    /// The entity allocator as it was before the first spawn.
    pub closed spec fn start_allocator(&self) -> Entities {
        self.start_alloc@
    }

    /// The component registry of the world.
    pub closed spec fn registry(&self) -> Seq<ComponentInfo> {
        self.world.infos()
    }

    /// The number of archetypes of the world.
    pub closed spec fn archetype_count(&self) -> nat {
        self.world.archs().len()
    }

    /// The world as it was before the first spawn.
    pub closed spec fn start_view(&self) -> Map<Entity, Map<ComponentId, Seq<u8>>> {
        self.start@
    }

    /// All bundles of the batch, in order.
    pub closed spec fn input(&self) -> Seq<Seq<Seq<u8>>> {
        self.input@
    }

    /// The component ids of the batch's bundle kind.
    pub closed spec fn kind(&self) -> Seq<ComponentId> {
        self.ids@
    }

    /// The entities spawned so far, in order.
    pub closed spec fn spawned(&self) -> Seq<Entity> {
        self.spawned@
    }

    /// The bundles not spawned yet, in order.
    pub open spec fn remaining(&self) -> Seq<Seq<Seq<u8>>> {
        self.input().skip(self.spawned().len() as int)
    }

    pub closed spec fn wf(&self) -> bool {
        let w = self.world;
        let n = self.pending@.len();
        &&& w.wf()
        &&& self.archetype < w.archs().len()
        &&& w.archs()[self.archetype as int].ids() == self.ids@
        &&& w.allocator().spec_room() >= n
        &&& self.start_alloc@.evolves_to(&w.allocator())
        &&& w.allocator().spec_room() == self.start_alloc@.spec_room() - self.spawned@.len()
        &&& n + self.spawned@.len() == self.input@.len()
        &&& forall|i: int|
            0 <= i < n ==> values_view(#[trigger] self.pending@[i]@) == self.input@[self.input@.len() - 1 - i]
        &&& forall|i: int| 0 <= i < self.input@.len() ==> (#[trigger] self.input@[i]).len() == self.ids@.len()
        &&& self.spawned@.no_duplicates()
        &&& forall|i: int|
            0 <= i < self.spawned@.len() ==> {
                &&& !self.start@.contains_key(#[trigger] self.spawned@[i])
                &&& w.view().contains_key(self.spawned@[i])
                &&& w.view()[self.spawned@[i]] == row_map(self.ids@, self.input@[i])
            }
        &&& forall|f: Entity|
            #[trigger] w.view().contains_key(f) <==> (self.start@.contains_key(f) || self.spawned@.contains(f))
        &&& forall|f: Entity|
            #[trigger] self.start@.contains_key(f) ==> w.view()[f] == self.start@[f]
    }

    /// Starts a batch of `bundles` of the kind `info`, resolved beforehand.
    /// Room for the whole batch is reserved up front.
    pub fn new(world: World, info: &BundleInfo, bundles: Vec<Vec<ComponentValue>>) -> (r: SpawnBatchIter)
        requires
            world.wf(),
            info.wf_for(&world),
            batch_ok(&world, info.ids@, bundles_view(bundles@)),
        ensures
            r.wf(),
            r.start_view() == world.view(),
            r.world_view() == world.view(),
            r.input() == bundles_view(bundles@),
            r.kind() == info.ids@,
            r.spawned().len() == 0,
            r.registry() == world.infos(),
            r.archetype_count() == world.archs().len(),
            r.start_allocator() == world.allocator(),
            r.target() == info.archetype,
            r.world_state().archs()[r.target() as int].ids() == r.kind(),
    {
        let mut world = world;
        let ghost alloc0 = world.allocator();
        let n = bundles.len();
        world.reserve_for(info.archetype, n);
        let ghost input = bundles_view(bundles@);
        let mut bundles = bundles;
        let mut pending: Vec<Vec<ComponentValue>> = Vec::new();
        while bundles.len() > 0
            invariant
                bundles@.len() + pending@.len() == n,
                n == input.len(),
                forall|i: int| 0 <= i < bundles@.len() ==> values_view(#[trigger] bundles@[i]@) == input[i],
                forall|i: int|
                    0 <= i < pending@.len() ==> values_view(#[trigger] pending@[i]@) == input[n - 1 - i],
            decreases bundles@.len(),
        {
            let b = bundles.pop().unwrap();
            pending.push(b);
        }
        let ids = copy_ids(&info.ids);
        let r = SpawnBatchIter {
            world,
            ids,
            archetype: info.archetype,
            pending,
            spawned: Vec::new(),
            input: Ghost(input),
            start: Ghost(world.view()),
            start_alloc: Ghost(alloc0),
        };
        proof {
            assert(alloc0.evolves_to(&r.world.allocator()));
            assert forall|f: Entity| #[trigger] r.world.view().contains_key(f) <==> (
            r.start@.contains_key(f) || r.spawned@.contains(f)) by {}
        }
        r
    }

    /// Starts a batch of `bundles` whose components are `component_ids`, in
    /// any order and without repeats, each value of the size registered for
    /// its component. The ids are sorted, the values of every bundle put in
    /// the same order, and the archetype of the ids resolved first.
    pub fn new_dynamic(
        world: World,
        component_ids: &Vec<ComponentId>,
        bundles: Vec<Vec<ComponentValue>>,
    ) -> (r: SpawnBatchIter)
        requires
            world.wf(),
            component_ids@.no_duplicates(),
            forall|k: int| 0 <= k < component_ids@.len() ==> #[trigger] component_ids@[k] < world.infos().len(),
            batch_ok(&world, component_ids@, bundles_view(bundles@)),
            forall|i: int, k: int|
                0 <= i < bundles@.len() && 0 <= k < component_ids@.len() ==> (#[trigger] bundles@[i]@[k])@.len()
                    == world.infos()[component_ids@[k] as int].size,
            world.archs().len() + 1 < usize::MAX,
        ensures
            r.wf(),
            r.start_view() == world.view(),
            r.world_view() == world.view(),
            r.kind() == sorted_ids(component_ids@),
            strictly_sorted(r.kind()),
            forall|c: ComponentId| r.kind().contains(c) <==> component_ids@.contains(c),
            r.input().len() == bundles@.len(),
            forall|i: int|
                0 <= i < bundles@.len() ==> row_map(r.kind(), #[trigger] r.input()[i]) == row_map(
                    component_ids@,
                    bundles_view(bundles@)[i],
                ),
            r.spawned().len() == 0,
            r.registry() == world.infos(),
            r.archetype_count() <= world.archs().len() + 1,
            r.start_allocator() == world.allocator(),
            r.world_state().archs()[r.target() as int].ids() == r.kind(),
    {
        let mut world = world;
        let kind = sort_ids(component_ids);
        let mut sorted: Vec<Vec<ComponentValue>> = Vec::new();
        let mut i: usize = 0;
        proof {
            assert forall|j: int| 0 <= j < bundles@.len() implies (#[trigger] bundles@[j])@.len()
                == component_ids@.len() by {
                assert(bundles_view(bundles@)[j].len() == component_ids@.len());
            }
        }
        while i < bundles.len()
            invariant
                i <= bundles@.len(),
                component_ids@.no_duplicates(),
                kind@ == sorted_ids(component_ids@),
                kind@.len() == component_ids@.len(),
                forall|j: int| 0 <= j < bundles@.len() ==> (#[trigger] bundles@[j])@.len() == component_ids@.len(),
                sorted@.len() == i,
                forall|j: int|
                    0 <= j < i ==> (#[trigger] sorted@[j])@.len() == kind@.len() && row_map(
                        kind@,
                        values_view(sorted@[j]@),
                    ) == row_map(component_ids@, values_view(bundles@[j]@)),
            decreases bundles@.len() - i,
        {
            let (_ids, vals) = sort_bundle(component_ids, &bundles[i]);
            sorted.push(vals);
            proof {
                assert(sorted@[i as int] == vals);
            }
            i += 1;
        }
        proof {
            assert forall|k: int| 0 <= k < kind@.len() implies #[trigger] kind@[k] < world.infos().len() by {
                assert(kind@.contains(kind@[k]));
                let q = choose|q: int| 0 <= q < component_ids@.len() && component_ids@[q] == kind@[k];
            }
            assert(world.ids_error(kind@) is None);
        }
        let ghost kind_v = kind@;
        let info = match world.init_bundle(kind) {
            Ok(info) => info,
            Err(_) => unreached(),
        };
        proof {
            assert forall|j: int| 0 <= j < bundles_view(sorted@).len() implies (#[trigger] bundles_view(
                sorted@,
            )[j]).len() == info.ids@.len() by {
                assert(sorted@[j]@.len() == kind_v.len());
            }
        }
        let r = SpawnBatchIter::new(world, &info, sorted);
        proof {
            assert forall|j: int| 0 <= j < bundles@.len() implies row_map(r.kind(), #[trigger] r.input()[j]) == row_map(
                component_ids@,
                bundles_view(bundles@)[j],
            ) by {
                assert(r.input()[j] == values_view(sorted@[j]@));
                assert(bundles_view(bundles@)[j] == values_view(bundles@[j]@));
            }
        }
        r
    }

    /// Spawns the next bundle and returns its entity, or `None` when the
    /// batch is exhausted.
    pub fn next(&mut self) -> (r: Option<Entity>)
        requires
            old(self).wf(),
        ensures
            final(self).wf(),
            final(self).start_view() == old(self).start_view(),
            final(self).input() == old(self).input(),
            final(self).kind() == old(self).kind(),
            final(self).registry() == old(self).registry(),
            final(self).archetype_count() == old(self).archetype_count(),
            final(self).start_allocator() == old(self).start_allocator(),
            final(self).target() == old(self).target(),
            final(self).world_state().archs()[final(self).target() as int].ids() == final(self).kind(),
            old(self).remaining().len() == 0 ==> final(self).world_state() == old(self).world_state(),
            old(self).remaining().len() == 0 ==> r is None && final(self).spawned() == old(self).spawned()
                && final(self).world_view() == old(self).world_view(),
            old(self).remaining().len() > 0 ==> match r {
                Some(e) => {
                    &&& final(self).spawned() == old(self).spawned().push(e)
                    &&& !old(self).world_view().contains_key(e)
                    &&& final(self).world_view() == old(self).world_view().insert(
                        e,
                        row_map(old(self).kind(), old(self).remaining()[0]),
                    )
                    &&& final(self).world_state().archetype_rows(old(self).target() as int)
                        == old(self).world_state().archetype_rows(old(self).target() as int).push(e)
                    &&& final(self).world_state().location_of(e) == (EntityLocation {
                        archetype_id: old(self).target(),
                        row: old(self).world_state().archetype_rows(old(self).target() as int).len() as usize,
                    })
                    &&& forall|b: int|
                        0 <= b < old(self).world_state().archs().len() && b != old(self).target() ==> #[trigger] final(self).world_state().archs()[b] == old(self).world_state().archs()[b]
                    &&& forall|f: Entity|
                        #[trigger] old(self).world_view().contains_key(f) ==> final(self).world_state().location_of(f)
                            == old(self).world_state().location_of(f)
                    &&& old(self).world_state().allocator().evolves_to(&final(self).world_state().allocator())
                },
                None => false,
            },
    {
        let values = match self.pending.pop() {
            None => {
                return None;
            },
            Some(values) => values,
        };
        let ghost w0 = self.world;
        let ghost k = self.spawned@.len();
        proof {
            let n = old(self).pending@.len();
            assert(values_view(values@) == self.input@[k as int]);
            assert(self.input@[k as int].len() == self.ids@.len());
            assert(values_view(values@).len() == values@.len());
        }
        let e = self.world.spawn_in(self.archetype, values);
        self.spawned.push(e);
        proof {
            let w = self.world;
            lemma_evolves_trans(&self.start_alloc@, &w0.allocator(), &w.allocator());
            assert(old(self).remaining()[0] == self.input@[k as int]);
            assert forall|i: int| 0 <= i < self.spawned@.len() implies {
                &&& !self.start@.contains_key(#[trigger] self.spawned@[i])
                &&& w.view().contains_key(self.spawned@[i])
                &&& w.view()[self.spawned@[i]] == row_map(self.ids@, self.input@[i])
            } by {
                if i < k {
                    assert(old(self).spawned@[i] == self.spawned@[i]);
                    assert(w0.view().contains_key(self.spawned@[i]));
                } else {
                    assert(self.spawned@[i] == e);
                }
            }
            assert forall|f: Entity| #[trigger] w.view().contains_key(f) <==> (self.start@.contains_key(f)
                || self.spawned@.contains(f)) by {
                if f != e {
                    if old(self).spawned@.contains(f) {
                        let j = choose|j: int| 0 <= j < k && old(self).spawned@[j] == f;
                        assert(self.spawned@[j] == f);
                    }
                    if self.spawned@.contains(f) {
                        let j = choose|j: int| 0 <= j < self.spawned@.len() && self.spawned@[j] == f;
                        assert(old(self).spawned@[j] == f);
                    }
                } else {
                    assert(self.spawned@[k as int] == e);
                }
            }
            assert forall|a: int, b: int|
                0 <= a < self.spawned@.len() && 0 <= b < self.spawned@.len() && a != b implies self.spawned@[a]
                != self.spawned@[b] by {
                if a < k && b < k {
                    assert(old(self).spawned@[a] == self.spawned@[a]);
                    assert(old(self).spawned@[b] == self.spawned@[b]);
                } else if a < k {
                    assert(w0.view().contains_key(self.spawned@[a]));
                } else {
                    assert(w0.view().contains_key(self.spawned@[b]));
                }
            }
        }
        Some(e)
    }

    /// The number of bundles not spawned yet.
    pub fn len(&self) -> (r: usize)
        requires
            self.wf(),
        ensures
            r as int == self.remaining().len(),
    {
        self.pending.len()
    }

    /// Both bounds are the number of bundles not spawned yet.
    pub fn size_hint(&self) -> (r: (usize, Option<usize>))
        requires
            self.wf(),
        ensures
            r.0 as int == self.remaining().len(),
            r.1 == Some(r.0),
    {
        let n = self.pending.len();
        (n, Some(n))
    }

    /// Ends the batch: spawns every bundle not taken yet, then hands back the
    /// world and all entities of the batch, in input order.
    pub fn finish(self) -> (r: (World, Vec<Entity>))
        requires
            self.wf(),
        ensures
            r.0.wf(),
            r.0.infos() == self.registry(),
            r.0.archs().len() == self.archetype_count(),
            self.start_allocator().evolves_to(&r.0.allocator()),
            r.0.allocator().spec_room() == self.start_allocator().spec_room() - self.input().len(),
            r.1@.len() == self.input().len(),
            r.1@.no_duplicates(),
            r.1@.subrange(0, self.spawned().len() as int) == self.spawned(),
            forall|i: int|
                0 <= i < r.1@.len() ==> {
                    &&& !self.start_view().contains_key(#[trigger] r.1@[i])
                    &&& r.0.view().contains_key(r.1@[i])
                    &&& r.0.view()[r.1@[i]] == row_map(self.kind(), self.input()[i])
                },
            forall|f: Entity|
                #[trigger] r.0.view().contains_key(f) <==> (self.start_view().contains_key(f)
                    || r.1@.contains(f)),
            forall|f: Entity| #[trigger] self.start_view().contains_key(f) ==> r.0.view()[f] == self.start_view()[f],
    {
        let mut it = self;
        while it.pending.len() > 0
            invariant
                it.wf(),
                it.start_view() == self.start_view(),
                it.input() == self.input(),
                it.kind() == self.kind(),
                it.registry() == self.registry(),
                it.archetype_count() == self.archetype_count(),
                it.start_allocator() == self.start_allocator(),
                it.spawned().subrange(0, self.spawned().len() as int) == self.spawned(),
                self.spawned().len() <= it.spawned().len(),
            decreases it.pending@.len(),
        {
            let ghost before = it.spawned();
            let _ = it.next();
            proof {
                assert(it.spawned().subrange(0, self.spawned().len() as int) =~= before.subrange(
                    0,
                    self.spawned().len() as int,
                ));
            }
        }
        (it.world, it.spawned)
    }
}

} // verus!
