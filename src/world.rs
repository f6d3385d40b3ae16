//! The world: the entity allocator, the component registry and the archetype
//! tables, kept consistent through the location table.
use vstd::prelude::*;
use crate::archetype::{
    col_of, copy_ids, insertion_point, lemma_col_of, lemma_row_map_insert, lemma_row_map_remove, lemma_row_map_update,
    lemma_sorted_remove, row_map, strictly_sorted, swap_removed, values_view, Archetype,
    ComponentId, ComponentValue,
};
use crate::entity::{lemma_evolves_trans, ArchetypeId, Entities, Entity, EntityLocation};

verus! {

/// Two steps that never lower a generation compose into one.
proof fn lemma_world_evolves_trans(w0: &World, w1: &World, w2: &World)
    requires
        w0.allocator().evolves_to(&w1.allocator()),
        w1.allocator().evolves_to(&w2.allocator()),
    ensures
        w0.allocator().evolves_to(&w2.allocator()),
{
    lemma_evolves_trans(&w0.allocator(), &w1.allocator(), &w2.allocator());
}

/// Whether two lists of ids are equal.
fn same_ids(a: &Vec<ComponentId>, b: &Vec<ComponentId>) -> (r: bool)
    ensures
        r == (a@ == b@),
{
    if a.len() != b.len() {
        return false;
    }
    let mut k: usize = 0;
    while k < a.len()
        invariant
            a@.len() == b@.len(),
            k <= a@.len(),
            forall|i: int| 0 <= i < k ==> a@[i] == b@[i],
        decreases a@.len() - k,
    {
        if a[k] != b[k] {
            return false;
        }
        k += 1;
    }
    assert(a@ =~= b@);
    true
}

/// What the registry knows of one component type.
pub struct ComponentInfo {
    /// A readable name of the type.
    pub name: String,
    /// The stable identity of the type, unique within a world.
    pub type_key: u64,
    /// The number of bytes of one value.
    pub size: usize,
}

/// Why an operation on a world was refused.
#[derive(Clone, Copy, Debug, PartialEq, Eq, Structural)]
pub enum EcsError {
    /// The handle does not name a live entity.
    NoSuchEntity,
    /// A component id that the registry never issued.
    UnknownComponent,
    /// Component ids that are not strictly increasing.
    UnsortedComponents,
    /// A value whose length is not the size registered for its component.
    LayoutMismatch,
    /// A bundle whose number of values differs from its number of ids.
    BundleShape,
}

/// A bundle kind resolved against a world: its sorted component ids and the
/// archetype that holds entities with exactly those components.
pub struct BundleInfo {
    pub ids: Vec<ComponentId>,
    pub archetype: ArchetypeId,
}

impl BundleInfo {
    /// The archetype of this bundle kind exists in `w` with exactly these ids.
    pub open spec fn wf_for(&self, w: &World) -> bool {
        &&& self.archetype < w.archs().len()
        &&& w.archs()[self.archetype as int].ids() == self.ids@
    }
}

/// All entities and their components.
pub struct World {
    entities: Entities,
    archetypes: Vec<Archetype>,
    components: Vec<ComponentInfo>,
}

impl World {
    pub closed spec fn allocator(&self) -> Entities {
        self.entities
    }

    pub closed spec fn archs(&self) -> Seq<Archetype> {
        self.archetypes@
    }

    pub closed spec fn infos(&self) -> Seq<ComponentInfo> {
        self.components@
    }

    /// The recorded location of the entity in slot `i`.
    pub open spec fn slot_location(&self, i: int) -> EntityLocation {
        self.allocator().metas()[i].location.unwrap()
    }

    /// The recorded location of `e`.
    pub open spec fn location_of(&self, e: Entity) -> EntityLocation {
        self.slot_location(e.index as int)
    }

    /// The entities of archetype `a`, by row.
    pub open spec fn archetype_rows(&self, a: int) -> Seq<Entity> {
        self.archs()[a].entity_rows()
    }

    /// The components of the row that `e`'s location points at.
    pub open spec fn components_of(&self, e: Entity) -> Map<ComponentId, Seq<u8>> {
        let l = self.location_of(e);
        self.archs()[l.archetype_id as int].row_view(l.row as int)
    }

    /// Every live entity with its components.
    pub open spec fn view(&self) -> Map<Entity, Map<ComponentId, Seq<u8>>> {
        Map::new(|e: Entity| self.allocator().spec_is_valid(e), |e: Entity| self.components_of(e))
    }

    /// The handle of the current occupant of slot `i`.
    pub open spec fn handle_of(&self, i: int) -> Entity {
        Entity { index: i as u32, generation: self.allocator().metas()[i].generation as u32 }
    }

    /// The live slot `i` has a location, and that row is owned by its handle.
    pub open spec fn slot_placed(&self, i: int) -> bool {
        let m = self.allocator().metas()[i];
        let l = m.location.unwrap();
        &&& m.location.is_some()
        &&& l.archetype_id < self.archs().len()
        &&& l.row < self.archs()[l.archetype_id as int].entity_rows().len()
        &&& self.archs()[l.archetype_id as int].entity_rows()[l.row as int] == self.handle_of(i)
    }

    /// Row `r` of archetype `a` is owned by a live entity whose location is that row.
    pub open spec fn row_owned(&self, a: int, r: int) -> bool {
        let e = self.archs()[a].entity_rows()[r];
        let ms = self.allocator().metas();
        &&& (e.index as int) < ms.len()
        &&& ms[e.index as int].alive
        &&& ms[e.index as int].generation == e.generation as u64
        &&& ms[e.index as int].location == Some(
            EntityLocation { archetype_id: a as usize, row: r as usize },
        )
    }

    pub open spec fn base_ok(&self) -> bool {
        &&& self.allocator().wf()
        &&& self.archs().len() < usize::MAX
        &&& forall|a: int|
            0 <= a < self.archs().len() ==> {
                &&& (#[trigger] self.archs()[a]).wf()
                &&& forall|k: int|
                    0 <= k < self.archs()[a].ids().len() ==> #[trigger] self.archs()[a].ids()[k]
                        < self.infos().len()
            }
        &&& forall|a: int, b: int|
            0 <= a < self.archs().len() && 0 <= b < self.archs().len() && a != b ==> (
            #[trigger] self.archs()[a]).ids() != (#[trigger] self.archs()[b]).ids()
        &&& forall|j: int, k: int|
            0 <= j < self.infos().len() && 0 <= k < self.infos().len() && j != k ==> (
            #[trigger] self.infos()[j]).type_key != (#[trigger] self.infos()[k]).type_key
    }

    /// The world is consistent, except that the live slot `d` (if `d` is a
    /// slot) has no row yet.
    pub open spec fn inv(&self, d: int) -> bool {
        let ms = self.allocator().metas();
        &&& self.base_ok()
        &&& forall|i: int|
            0 <= i < ms.len() && i != d && (#[trigger] ms[i]).alive ==> self.slot_placed(i)
        &&& forall|a: int, r: int|
            0 <= a < self.archs().len() && 0 <= r < self.archs()[a].entity_rows().len()
                ==> #[trigger] self.row_owned(a, r)
        &&& d >= 0 ==> d < ms.len() && ms[d].alive && ms[d].location.is_none()
    }

    /// The world is consistent: every live entity's location points at a row
    /// that it owns, and every row is owned by the live entity located there.
    pub open spec fn wf(&self) -> bool {
        self.inv(-1)
    }

    pub fn new() -> (w: World)
        ensures
            w.wf(),
            w.view() == Map::<Entity, Map<ComponentId, Seq<u8>>>::empty(),
            w.infos().len() == 0,
            w.archs().len() == 0,
            w.allocator().spec_room() == u32::MAX as int,
    {
        let w = World { entities: Entities::new(), archetypes: Vec::new(), components: Vec::new() };
        assert(w.view() =~= Map::<Entity, Map<ComponentId, Seq<u8>>>::empty());
        w
    }

    /// Takes the row of the live entity `e` out of its archetype. The last
    /// row of that archetype moves into the vacated place and the location of
    /// its entity follows it; `e` is left without a row.
    fn take_row(&mut self, e: Entity) -> (row: Vec<ComponentValue>)
        requires
            old(self).wf(),
            old(self).allocator().spec_is_valid(e),
        ensures
            final(self).inv(e.index as int),
            final(self).infos() == old(self).infos(),
            final(self).archs().len() == old(self).archs().len(),
            final(self).allocator().spec_room() == old(self).allocator().spec_room(),
            final(self).allocator().metas().len() == old(self).allocator().metas().len(),
            forall|i: int|
                0 <= i < old(self).allocator().metas().len() ==> (#[trigger] final(self).allocator().metas()[i]).generation
                    == old(self).allocator().metas()[i].generation && final(self).allocator().metas()[i].alive
                    == old(self).allocator().metas()[i].alive,
            ({
                let l = old(self).location_of(e);
                let a = l.archetype_id as int;
                &&& values_view(row@) == old(self).archs()[a].row_values(l.row as int)
                &&& final(self).archs()[a].ids() == old(self).archs()[a].ids()
                &&& final(self).archetype_rows(a) == swap_removed(old(self).archetype_rows(a), l.row as int)
                &&& forall|b: int|
                    0 <= b < old(self).archs().len() && b != a ==> #[trigger] final(self).archs()[b]
                        == old(self).archs()[b]
            }),
            forall|f: Entity|
                old(self).allocator().spec_is_valid(f) && f != e ==> #[trigger] final(self).components_of(f)
                    == old(self).components_of(f),
            forall|f: Entity| #[trigger] final(self).allocator().spec_is_valid(f) == old(self).allocator().spec_is_valid(f),
    {
        let loc = self.entities.get(e).unwrap();
        let a = loc.archetype_id;
        let r = loc.row;
        let ghost ms0 = self.entities.metas();
        let ghost last = (old(self).archs()[a as int].entity_rows().len() - 1) as int;
        let ghost moved = old(self).archs()[a as int].entity_rows()[last];
        proof {
            assert(old(self).slot_placed(e.index as int));
            assert(old(self).handle_of(e.index as int) == e);
            assert(old(self).row_owned(a as int, last));
        }
        let row = self.archetypes[a].swap_remove_row(r);
        if r < self.archetypes[a].len() {
            let m = self.archetypes[a].entities()[r];
            assert(m == moved);
            assert(m.index != e.index);
            self.entities.set_location(m.index, Some(EntityLocation { archetype_id: a, row: r }));
        }
        self.entities.set_location(e.index, None);
        proof {
            let w0 = old(self);
            let ms = self.allocator().metas();
            assert forall|i: int| 0 <= i < ms.len() implies (#[trigger] ms[i]).generation
                == ms0[i].generation && ms[i].alive == ms0[i].alive by {}
            assert forall|f: Entity| #[trigger] self.allocator().spec_is_valid(f)
                == w0.allocator().spec_is_valid(f) by {
                if (f.index as int) < ms.len() {
                    assert(ms[f.index as int].generation == ms0[f.index as int].generation);
                }
            }
            assert forall|b: int| 0 <= b < self.archs().len() implies (#[trigger] self.archs()[b]).wf()
                && (forall|k: int| 0 <= k < self.archs()[b].ids().len() ==> #[trigger] self.archs()[b].ids()[k]
                    < self.infos().len()) by {
                assert(w0.archs()[b].wf());
            }
            assert forall|b1: int, b2: int|
                0 <= b1 < self.archs().len() && 0 <= b2 < self.archs().len() && b1 != b2 implies (
                #[trigger] self.archs()[b1]).ids() != (#[trigger] self.archs()[b2]).ids() by {
                assert(w0.archs()[b1].ids() != w0.archs()[b2].ids());
            }
            // every live slot but `e` still points at a row it owns
            assert forall|i: int|
                0 <= i < ms.len() && i != e.index as int && (#[trigger] ms[i]).alive implies self.slot_placed(
                i,
            ) by {
                assert(w0.slot_placed(i));
                let l = w0.slot_location(i);
                if i == moved.index as int && r < last {
                    assert(w0.row_owned(a as int, last));
                } else {
                    assert(ms[i] == ms0[i]);
                    if l.archetype_id == a {
                        assert(w0.row_owned(a as int, l.row as int));
                        assert(l.row != r);
                        if l.row as int == last {
                            assert(w0.row_owned(a as int, last));
                        }
                    }
                }
            }
            // every remaining row is owned by the entity located there
            assert forall|b: int, r2: int|
                0 <= b < self.archs().len() && 0 <= r2 < self.archs()[b].entity_rows().len() implies #[trigger] self.row_owned(
                b,
                r2,
            ) by {
                if b == a as int {
                    if r2 == r as int {
                        assert(w0.row_owned(b, last));
                    } else {
                        assert(w0.row_owned(b, r2));
                        assert(w0.row_owned(b, last));
                        assert(w0.row_owned(b, r as int));
                    }
                } else {
                    assert(w0.row_owned(b, r2));
                    let f = w0.archs()[b].entity_rows()[r2];
                    if f.index == e.index {
                        assert(w0.row_owned(a as int, r as int));
                    }
                    if f.index == moved.index && r < last {
                        assert(w0.row_owned(a as int, last));
                    }
                }
            }
            assert(self.allocator().wf());
            assert(self.archs().len() < usize::MAX);
            assert(self.infos() == w0.infos());
            assert(self.base_ok());
            assert(ms[e.index as int].alive && ms[e.index as int].location.is_none());
            assert forall|f: Entity|
                w0.allocator().spec_is_valid(f) && f != e implies #[trigger] self.components_of(f)
                    == w0.components_of(f) by {
                let i = f.index as int;
                assert(ms0[i].alive);
                assert(w0.slot_placed(i));
                assert(w0.handle_of(i) == f);
                let l = w0.slot_location(i);
                if i == moved.index as int && r < last {
                    assert(w0.row_owned(a as int, last));
                    assert(l.row == last);
                } else if l.archetype_id == a {
                    assert(w0.row_owned(a as int, l.row as int));
                    if l.row as int == last {
                        assert(w0.row_owned(a as int, last));
                    }
                }
            }
        }
        row
    }

    /// Appends a row for the live entity `e`, which has none, to archetype `a`
    /// and records its location.
    fn place(&mut self, e: Entity, a: ArchetypeId, row: Vec<ComponentValue>)
        requires
            old(self).inv(e.index as int),
            old(self).allocator().spec_is_valid(e),
            a < old(self).archs().len(),
            row@.len() == old(self).archs()[a as int].ids().len(),
        ensures
            final(self).wf(),
            final(self).infos() == old(self).infos(),
            final(self).archs().len() == old(self).archs().len(),
            final(self).allocator().spec_room() == old(self).allocator().spec_room(),
            final(self).allocator().metas().len() == old(self).allocator().metas().len(),
            forall|i: int|
                0 <= i < old(self).allocator().metas().len() ==> (#[trigger] final(self).allocator().metas()[i]).generation
                    == old(self).allocator().metas()[i].generation && final(self).allocator().metas()[i].alive
                    == old(self).allocator().metas()[i].alive,
            final(self).archs()[a as int].ids() == old(self).archs()[a as int].ids(),
            final(self).archetype_rows(a as int) == old(self).archetype_rows(a as int).push(e),
            forall|b: int|
                0 <= b < old(self).archs().len() && b != a ==> #[trigger] final(self).archs()[b]
                    == old(self).archs()[b],
            final(self).location_of(e) == (EntityLocation {
                archetype_id: a,
                row: old(self).archetype_rows(a as int).len() as usize,
            }),
            final(self).components_of(e) == row_map(old(self).archs()[a as int].ids(), values_view(row@)),
            forall|i: int|
                0 <= i < old(self).allocator().metas().len() && i != e.index as int ==> #[trigger] final(self).allocator().metas()[i]
                    == old(self).allocator().metas()[i],
            forall|f: Entity|
                old(self).allocator().spec_is_valid(f) && f != e ==> #[trigger] final(self).components_of(f)
                    == old(self).components_of(f),
            forall|f: Entity| #[trigger] final(self).allocator().spec_is_valid(f) == old(self).allocator().spec_is_valid(f),
    {
        let n = self.archetypes[a].len();
        let ghost ms0 = self.entities.metas();
        self.archetypes[a].push_row(e, row);
        self.entities.set_location(e.index, Some(EntityLocation { archetype_id: a, row: n }));
        proof {
            let w0 = old(self);
            let ms = self.allocator().metas();
            assert(self.allocator().wf());
            assert(self.infos() == w0.infos());
            assert forall|b: int| 0 <= b < self.archs().len() implies (#[trigger] self.archs()[b]).wf()
                && (forall|k: int| 0 <= k < self.archs()[b].ids().len() ==> #[trigger] self.archs()[b].ids()[k]
                    < self.infos().len()) by {
                assert(w0.archs()[b].wf());
            }
            assert forall|b1: int, b2: int|
                0 <= b1 < self.archs().len() && 0 <= b2 < self.archs().len() && b1 != b2 implies (
                #[trigger] self.archs()[b1]).ids() != (#[trigger] self.archs()[b2]).ids() by {
                assert(w0.archs()[b1].ids() != w0.archs()[b2].ids());
            }
            assert(self.base_ok());
            assert forall|i: int|
                0 <= i < ms.len() && (#[trigger] ms[i]).alive implies self.slot_placed(i) by {
                if i != e.index as int {
                    assert(w0.slot_placed(i));
                }
            }
            assert forall|b: int, r2: int|
                0 <= b < self.archs().len() && 0 <= r2 < self.archs()[b].entity_rows().len() implies #[trigger] self.row_owned(
                b,
                r2,
            ) by {
                if b != a as int || r2 < n as int {
                    assert(w0.row_owned(b, r2));
                }
            }
            assert forall|f: Entity|
                w0.allocator().spec_is_valid(f) && f != e implies #[trigger] self.components_of(f)
                    == w0.components_of(f) by {
                let i = f.index as int;
                assert(w0.slot_placed(i));
            }
            assert forall|f: Entity| #[trigger] self.allocator().spec_is_valid(f)
                == w0.allocator().spec_is_valid(f) by {
                if (f.index as int) < ms.len() {
                    assert(ms[f.index as int].generation == ms0[f.index as int].generation);
                }
            }
        }
    }

    /// Hands out a new live handle, not yet placed in any archetype.
    fn allocate_detached(&mut self) -> (e: Entity)
        requires
            old(self).wf(),
            old(self).allocator().spec_room() >= 1,
        ensures
            final(self).inv(e.index as int),
            final(self).allocator().spec_is_valid(e),
            !old(self).allocator().spec_is_valid(e),
            !old(self).view().contains_key(e),
            final(self).allocator().spec_room() == old(self).allocator().spec_room() - 1,
            old(self).allocator().evolves_to(&final(self).allocator()),
            final(self).infos() == old(self).infos(),
            final(self).archs() == old(self).archs(),
            forall|f: Entity|
                old(self).allocator().spec_is_valid(f) ==> #[trigger] final(self).allocator().spec_is_valid(f)
                    && final(self).components_of(f) == old(self).components_of(f),
            forall|f: Entity|
                #[trigger] final(self).allocator().spec_is_valid(f) ==> f == e || old(self).allocator().spec_is_valid(f),
            forall|i: int|
                0 <= i < old(self).allocator().metas().len() && i != e.index as int ==> #[trigger] final(self).allocator().metas()[i]
                    == old(self).allocator().metas()[i],
            (e.index as int) < old(self).allocator().metas().len() ==> !old(self).allocator().metas()[e.index as int].alive,
    {
        let e = self.entities.allocate();
        proof {
            let w0 = old(self);
            let ms = self.allocator().metas();
            let ms0 = w0.allocator().metas();
            assert(self.infos() == w0.infos());
            assert(self.archs() == w0.archs());
            assert(self.base_ok());
            assert forall|i: int|
                0 <= i < ms.len() && i != e.index as int && (#[trigger] ms[i]).alive implies self.slot_placed(
                i,
            ) by {
                assert(ms[i] == ms0[i]);
                assert(w0.slot_placed(i));
            }
            assert forall|b: int, r2: int|
                0 <= b < self.archs().len() && 0 <= r2 < self.archs()[b].entity_rows().len() implies #[trigger] self.row_owned(
                b,
                r2,
            ) by {
                assert(w0.row_owned(b, r2));
                let f = w0.archs()[b].entity_rows()[r2];
                assert(f.index != e.index);
                assert(ms[f.index as int] == ms0[f.index as int]);
            }
            assert forall|f: Entity| w0.allocator().spec_is_valid(f) implies #[trigger] self.allocator().spec_is_valid(f)
                && self.components_of(f) == w0.components_of(f) by {
                assert(f.index != e.index);
                assert(ms[f.index as int] == ms0[f.index as int]);
            }
            assert forall|f: Entity| #[trigger] self.allocator().spec_is_valid(f) implies f == e
                || w0.allocator().spec_is_valid(f) by {
                if f.index != e.index {
                    assert(ms[f.index as int] == ms0[f.index as int]);
                }
            }
        }
        e
    }

    /// The archetype whose components are exactly `ids`, made (empty) if the
    /// world has none yet.
    fn archetype_for(&mut self, ids: Vec<ComponentId>, Ghost(d): Ghost<int>) -> (a: ArchetypeId)
        requires
            old(self).inv(d),
            strictly_sorted(ids@),
            forall|k: int| 0 <= k < ids@.len() ==> #[trigger] ids@[k] < old(self).infos().len(),
            old(self).archs().len() + 1 < usize::MAX,
        ensures
            final(self).inv(d),
            final(self).allocator() == old(self).allocator(),
            final(self).infos() == old(self).infos(),
            a < final(self).archs().len(),
            final(self).archs()[a as int].ids() == ids@,
            old(self).archs().is_prefix_of(final(self).archs()),
            final(self).archs().len() <= old(self).archs().len() + 1,
            a < old(self).archs().len() || (a == old(self).archs().len() && final(self).archs().len()
                == old(self).archs().len() + 1 && final(self).archetype_rows(a as int).len() == 0),
            forall|b: int| 0 <= b < old(self).archs().len() ==> (old(self).archs()[b].ids() == ids@ <==> b == a),
            forall|f: Entity|
                old(self).allocator().spec_is_valid(f) && f.index as int != d ==> #[trigger] final(self).components_of(f)
                    == old(self).components_of(f),
    {
        let mut a: usize = 0;
        while a < self.archetypes.len()
            invariant
                a <= self.archs().len(),
                self.archs() == old(self).archs(),
                self.allocator() == old(self).allocator(),
                self.infos() == old(self).infos(),
                old(self).inv(d),
                forall|b: int| 0 <= b < a ==> self.archs()[b].ids() != ids@,
            decreases self.archs().len() - a,
        {
            if same_ids(self.archetypes[a].component_ids(), &ids) {
                proof {
                    assert forall|b: int| 0 <= b < old(self).archs().len() implies (old(self).archs()[b].ids()
                        == ids@ <==> b == a) by {
                        if b != a {
                            assert(self.archs()[b].ids() != self.archs()[a as int].ids());
                        }
                    }
                    assert(self.archs() =~= self.archs().subrange(0, self.archs().len() as int));
                }
                return a;
            }
            a += 1;
        }
        let ghost w0 = *self;
        self.archetypes.push(Archetype::new(ids));
        proof {
            assert(w0.archs().is_prefix_of(self.archs()));
            assert forall|b: int| 0 <= b < self.archs().len() implies (#[trigger] self.archs()[b]).wf()
                && (forall|k: int| 0 <= k < self.archs()[b].ids().len() ==> #[trigger] self.archs()[b].ids()[k]
                    < self.infos().len()) by {
                if b < a {
                    assert(self.archs()[b] == w0.archs()[b]);
                }
            }
            assert(self.infos() == w0.infos());
            assert(self.allocator() == w0.allocator());
            assert forall|b1: int, b2: int|
                0 <= b1 < self.archs().len() && 0 <= b2 < self.archs().len() && b1 != b2 implies (
                #[trigger] self.archs()[b1]).ids() != (#[trigger] self.archs()[b2]).ids() by {
                assert(b1 < a || b2 < a);
            }
            assert(self.base_ok());
            let ms = self.allocator().metas();
            assert forall|i: int|
                0 <= i < ms.len() && i != d && (#[trigger] ms[i]).alive implies self.slot_placed(i) by {
                assert(w0.slot_placed(i));
            }
            assert forall|b: int, r2: int|
                0 <= b < self.archs().len() && 0 <= r2 < self.archs()[b].entity_rows().len() implies #[trigger] self.row_owned(
                b,
                r2,
            ) by {
                assert(w0.row_owned(b, r2));
            }
            assert forall|f: Entity|
                w0.allocator().spec_is_valid(f) && f.index as int != d implies #[trigger] self.components_of(f)
                    == w0.components_of(f) by {
                assert(w0.slot_placed(f.index as int));
                let l = w0.location_of(f);
                assert(self.archs()[l.archetype_id as int] == w0.archs()[l.archetype_id as int]);
            }
        }
        a
    }

    proof fn lemma_view_insert(w0: &World, w1: &World, e: Entity)
        requires
            forall|f: Entity| #[trigger] w1.allocator().spec_is_valid(f) <==> (w0.allocator().spec_is_valid(f) || f == e),
            forall|f: Entity|
                w0.allocator().spec_is_valid(f) && f != e ==> #[trigger] w1.components_of(f) == w0.components_of(f),
        ensures
            w1.view() == w0.view().insert(e, w1.components_of(e)),
    {
        assert(w1.view() =~= w0.view().insert(e, w1.components_of(e)));
    }

    proof fn lemma_view_remove(w0: &World, w1: &World, e: Entity)
        requires
            forall|f: Entity| #[trigger] w1.allocator().spec_is_valid(f) <==> (w0.allocator().spec_is_valid(f) && f != e),
            forall|f: Entity|
                w0.allocator().spec_is_valid(f) && f != e ==> #[trigger] w1.components_of(f) == w0.components_of(f),
        ensures
            w1.view() == w0.view().remove(e),
    {
        assert(w1.view() =~= w0.view().remove(e));
    }

    /// Registers a component type under its type key, or returns the id that
    /// the key already has.
    pub fn init_component(&mut self, name: String, type_key: u64, size: usize) -> (c: ComponentId)
        requires
            old(self).wf(),
        ensures
            final(self).wf(),
            final(self).view() == old(self).view(),
            final(self).allocator() == old(self).allocator(),
            final(self).archs() == old(self).archs(),
            c < final(self).infos().len(),
            c <= old(self).infos().len(),
            final(self).infos()[c as int].type_key == type_key,
            old(self).infos().is_prefix_of(final(self).infos()),
            c < old(self).infos().len() ==> final(self).infos() == old(self).infos(),
            c == old(self).infos().len() ==> final(self).infos().len() == c + 1
                && final(self).infos()[c as int].size == size,
            (exists|j: int| 0 <= j < old(self).infos().len() && old(self).infos()[j].type_key == type_key)
                <==> c < old(self).infos().len(),
    {
        match self.component_id(type_key) {
            Some(c) => {
                assert(self.infos() =~= self.infos().subrange(0, self.infos().len() as int));
                c
            },
            None => {
                let c = self.components.len();
                let ghost w0 = *self;
                self.components.push(ComponentInfo { name, type_key, size });
                proof {
                    assert(w0.infos().is_prefix_of(self.infos()));
                    assert(self.archs() == w0.archs());
                    assert forall|a: int| 0 <= a < self.archs().len() implies (#[trigger] self.archs()[a]).wf()
                        && (forall|k: int| 0 <= k < self.archs()[a].ids().len() ==> #[trigger] self.archs()[a].ids()[k]
                            < self.infos().len()) by {
                        assert(w0.archs()[a].wf());
                    }
                    assert forall|j: int, k: int|
                        0 <= j < self.infos().len() && 0 <= k < self.infos().len() && j != k implies (
                        #[trigger] self.infos()[j]).type_key != (#[trigger] self.infos()[k]).type_key by {
                        if j < c && k < c {
                            assert(w0.infos()[j].type_key != w0.infos()[k].type_key);
                        }
                    }
                    assert(self.base_ok());
                    let ms = self.allocator().metas();
                    assert forall|i: int| 0 <= i < ms.len() && (#[trigger] ms[i]).alive implies self.slot_placed(i) by {
                        assert(w0.slot_placed(i));
                    }
                    assert forall|b: int, r2: int|
                        0 <= b < self.archs().len() && 0 <= r2 < self.archs()[b].entity_rows().len() implies #[trigger] self.row_owned(
                        b,
                        r2,
                    ) by {
                        assert(w0.row_owned(b, r2));
                    }
                    assert(self.view() =~= w0.view());
                }
                c
            },
        }
    }

    /// The id registered for a type key.
    pub fn component_id(&self, type_key: u64) -> (r: Option<ComponentId>)
        ensures
            match r {
                Some(c) => c < self.infos().len() && self.infos()[c as int].type_key == type_key,
                None => forall|j: int| 0 <= j < self.infos().len() ==> self.infos()[j].type_key != type_key,
            },
    {
        let mut j: usize = 0;
        while j < self.components.len()
            invariant
                j <= self.infos().len(),
                forall|k: int| 0 <= k < j ==> self.infos()[k].type_key != type_key,
            decreases self.infos().len() - j,
        {
            if self.components[j].type_key == type_key {
                return Some(j);
            }
            j += 1;
        }
        None
    }

    /// What the registry knows of component `c`.
    pub fn component_info(&self, c: ComponentId) -> (r: &ComponentInfo)
        requires
            c < self.infos().len(),
        ensures
            *r == self.infos()[c as int],
    {
        &self.components[c]
    }

    /// The number of registered component types.
    pub fn component_count(&self) -> (r: usize)
        ensures
            r as int == self.infos().len(),
    {
        self.components.len()
    }

    /// Whether `e` is a live entity of this world.
    pub fn contains(&self, e: Entity) -> (r: bool)
        ensures
            r == self.view().contains_key(e),
    {
        self.entities.is_valid(e)
    }

    /// Where the components of `e` are stored, if `e` is live.
    pub fn location(&self, e: Entity) -> (r: Option<EntityLocation>)
        requires
            self.wf(),
        ensures
            r == (if self.view().contains_key(e) {
                Some(self.location_of(e))
            } else {
                None
            }),
    {
        self.entities.get(e)
    }

    pub fn archetype_count(&self) -> (r: usize)
        ensures
            r as int == self.archs().len(),
    {
        self.archetypes.len()
    }

    /// The table of archetype `a`.
    pub fn archetype(&self, a: ArchetypeId) -> (r: &Archetype)
        requires
            a < self.archs().len(),
        ensures
            *r == self.archs()[a as int],
    {
        &self.archetypes[a]
    }

    /// How many more entities can be allocated, saturated at `u64::MAX`.
    pub fn entity_room(&self) -> (r: u64)
        requires
            self.wf(),
        ensures
            r as int == if self.allocator().spec_room() > u64::MAX as int {
                u64::MAX as int
            } else {
                self.allocator().spec_room()
            },
    {
        self.entities.room()
    }

    /// The value of component `c` of entity `e`, if `e` is live and has it.
    pub fn get(&self, e: Entity, c: ComponentId) -> (r: Option<&ComponentValue>)
        requires
            self.wf(),
        ensures
            match r {
                Some(v) => self.view().contains_key(e) && self.view()[e].contains_key(c) && v@
                    == self.view()[e][c],
                None => !(self.view().contains_key(e) && self.view()[e].contains_key(c)),
            },
    {
        match self.entities.get(e) {
            None => None,
            Some(loc) => {
                proof {
                    assert(self.slot_placed(e.index as int));
                }
                let arch = &self.archetypes[loc.archetype_id];
                match arch.column_index(c) {
                    None => None,
                    Some(j) => Some(arch.value(j, loc.row)),
                }
            },
        }
    }

    /// Why `ids` cannot name the components of an archetype, if they cannot.
    pub open spec fn ids_error(&self, ids: Seq<ComponentId>) -> Option<EcsError> {
        if !strictly_sorted(ids) {
            Some(EcsError::UnsortedComponents)
        } else if exists|k: int| 0 <= k < ids.len() && ids[k] >= self.infos().len() {
            Some(EcsError::UnknownComponent)
        } else {
            None
        }
    }

    /// Why a bundle of `ids` with `vals` cannot be spawned, if it cannot.
    pub open spec fn bundle_error(&self, ids: Seq<ComponentId>, vals: Seq<Seq<u8>>) -> Option<EcsError> {
        if ids.len() != vals.len() {
            Some(EcsError::BundleShape)
        } else if self.ids_error(ids) is Some {
            self.ids_error(ids)
        } else if exists|k: int| 0 <= k < ids.len() && vals[k].len() != self.infos()[ids[k] as int].size {
            Some(EcsError::LayoutMismatch)
        } else {
            None
        }
    }

    /// There is room for one more entity and one more archetype.
    pub open spec fn has_room(&self) -> bool {
        &&& self.allocator().spec_room() >= 1
        &&& self.archs().len() + 1 < usize::MAX
    }

    /// Checks that `ids` are sorted and registered.
    pub fn check_ids(&self, ids: &Vec<ComponentId>) -> (r: Result<(), EcsError>)
        ensures
            r == match self.ids_error(ids@) {
                Some(err) => Err(err),
                None => Ok(()),
            },
    {
        let mut k: usize = 1;
        while k < ids.len()
            invariant
                1 <= k,
                k <= ids@.len() || ids@.len() == 0,
                ids@.len() > 0 ==> strictly_sorted(ids@.subrange(0, k as int)),
            decreases ids@.len() - k,
        {
            if ids[k - 1] >= ids[k] {
                proof {
                    assert(!strictly_sorted(ids@));
                }
                return Err(EcsError::UnsortedComponents);
            }
            proof {
                let t = ids@.subrange(0, k as int);
                let t2 = ids@.subrange(0, k + 1);
                assert forall|i: int, j: int| 0 <= i < j < t2.len() implies t2[i] < t2[j] by {
                    if j < k {
                        assert(t[i] == t2[i] && t[j] == t2[j]);
                    } else if i < k - 1 {
                        assert(t[i] == t2[i] && t[k - 1] == t2[k - 1]);
                    }
                }
            }
            k += 1;
        }
        proof {
            if ids@.len() > 0 {
                assert(ids@ =~= ids@.subrange(0, ids@.len() as int));
            }
        }
        let mut k: usize = 0;
        while k < ids.len()
            invariant
                k <= ids@.len(),
                strictly_sorted(ids@),
                forall|i: int| 0 <= i < k ==> ids@[i] < self.infos().len(),
            decreases ids@.len() - k,
        {
            if ids[k] >= self.components.len() {
                proof {
                    assert(ids@[k as int] >= self.infos().len());
                }
                return Err(EcsError::UnknownComponent);
            }
            k += 1;
        }
        Ok(())
    }

    /// Checks a bundle against the registry.
    pub fn check_bundle(&self, ids: &Vec<ComponentId>, values: &Vec<ComponentValue>) -> (r: Result<(), EcsError>)
        ensures
            r == match self.bundle_error(ids@, values_view(values@)) {
                Some(err) => Err(err),
                None => Ok(()),
            },
    {
        let ghost vals = values_view(values@);
        if ids.len() != values.len() {
            return Err(EcsError::BundleShape);
        }
        match self.check_ids(ids) {
            Err(err) => {
                return Err(err);
            },
            Ok(()) => {},
        }
        let mut k: usize = 0;
        while k < ids.len()
            invariant
                k <= ids@.len(),
                ids@.len() == values@.len(),
                vals == values_view(values@),
                self.ids_error(ids@) is None,
                forall|i: int| 0 <= i < k ==> vals[i].len() == self.infos()[ids@[i] as int].size,
            decreases ids@.len() - k,
        {
            if values[k].len() != self.components[ids[k]].size {
                proof {
                    assert(vals[k as int].len() != self.infos()[ids@[k as int] as int].size);
                }
                return Err(EcsError::LayoutMismatch);
            }
            k += 1;
        }
        Ok(())
    }

    /// Resolves the archetype of a bundle kind once, making it if needed.
    pub fn init_bundle(&mut self, ids: Vec<ComponentId>) -> (r: Result<BundleInfo, EcsError>)
        requires
            old(self).wf(),
            old(self).archs().len() + 1 < usize::MAX,
        ensures
            final(self).wf(),
            final(self).view() == old(self).view(),
            final(self).allocator() == old(self).allocator(),
            final(self).infos() == old(self).infos(),
            final(self).archs().len() <= old(self).archs().len() + 1,
            forall|b: int| 0 <= b < old(self).archs().len() ==> #[trigger] final(self).archs()[b] == old(self).archs()[b],
            match old(self).ids_error(ids@) {
                Some(err) => r == Err::<BundleInfo, EcsError>(err),
                None => match r {
                    Ok(info) => {
                        &&& info.wf_for(&*final(self))
                        &&& info.ids@ == ids@
                        &&& forall|b: int|
                            0 <= b < old(self).archs().len() ==> (old(self).archs()[b].ids() == ids@ <==> b
                                == info.archetype)
                        &&& info.archetype >= old(self).archs().len() ==> info.archetype == old(self).archs().len()
                            && final(self).archs().len() == old(self).archs().len() + 1
                            && final(self).archetype_rows(info.archetype as int).len() == 0
                    },
                    Err(_) => false,
                },
            },
    {
        match self.check_ids(&ids) {
            Err(err) => {
                return Err(err);
            },
            Ok(()) => {},
        }
        let kept = copy_ids(&ids);
        let a = self.archetype_for(ids, Ghost(-1));
        proof {
            assert forall|f: Entity| #[trigger] self.allocator().spec_is_valid(f) implies self.components_of(f)
                == old(self).components_of(f) by {}
            assert(self.view() =~= old(self).view());
        }
        Ok(BundleInfo { ids: kept, archetype: a })
    }

    /// Allocates an entity and writes its row, `values`, into archetype `a`.
    pub(crate) fn spawn_in(&mut self, a: ArchetypeId, values: Vec<ComponentValue>) -> (e: Entity)
        requires
            old(self).wf(),
            old(self).allocator().spec_room() >= 1,
            a < old(self).archs().len(),
            values@.len() == old(self).archs()[a as int].ids().len(),
        ensures
            final(self).wf(),
            !old(self).view().contains_key(e),
            final(self).view() == old(self).view().insert(
                e,
                row_map(old(self).archs()[a as int].ids(), values_view(values@)),
            ),
            final(self).allocator().spec_room() == old(self).allocator().spec_room() - 1,
            old(self).allocator().evolves_to(&final(self).allocator()),
            final(self).infos() == old(self).infos(),
            final(self).archs().len() == old(self).archs().len(),
            forall|b: int| 0 <= b < old(self).archs().len() ==> #[trigger] final(self).archs()[b].ids() == old(self).archs()[b].ids(),
            final(self).location_of(e) == (EntityLocation {
                archetype_id: a,
                row: old(self).archetype_rows(a as int).len() as usize,
            }),
            final(self).archetype_rows(a as int) == old(self).archetype_rows(a as int).push(e),
            forall|b: int| 0 <= b < old(self).archs().len() && b != a ==> #[trigger] final(self).archs()[b] == old(self).archs()[b],
            forall|f: Entity| #[trigger] old(self).view().contains_key(f) ==> final(self).location_of(f) == old(self).location_of(f),
    {
        let e = self.allocate_detached();
        let ghost w1 = *self;
        self.place(e, a, values);
        proof {
            let w0 = old(self);
            assert forall|f: Entity| #[trigger] self.allocator().spec_is_valid(f) <==> (
            w0.allocator().spec_is_valid(f) || f == e) by {
                assert(self.allocator().spec_is_valid(f) == w1.allocator().spec_is_valid(f));
                if w0.allocator().spec_is_valid(f) {
                    assert(w1.allocator().spec_is_valid(f));
                }
            }
            assert forall|f: Entity|
                w0.allocator().spec_is_valid(f) && f != e implies #[trigger] self.components_of(f)
                    == w0.components_of(f) by {
                assert(w1.allocator().spec_is_valid(f));
                assert(w1.components_of(f) == w0.components_of(f));
            }
            Self::lemma_view_insert(w0, self, e);
            assert(w1.allocator().metas().len() == self.allocator().metas().len());
            assert(w1.allocator().evolves_to(&self.allocator()));
            lemma_world_evolves_trans(w0, &w1, self);
            assert forall|f: Entity| #[trigger] w0.view().contains_key(f) implies self.location_of(f) == w0.location_of(f) by {
                assert(w0.allocator().spec_is_valid(f));
                assert(f.index != e.index);
                assert(w1.allocator().metas()[f.index as int] == w0.allocator().metas()[f.index as int]);
            }
        }
        e
    }

    /// Spawns an entity with the components `ids`, sorted, holding `values` in
    /// the same order.
    pub fn spawn(&mut self, ids: Vec<ComponentId>, values: Vec<ComponentValue>) -> (r: Result<Entity, EcsError>)
        requires
            old(self).wf(),
            old(self).has_room(),
        ensures
            final(self).wf(),
            old(self).allocator().evolves_to(&final(self).allocator()),
            final(self).archs().len() <= old(self).archs().len() + 1,
            final(self).infos() == old(self).infos(),
            match old(self).bundle_error(ids@, values_view(values@)) {
                Some(err) => r == Err::<Entity, EcsError>(err) && *final(self) == *old(self),
                None => match r {
                    Ok(e) => {
                        &&& !old(self).view().contains_key(e)
                        &&& final(self).view() == old(self).view().insert(e, row_map(ids@, values_view(values@)))
                        &&& final(self).archs()[final(self).location_of(e).archetype_id as int].ids() == ids@
                    },
                    Err(_) => false,
                },
            },
    {
        match self.check_bundle(&ids, &values) {
            Err(err) => {
                proof {
                    assert(old(self).allocator().evolves_to(&old(self).allocator()));
                }
                return Err(err);
            },
            Ok(()) => {},
        }
        Ok(self.spawn_row(ids, values))
    }

    /// Spawns an entity whose components are `ids`, sorted and registered,
    /// with `values` in the same order; the sizes of the values are not
    /// checked.
    pub(crate) fn spawn_row(&mut self, ids: Vec<ComponentId>, values: Vec<ComponentValue>) -> (e: Entity)
        requires
            old(self).wf(),
            old(self).has_room(),
            old(self).ids_error(ids@) is None,
            ids@.len() == values@.len(),
        ensures
            final(self).wf(),
            old(self).allocator().evolves_to(&final(self).allocator()),
            final(self).allocator().spec_room() == old(self).allocator().spec_room() - 1,
            final(self).infos() == old(self).infos(),
            final(self).archs().len() <= old(self).archs().len() + 1,
            !old(self).view().contains_key(e),
            final(self).view() == old(self).view().insert(e, row_map(ids@, values_view(values@))),
            final(self).archs()[final(self).location_of(e).archetype_id as int].ids() == ids@,
    {
        let ghost ids_view = ids@;
        let a = self.archetype_for(ids, Ghost(-1));
        proof {
            assert forall|f: Entity| #[trigger] self.allocator().spec_is_valid(f) implies self.components_of(f)
                == old(self).components_of(f) by {}
            assert(self.view() =~= old(self).view());
        }
        self.spawn_in(a, values)
    }

    /// Despawns `e`: its row leaves its archetype and its slot is freed with a
    /// bumped generation. Returns whether `e` was live.
    pub fn despawn(&mut self, e: Entity) -> (r: bool)
        requires
            old(self).wf(),
        ensures
            final(self).wf(),
            r == old(self).view().contains_key(e),
            final(self).view() == old(self).view().remove(e),
            old(self).allocator().evolves_to(&final(self).allocator()),
            r ==> final(self).allocator().is_stale(e),
            final(self).infos() == old(self).infos(),
            final(self).archs().len() == old(self).archs().len(),
            r ==> final(self).archetype_rows(old(self).location_of(e).archetype_id as int) == swap_removed(
                old(self).archetype_rows(old(self).location_of(e).archetype_id as int),
                old(self).location_of(e).row as int,
            ),
    {
        if !self.entities.is_valid(e) {
            proof {
                assert(old(self).view() =~= old(self).view().remove(e));
                assert(old(self).allocator().evolves_to(&old(self).allocator()));
            }
            return false;
        }
        let ghost w0 = *self;
        let _row = self.take_row(e);
        let ghost w1 = *self;
        let freed = self.entities.free(e);
        proof {
            let ms = self.allocator().metas();
            let ms1 = w1.allocator().metas();
            assert(w1.allocator().spec_is_valid(e));
            assert forall|i: int| 0 <= i < ms.len() && (#[trigger] ms[i]).alive implies self.slot_placed(i) by {
                assert(i != e.index as int);
                assert(ms[i] == ms1[i]);
                assert(w1.slot_placed(i));
            }
            assert(self.archs() == w1.archs());
            assert forall|b: int, r2: int|
                0 <= b < self.archs().len() && 0 <= r2 < self.archs()[b].entity_rows().len() implies #[trigger] self.row_owned(
                b,
                r2,
            ) by {
                assert(w1.row_owned(b, r2));
                let f = w1.archs()[b].entity_rows()[r2];
                assert(f.index != e.index);
            }
            assert(self.infos() == w1.infos());
            assert(self.base_ok());
            assert forall|f: Entity| #[trigger] self.allocator().spec_is_valid(f) <==> (
            w0.allocator().spec_is_valid(f) && f != e) by {
                assert(w1.allocator().spec_is_valid(f) == w0.allocator().spec_is_valid(f));
                if f.index != e.index && (f.index as int) < ms.len() {
                    assert(ms[f.index as int] == ms1[f.index as int]);
                }
            }
            assert forall|f: Entity|
                w0.allocator().spec_is_valid(f) && f != e implies #[trigger] self.components_of(f)
                    == w0.components_of(f) by {
                assert(w1.components_of(f) == w0.components_of(f));
                assert(ms[f.index as int] == ms1[f.index as int]);
            }
            Self::lemma_view_remove(&w0, self, e);
            assert(w0.allocator().evolves_to(&w1.allocator()));
            lemma_world_evolves_trans(&w0, &w1, self);
        }
        true
    }

    /// `self` is `before` with component `c` of the live entity `e` holding
    /// `v`, and nothing else changed.
    pub open spec fn cell_written(&self, before: &World, e: Entity, c: ComponentId, v: Seq<u8>) -> bool {
        let l = before.location_of(e);
        let a = l.archetype_id as int;
        let j = col_of(before.archs()[a].ids(), c);
        &&& self.allocator() == before.allocator()
        &&& self.infos() == before.infos()
        &&& self.archs().len() == before.archs().len()
        &&& forall|b: int| 0 <= b < before.archs().len() && b != a ==> #[trigger] self.archs()[b] == before.archs()[b]
        &&& self.archs()[a].wf()
        &&& self.archs()[a].ids() == before.archs()[a].ids()
        &&& self.archs()[a].entity_rows() == before.archs()[a].entity_rows()
        &&& self.archs()[a].row_values(l.row as int) == before.archs()[a].row_values(l.row as int).update(j, v)
        &&& forall|r2: int|
            0 <= r2 < before.archs()[a].entity_rows().len() && r2 != l.row ==> #[trigger] self.archs()[a].row_values(r2)
                == before.archs()[a].row_values(r2)
    }

    /// Component `c` of entity `e`, to be written in place, if `e` is live and
    /// has it. Once the borrow ends, `lemma_cell_written` gives the world's
    /// consistency and its new contents.
    pub fn get_mut(&mut self, e: Entity, c: ComponentId) -> (r: Option<&mut ComponentValue>)
        requires
            old(self).wf(),
        ensures
            match r {
                Some(v) => {
                    &&& old(self).view().contains_key(e)
                    &&& old(self).view()[e].contains_key(c)
                    &&& v@ == old(self).view()[e][c]
                    &&& final(self).cell_written(&*old(self), e, c, final(v)@)
                },
                None => !(old(self).view().contains_key(e) && old(self).view()[e].contains_key(c))
                    && *final(self) == *old(self),
            },
    {
        let loc = match self.entities.get(e) {
            None => {
                return None;
            },
            Some(loc) => loc,
        };
        proof {
            assert(self.slot_placed(e.index as int));
            assert(self.archs()[loc.archetype_id as int].wf());
        }
        let a = loc.archetype_id;
        let j = match self.archetypes[a].column_index(c) {
            None => {
                return None;
            },
            Some(j) => j,
        };
        Some(self.archetypes[a].value_mut(j, loc.row))
    }

    /// Writing one component in place keeps the world consistent and changes
    /// its contents at that component alone.
    pub proof fn lemma_cell_written(before: &World, after: &World, e: Entity, c: ComponentId, v: Seq<u8>)
        requires
            before.wf(),
            before.view().contains_key(e),
            before.view()[e].contains_key(c),
            after.cell_written(before, e, c, v),
        ensures
            after.wf(),
            after.view() == before.view().insert(e, before.view()[e].insert(c, v)),
    {
        let l = before.location_of(e);
        let a = l.archetype_id as int;
        assert(before.slot_placed(e.index as int));
        let ids = before.archs()[a].ids();
        assert(before.archs()[a].wf());
        let j = col_of(ids, c);
        assert(ids.contains(c));
        let k = choose|k: int| 0 <= k < ids.len() && ids[k] == c;
        lemma_col_of(ids, k);
        lemma_row_map_update(ids, before.archs()[a].row_values(l.row as int), j, v);
        assert forall|b: int| 0 <= b < after.archs().len() implies (#[trigger] after.archs()[b]).wf()
            && (forall|k2: int| 0 <= k2 < after.archs()[b].ids().len() ==> #[trigger] after.archs()[b].ids()[k2]
                < after.infos().len()) by {
            assert(before.archs()[b].wf());
        }
        assert forall|b1: int, b2: int|
            0 <= b1 < after.archs().len() && 0 <= b2 < after.archs().len() && b1 != b2 implies (
            #[trigger] after.archs()[b1]).ids() != (#[trigger] after.archs()[b2]).ids() by {
            assert(before.archs()[b1].ids() != before.archs()[b2].ids());
        }
        assert(after.base_ok());
        let ms = after.allocator().metas();
        assert forall|i: int| 0 <= i < ms.len() && (#[trigger] ms[i]).alive implies after.slot_placed(i) by {
            assert(before.slot_placed(i));
        }
        assert forall|b: int, r2: int|
            0 <= b < after.archs().len() && 0 <= r2 < after.archs()[b].entity_rows().len() implies #[trigger] after.row_owned(
            b,
            r2,
        ) by {
            assert(before.row_owned(b, r2));
        }
        assert forall|f: Entity| after.allocator().spec_is_valid(f) && f != e implies #[trigger] after.components_of(f)
            == before.components_of(f) by {
            assert(before.slot_placed(f.index as int));
            let lf = before.location_of(f);
            if lf.archetype_id as int == a {
                assert(before.row_owned(a, lf.row as int));
                assert(before.row_owned(a, l.row as int));
            }
        }
        Self::lemma_view_insert(before, after, e);
    }

    /// Overwrites component `c` of `e` with `v` where `e` is live and has it
    /// and `v` has the size registered for `c`. Returns whether it did.
    pub fn set(&mut self, e: Entity, c: ComponentId, v: ComponentValue) -> (r: bool)
        requires
            old(self).wf(),
        ensures
            final(self).wf(),
            r == (old(self).view().contains_key(e) && old(self).view()[e].contains_key(c) && v@.len()
                == old(self).infos()[c as int].size),
            r ==> final(self).view() == old(self).view().insert(e, old(self).view()[e].insert(c, v@)),
            !r ==> *final(self) == *old(self),
            final(self).allocator() == old(self).allocator(),
            final(self).infos() == old(self).infos(),
            forall|b: int| 0 <= b < old(self).archs().len() ==> #[trigger] final(self).archetype_rows(b) == old(self).archetype_rows(b),
            final(self).archs().len() == old(self).archs().len(),
    {
        let loc = match self.entities.get(e) {
            None => return false,
            Some(loc) => loc,
        };
        proof {
            assert(self.slot_placed(e.index as int));
        }
        let a = loc.archetype_id;
        let j = match self.archetypes[a].column_index(c) {
            None => return false,
            Some(j) => j,
        };
        proof {
            assert(self.archs()[a as int].wf());
            assert(self.archs()[a as int].ids()[j as int] < self.infos().len());
        }
        if v.len() != self.components[c].size {
            return false;
        }
        let ghost v_view = v@;
        let ghost w0 = *self;
        self.archetypes[a].set_value(j, loc.row, v);
        proof {
            let ids = w0.archs()[a as int].ids();
            lemma_row_map_update(ids, w0.archs()[a as int].row_values(loc.row as int), j as int, v_view);
            assert(self.allocator() == w0.allocator());
            assert(self.infos() == w0.infos());
            assert forall|b: int| 0 <= b < self.archs().len() implies (#[trigger] self.archs()[b]).wf()
                && (forall|k: int| 0 <= k < self.archs()[b].ids().len() ==> #[trigger] self.archs()[b].ids()[k]
                    < self.infos().len()) by {
                assert(w0.archs()[b].wf());
            }
            assert forall|b1: int, b2: int|
                0 <= b1 < self.archs().len() && 0 <= b2 < self.archs().len() && b1 != b2 implies (
                #[trigger] self.archs()[b1]).ids() != (#[trigger] self.archs()[b2]).ids() by {
                assert(w0.archs()[b1].ids() != w0.archs()[b2].ids());
            }
            assert(self.base_ok());
            let ms = self.allocator().metas();
            assert forall|i: int| 0 <= i < ms.len() && (#[trigger] ms[i]).alive implies self.slot_placed(i) by {
                assert(w0.slot_placed(i));
            }
            assert forall|b: int, r2: int|
                0 <= b < self.archs().len() && 0 <= r2 < self.archs()[b].entity_rows().len() implies #[trigger] self.row_owned(
                b,
                r2,
            ) by {
                assert(w0.row_owned(b, r2));
            }
            assert forall|f: Entity| self.allocator().spec_is_valid(f) && f != e implies #[trigger] self.components_of(f)
                == w0.components_of(f) by {
                assert(w0.slot_placed(f.index as int));
                let l = w0.location_of(f);
                if l.archetype_id == a {
                    assert(w0.row_owned(a as int, l.row as int));
                    assert(w0.row_owned(a as int, loc.row as int));
                }
            }
            Self::lemma_view_insert(&w0, self, e);
            assert forall|b: int| 0 <= b < w0.archs().len() implies #[trigger] self.archetype_rows(b) == w0.archetype_rows(b) by {}
        }
        true
    }

    /// Adds component `c` with value `v` to `e`, or overwrites it where `e`
    /// has it already. Adding moves `e` to the archetype with `c` added: the
    /// last row of the old archetype takes the place of `e`'s row there.
    pub fn insert(&mut self, e: Entity, c: ComponentId, v: ComponentValue) -> (r: Result<(), EcsError>)
        requires
            old(self).wf(),
            old(self).archs().len() + 1 < usize::MAX,
        ensures
            final(self).wf(),
            final(self).infos() == old(self).infos(),
            old(self).allocator().evolves_to(&final(self).allocator()),
            final(self).archs().len() <= old(self).archs().len() + 1,
            r == (if !old(self).view().contains_key(e) {
                Err(EcsError::NoSuchEntity)
            } else if c >= old(self).infos().len() {
                Err(EcsError::UnknownComponent)
            } else if v@.len() != old(self).infos()[c as int].size {
                Err(EcsError::LayoutMismatch)
            } else {
                Ok(())
            }),
            r is Ok ==> final(self).view() == old(self).view().insert(e, old(self).view()[e].insert(c, v@)),
            r is Err ==> *final(self) == *old(self),
            r is Ok && old(self).view()[e].contains_key(c) ==> {
                &&& final(self).allocator() == old(self).allocator()
                &&& final(self).archs().len() == old(self).archs().len()
                &&& forall|b: int|
                    0 <= b < old(self).archs().len() ==> #[trigger] final(self).archetype_rows(b)
                        == old(self).archetype_rows(b)
            },
            r is Ok && !old(self).view()[e].contains_key(c) ==> ({
                let l = old(self).location_of(e);
                final(self).archetype_rows(l.archetype_id as int) == swap_removed(
                    old(self).archetype_rows(l.archetype_id as int),
                    l.row as int,
                )
            }),
    {
        if !self.entities.is_valid(e) {
            proof {
                assert(old(self).allocator().evolves_to(&old(self).allocator()));
            }
            return Err(EcsError::NoSuchEntity);
        }
        if c >= self.components.len() {
            proof {
                assert(old(self).allocator().evolves_to(&old(self).allocator()));
            }
            return Err(EcsError::UnknownComponent);
        }
        if v.len() != self.components[c].size {
            proof {
                assert(old(self).allocator().evolves_to(&old(self).allocator()));
            }
            return Err(EcsError::LayoutMismatch);
        }
        let loc = self.entities.get(e).unwrap();
        let a = loc.archetype_id;
        proof {
            assert(self.slot_placed(e.index as int));
        }
        match self.archetypes[a].column_index(c) {
            Some(_) => {
                self.set(e, c, v);
                proof {
                    assert(old(self).allocator().evolves_to(&self.allocator()));
                }
            },
            None => {
                let ghost w0 = *self;
                let ghost ids0 = self.archs()[a as int].ids();
                let ghost v_view = v@;
                let mut ids = copy_ids(self.archetypes[a].component_ids());
                let p = insertion_point(&ids, c);
                ids.insert(p, c);
                let mut row = self.take_row(e);
                let ghost row0 = row@;
                proof {
                    assert(values_view(row0).len() == row0.len());
                    assert(w0.archs()[a as int].row_values(loc.row as int).len() == ids0.len());
                }
                row.insert(p, v);
                let ghost w1 = *self;
                proof {
                    assert forall|k: int| 0 <= k < ids@.len() implies #[trigger] ids@[k] < self.infos().len() by {
                        if k < p {
                            assert(ids@[k] == ids0[k]);
                        } else if k > p {
                            assert(ids@[k] == ids0[k - 1]);
                        }
                    }
                }
                let t = self.archetype_for(ids, Ghost(e.index as int));
                let ghost w2 = *self;
                proof {
                    assert(w1.allocator().spec_is_valid(e));
                    assert(t != a) by {
                        assert(w2.archs()[a as int] == w1.archs()[a as int]);
                        assert(w2.archs()[t as int].ids().contains(c)) by {
                            assert(w2.archs()[t as int].ids()[p as int] == c);
                        }
                    }
                }
                self.place(e, t, row);
                proof {
                    let vals0 = w0.archs()[a as int].row_values(loc.row as int);
                    assert(values_view(row0.insert(p as int, v)) =~= vals0.insert(p as int, v_view));
                    lemma_row_map_insert(ids0, vals0, p as int, c, v_view);
                    assert(self.components_of(e) == w0.components_of(e).insert(c, v_view));
                    assert forall|f: Entity| #[trigger] self.allocator().spec_is_valid(f) <==> (
                    w0.allocator().spec_is_valid(f) || f == e) by {
                        assert(self.allocator().spec_is_valid(f) == w2.allocator().spec_is_valid(f));
                        assert(w1.allocator().spec_is_valid(f) == w0.allocator().spec_is_valid(f));
                    }
                    assert forall|f: Entity|
                        w0.allocator().spec_is_valid(f) && f != e implies #[trigger] self.components_of(f)
                            == w0.components_of(f) by {
                        assert(w1.components_of(f) == w0.components_of(f));
                        assert(w2.components_of(f) == w1.components_of(f));
                    }
                    Self::lemma_view_insert(&w0, self, e);
                    assert(self.archs()[a as int] == w2.archs()[a as int]);
                    assert(w2.archs()[a as int] == w1.archs()[a as int]);
                    let ms = self.allocator().metas();
                    let ms0 = w0.allocator().metas();
                    assert forall|i: int| 0 <= i < ms0.len() implies #[trigger] ms0[i].generation
                        <= ms[i].generation by {
                        assert(w1.allocator().metas()[i].generation == ms0[i].generation);
                    }
                }
            },
        }
        Ok(())
    }

    /// Takes component `c` off `e` and returns its value, where `e` is live
    /// and has it. Removing moves `e` to the archetype without `c`: the last
    /// row of the old archetype takes the place of `e`'s row there.
    pub fn remove(&mut self, e: Entity, c: ComponentId) -> (r: Option<ComponentValue>)
        requires
            old(self).wf(),
            old(self).archs().len() + 1 < usize::MAX,
        ensures
            final(self).wf(),
            final(self).infos() == old(self).infos(),
            old(self).allocator().evolves_to(&final(self).allocator()),
            final(self).archs().len() <= old(self).archs().len() + 1,
            r is Some <==> (old(self).view().contains_key(e) && old(self).view()[e].contains_key(c)),
            r is Some ==> r.unwrap()@ == old(self).view()[e][c] && final(self).view() == old(self).view().insert(
                e,
                old(self).view()[e].remove(c),
            ),
            r is None ==> *final(self) == *old(self),
            r is Some ==> ({
                let l = old(self).location_of(e);
                final(self).archetype_rows(l.archetype_id as int) == swap_removed(
                    old(self).archetype_rows(l.archetype_id as int),
                    l.row as int,
                )
            }),
    {
        let loc = match self.entities.get(e) {
            None => {
                proof {
                    assert(old(self).allocator().evolves_to(&old(self).allocator()));
                }
                return None;
            },
            Some(loc) => loc,
        };
        let a = loc.archetype_id;
        proof {
            assert(self.slot_placed(e.index as int));
        }
        let j = match self.archetypes[a].column_index(c) {
            None => {
                proof {
                    assert(old(self).allocator().evolves_to(&old(self).allocator()));
                }
                return None;
            },
            Some(j) => j,
        };
        let ghost w0 = *self;
        let ghost ids0 = self.archs()[a as int].ids();
        let mut ids = copy_ids(self.archetypes[a].component_ids());
        ids.remove(j);
        proof {
            lemma_sorted_remove(ids0, j as int);
            assert forall|k: int| 0 <= k < ids@.len() implies #[trigger] ids@[k] < self.infos().len() by {
                if k < j {
                    assert(ids@[k] == ids0[k]);
                } else {
                    assert(ids@[k] == ids0[k + 1]);
                }
            }
        }
        let mut row = self.take_row(e);
        let ghost row0 = row@;
        proof {
            assert(values_view(row0).len() == row0.len());
            assert(w0.archs()[a as int].row_values(loc.row as int).len() == ids0.len());
        }
        let v = row.remove(j);
        let ghost w1 = *self;
        let t = self.archetype_for(ids, Ghost(e.index as int));
        let ghost w2 = *self;
        proof {
            assert(w1.allocator().spec_is_valid(e));
            assert(t != a) by {
                assert(w2.archs()[a as int] == w1.archs()[a as int]);
                assert(ids0.contains(c));
            }
        }
        self.place(e, t, row);
        proof {
            let vals0 = w0.archs()[a as int].row_values(loc.row as int);
            assert(values_view(row0.remove(j as int)) =~= vals0.remove(j as int));
            lemma_row_map_remove(ids0, vals0, j as int);
            assert(self.components_of(e) == w0.components_of(e).remove(c));
            assert(v@ == vals0[j as int]);
            assert forall|f: Entity| #[trigger] self.allocator().spec_is_valid(f) <==> (
            w0.allocator().spec_is_valid(f) || f == e) by {
                assert(self.allocator().spec_is_valid(f) == w2.allocator().spec_is_valid(f));
                assert(w1.allocator().spec_is_valid(f) == w0.allocator().spec_is_valid(f));
            }
            assert forall|f: Entity|
                w0.allocator().spec_is_valid(f) && f != e implies #[trigger] self.components_of(f)
                    == w0.components_of(f) by {
                assert(w1.components_of(f) == w0.components_of(f));
                assert(w2.components_of(f) == w1.components_of(f));
            }
            Self::lemma_view_insert(&w0, self, e);
            assert(self.archs()[a as int] == w2.archs()[a as int]);
            assert(w2.archs()[a as int] == w1.archs()[a as int]);
            let ms = self.allocator().metas();
            let ms0 = w0.allocator().metas();
            assert forall|i: int| 0 <= i < ms0.len() implies #[trigger] ms0[i].generation
                <= ms[i].generation by {
                assert(w1.allocator().metas()[i].generation == ms0[i].generation);
            }
        }
        Some(v)
    }

    /// Grows the allocator and the tables of archetype `a` ahead of
    /// `additional` spawns into it.
    pub(crate) fn reserve_for(&mut self, a: ArchetypeId, additional: usize)
        requires
            old(self).wf(),
            a < old(self).archs().len(),
        ensures
            final(self).wf(),
            final(self).view() == old(self).view(),
            final(self).allocator().metas() == old(self).allocator().metas(),
            final(self).allocator().spec_room() == old(self).allocator().spec_room(),
            final(self).infos() == old(self).infos(),
            final(self).archs().len() == old(self).archs().len(),
            forall|b: int| 0 <= b < old(self).archs().len() ==> #[trigger] final(self).archs()[b].ids() == old(self).archs()[b].ids(),
    {
        self.entities.reserve(additional);
        self.archetypes[a].reserve(additional);
        proof {
            let w0 = old(self);
            assert(self.allocator().metas() == w0.allocator().metas());
            assert(self.allocator().wf());
            assert(self.infos() == w0.infos());
            assert forall|b: int| 0 <= b < self.archs().len() implies (#[trigger] self.archs()[b]).wf()
                && (forall|k: int| 0 <= k < self.archs()[b].ids().len() ==> #[trigger] self.archs()[b].ids()[k]
                    < self.infos().len()) by {
                assert(w0.archs()[b].wf());
            }
            assert forall|b1: int, b2: int|
                0 <= b1 < self.archs().len() && 0 <= b2 < self.archs().len() && b1 != b2 implies (
                #[trigger] self.archs()[b1]).ids() != (#[trigger] self.archs()[b2]).ids() by {
                assert(w0.archs()[b1].ids() != w0.archs()[b2].ids());
            }
            assert(self.base_ok());
            let ms = self.allocator().metas();
            assert forall|i: int| 0 <= i < ms.len() && (#[trigger] ms[i]).alive implies self.slot_placed(i) by {
                assert(w0.slot_placed(i));
            }
            assert forall|b: int, r2: int|
                0 <= b < self.archs().len() && 0 <= r2 < self.archs()[b].entity_rows().len() implies #[trigger] self.row_owned(
                b,
                r2,
            ) by {
                assert(w0.row_owned(b, r2));
            }
            assert forall|f: Entity| self.allocator().spec_is_valid(f) implies #[trigger] self.components_of(f)
                == w0.components_of(f) by {
                assert(w0.slot_placed(f.index as int));
            }
            assert(self.view() =~= w0.view());
        }
    }
}

/// The recorded location of every live entity resolves to a row of its
/// archetype whose stored identity is that entity, and the entity's
/// components are the values of that row.
pub proof fn lemma_location_resolves(w: &World, e: Entity)
    requires
        w.wf(),
        w.view().contains_key(e),
    ensures
        ({
            let l = w.location_of(e);
            &&& (l.archetype_id as int) < w.archs().len()
            &&& (l.row as int) < w.archetype_rows(l.archetype_id as int).len()
            &&& w.archetype_rows(l.archetype_id as int)[l.row as int] == e
            &&& w.view()[e] == w.archs()[l.archetype_id as int].row_view(l.row as int)
        }),
{
    assert(w.slot_placed(e.index as int));
}

/// Every row of every archetype is owned by a live entity whose recorded
/// location is that very row.
pub proof fn lemma_row_resolves(w: &World, a: int, r: int)
    requires
        w.wf(),
        0 <= a < w.archs().len(),
        0 <= r < w.archetype_rows(a).len(),
    ensures
        w.view().contains_key(w.archetype_rows(a)[r]),
        w.location_of(w.archetype_rows(a)[r]) == (EntityLocation { archetype_id: a as usize, row: r as usize }),
{
    assert(w.row_owned(a, r));
}

/// Writing a component and reading it back gives the value written.
pub proof fn lemma_write_then_read(w0: &World, w1: &World, e: Entity, c: ComponentId, v: Seq<u8>)
    requires
        w0.view().contains_key(e),
        w1.view() == w0.view().insert(e, w0.view()[e].insert(c, v)),
    ensures
        w1.view().contains_key(e),
        w1.view()[e].contains_key(c),
        w1.view()[e][c] == v,
        w1.view()[e].dom() == w0.view()[e].dom().insert(c),
        forall|x: ComponentId| #[trigger] w0.view()[e].contains_key(x) && x != c ==> w1.view()[e][x] == w0.view()[e][x],
{
}

/// After a swap-remove of row `r` that was not the last one, the entity that
/// sat in the last row now sits in row `r`, and its location says so; the
/// table is one row shorter.
pub proof fn lemma_survivor_relocated(w0: &World, w1: &World, a: int, r: int)
    requires
        w0.wf(),
        w1.wf(),
        0 <= a < w0.archs().len(),
        a < w1.archs().len(),
        0 <= r < w0.archetype_rows(a).len() - 1,
        w1.archetype_rows(a) == swap_removed(w0.archetype_rows(a), r),
    ensures
        w1.archetype_rows(a).len() == w0.archetype_rows(a).len() - 1,
        ({
            let m = w0.archetype_rows(a).last();
            &&& w1.archetype_rows(a)[r] == m
            &&& w1.view().contains_key(m)
            &&& w1.location_of(m) == (EntityLocation { archetype_id: a as usize, row: r as usize })
        }),
{
    lemma_row_resolves(w1, a, r);
}

/// A despawned handle never comes back: once `despawn` has made it stale, no
/// later state of the world holds it, whatever slots are recycled meanwhile.
pub proof fn lemma_despawned_stays_dead(w1: &World, w2: &World, e: Entity)
    requires
        w1.allocator().is_stale(e),
        w1.allocator().evolves_to(&w2.allocator()),
    ensures
        !w2.view().contains_key(e),
        w2.allocator().is_stale(e),
{
    crate::entity::lemma_freed_handle_stays_invalid(&w1.allocator(), &w2.allocator(), e);
}

/// The unsigned integer that four bytes encode, least significant first.
pub open spec fn le_u32(b: Seq<u8>) -> int {
    b[0] as int + b[1] as int * 256 + b[2] as int * 65536 + b[3] as int * 16777216
}

/// The numeric value of component `c` of `e` read as a little-endian `u32`;
/// zero where `e` is not live, lacks `c`, or the value is not four bytes long.
pub open spec fn field_value(v: Map<Entity, Map<ComponentId, Seq<u8>>>, e: Entity, c: ComponentId) -> int {
    if v.contains_key(e) && v[e].contains_key(c) && v[e][c].len() == 4 {
        le_u32(v[e][c])
    } else {
        0
    }
}

/// The sum of the field values of `es`.
pub open spec fn field_sum(v: Map<Entity, Map<ComponentId, Seq<u8>>>, es: Seq<Entity>, c: ComponentId) -> int
    decreases es.len(),
{
    if es.len() == 0 {
        0
    } else {
        field_sum(v, es.drop_last(), c) + field_value(v, es.last(), c)
    }
}

/// Summing two parts of a list of entities separately and adding the results
/// gives the sum over the whole list: readers of disjoint parts can work
/// independently and combine.
pub proof fn lemma_field_sum_split(
    v: Map<Entity, Map<ComponentId, Seq<u8>>>,
    es: Seq<Entity>,
    k: int,
    c: ComponentId,
)
    requires
        0 <= k <= es.len(),
    ensures
        field_sum(v, es, c) == field_sum(v, es.subrange(0, k), c) + field_sum(v, es.subrange(k, es.len() as int), c),
    decreases es.len(),
{
    if es.len() == k {
        assert(es.subrange(0, k) =~= es);
        assert(es.subrange(k, es.len() as int).len() == 0);
    } else {
        lemma_field_sum_split(v, es.drop_last(), k, c);
        assert(es.drop_last().subrange(0, k) =~= es.subrange(0, k));
        assert(es.subrange(k, es.len() as int).drop_last() =~= es.drop_last().subrange(k, es.len() - 1));
        assert(es.subrange(k, es.len() as int).last() == es.last());
    }
}

impl World {
    /// The sum over `entities` of component `c` read as a little-endian `u32`,
    /// counting zero for an entity that is not live, lacks `c`, or holds a
    /// value that is not four bytes long. Reads only.
    pub fn sum_field_u32(&self, entities: &Vec<Entity>, c: ComponentId) -> (r: u64)
        requires
            self.wf(),
            entities@.len() <= u32::MAX,
        ensures
            r as int == field_sum(self.view(), entities@, c),
    {
        let mut acc: u64 = 0;
        let mut k: usize = 0;
        while k < entities.len()
            invariant
                self.wf(),
                k <= entities@.len(),
                entities@.len() <= u32::MAX,
                acc as int == field_sum(self.view(), entities@.subrange(0, k as int), c),
                acc as int <= k * 4294967295,
            decreases entities@.len() - k,
        {
            let e = entities[k];
            let x: u64 = match self.get(e, c) {
                Some(v) => if v.len() == 4 {
                    v[0] as u64 + v[1] as u64 * 256 + v[2] as u64 * 65536 + v[3] as u64 * 16777216
                } else {
                    0
                },
                None => 0,
            };
            proof {
                assert(entities@.subrange(0, k + 1).drop_last() =~= entities@.subrange(0, k as int));
                assert(entities@.subrange(0, k + 1).last() == e);
                assert(x as int == field_value(self.view(), e, c));
                assert((k + 1) * 4294967295 <= 4294967296 * 4294967295) by (nonlinear_arith)
                    requires k + 1 <= 4294967296;
            }
            acc = acc + x;
            k += 1;
        }
        proof {
            assert(entities@.subrange(0, k as int) =~= entities@);
        }
        acc
    }
}

} // verus!
