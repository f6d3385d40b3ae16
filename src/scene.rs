//! Scenes: worlds kept aside and copied into other worlds through the
//! reflection façades of a type registry.
use vstd::prelude::*;
use crate::archetype::{
    copy_ids, copy_value, insertion_point, lemma_col_of, lemma_row_map_insert, row_map, sorted_ids, strictly_sorted, values_view,
    Archetype, ComponentId, ComponentValue,
};
use crate::entity::{lemma_evolves_trans, Entity};
use crate::reflect::{lemma_resolve_is, resolve, ReflectComponent};
use crate::spawn_batch::{bundles_view, SpawnBatchIter};
use crate::world::{lemma_location_resolves, lemma_row_resolves, World};

verus! {

/// What a type registry holds for one type.
pub struct TypeRegistration {
    /// The stable identity of the type.
    pub type_key: u64,
    pub name: String,
    /// The component façade of the type, where it has one.
    pub component: Option<ReflectComponent>,
}

/// The types known to reflection, looked up by type key.
pub struct TypeRegistry {
    pub registrations: Vec<TypeRegistration>,
}

/// The registration that `type_key` finds: the first one with that key.
pub open spec fn lookup(regs: Seq<TypeRegistration>, type_key: u64) -> Option<int> {
    if exists|j: int| 0 <= j < regs.len() && regs[j].type_key == type_key {
        Some(
            choose|j: int|
                0 <= j < regs.len() && regs[j].type_key == type_key && forall|i: int|
                    0 <= i < j ==> regs[i].type_key != type_key,
        )
    } else {
        None
    }
}

impl TypeRegistry {
    pub fn new() -> (r: TypeRegistry)
        ensures
            r.registrations@.len() == 0,
    {
        TypeRegistry { registrations: Vec::new() }
    }

    /// Adds a registration; an earlier one with the same key keeps precedence.
    pub fn register(&mut self, registration: TypeRegistration)
        ensures
            final(self).registrations@ == old(self).registrations@.push(registration),
    {
        self.registrations.push(registration);
    }

    /// The registration of `type_key`, if any.
    pub fn get(&self, type_key: u64) -> (r: Option<&TypeRegistration>)
        ensures
            match lookup(self.registrations@, type_key) {
                Some(j) => r == Some(&self.registrations@[j]),
                None => r is None,
            },
    {
        let mut j: usize = 0;
        while j < self.registrations.len()
            invariant
                j <= self.registrations@.len(),
                forall|i: int| 0 <= i < j ==> self.registrations@[i].type_key != type_key,
            decreases self.registrations@.len() - j,
        {
            if self.registrations[j].type_key == type_key {
                proof {
                    let regs = self.registrations@;
                    let k = choose|k: int|
                        0 <= k < regs.len() && regs[k].type_key == type_key && forall|i: int|
                            0 <= i < k ==> regs[i].type_key != type_key;
                    assert(k == j as int) by {
                        if k < j {
                        } else if k > j {
                            assert(regs[j as int].type_key == type_key);
                        }
                    }
                }
                return Some(&self.registrations[j]);
            }
            j += 1;
        }
        None
    }
}

/// Why a scene could not be written into a world.
#[derive(Debug, PartialEq, Eq)]
pub enum SceneSpawnError {
    /// A component type of the scene is not in the type registry.
    UnregisteredType { name: String },
    /// A component type of the scene is registered without a component façade.
    UnregisteredComponent { name: String },
}

/// Which entity of the target world each scene entity became.
pub struct InstanceInfo {
    /// Pairs of (scene entity, target entity).
    pub entity_map: Vec<(Entity, Entity)>,
}

/// `n`, components of world `dst`, holds the components `m` of world `src`
/// under the ids that their type keys have in `dst`, and nothing else.
pub open spec fn copied_from(
    src: &World,
    dst: &World,
    m: Map<ComponentId, Seq<u8>>,
    n: Map<ComponentId, Seq<u8>>,
) -> bool {
    &&& forall|c: ComponentId| #[trigger] m.contains_key(c) ==> {
        let t = resolve(dst, src.infos()[c as int].type_key);
        &&& t is Some
        &&& n.contains_key(t.unwrap())
        &&& n[t.unwrap()] == m[c]
    }
    &&& forall|t: ComponentId| #[trigger] n.contains_key(t) ==> exists|c: ComponentId|
        #[trigger] m.contains_key(c) && (t as int) < dst.infos().len() && dst.infos()[t as int].type_key
            == src.infos()[c as int].type_key
}

/// The number of rows in the first `a` archetypes.
pub open spec fn rows_before(archs: Seq<Archetype>, a: int) -> int
    decreases a,
{
    if a <= 0 {
        0
    } else {
        rows_before(archs, a - 1) + archs[a - 1].entity_rows().len()
    }
}

proof fn lemma_rows_before_mono(archs: Seq<Archetype>, a: int, b: int)
    requires
        0 <= a <= b,
    ensures
        rows_before(archs, a) <= rows_before(archs, b),
    decreases b - a,
{
    if a < b {
        lemma_rows_before_mono(archs, a, b - 1);
    }
}

/// The scene entities of a list of pairs.
pub open spec fn firsts(map: Seq<(Entity, Entity)>) -> Seq<Entity> {
    Seq::new(map.len(), |i: int| map[i].0)
}

/// The entities of the first `a` archetypes, archetype after archetype.
pub open spec fn flat_rows(archs: Seq<Archetype>, a: int) -> Seq<Entity>
    decreases a,
{
    if a <= 0 {
        Seq::empty()
    } else {
        flat_rows(archs, a - 1) + archs[a - 1].entity_rows()
    }
}

proof fn lemma_flat_rows_index(archs: Seq<Archetype>, k: int, b: int, r: int)
    requires
        0 <= b < k,
        0 <= r < archs[b].entity_rows().len(),
    ensures
        flat_rows(archs, k).len() == rows_before(archs, k),
        rows_before(archs, b) + r < rows_before(archs, k),
        flat_rows(archs, k)[rows_before(archs, b) + r] == archs[b].entity_rows()[r],
    decreases k,
{
    lemma_flat_rows_len(archs, k);
    lemma_flat_rows_len(archs, k - 1);
    lemma_rows_before_mono(archs, 0, b);
    let prev = flat_rows(archs, k - 1);
    assert(flat_rows(archs, k) == prev + archs[k - 1].entity_rows());
    if b < k - 1 {
        lemma_flat_rows_index(archs, k - 1, b, r);
        assert(flat_rows(archs, k)[rows_before(archs, b) + r] == prev[rows_before(archs, b) + r]);
    } else {
        assert(flat_rows(archs, k)[rows_before(archs, b) + r] == archs[b].entity_rows()[r]);
    }
}

/// Place `i` of the flattened rows is row `r` of archetype `b`.
spec fn flat_pos(archs: Seq<Archetype>, b: int, r: int, i: int) -> bool {
    0 <= b && 0 <= r < archs[b].entity_rows().len() && i == rows_before(archs, b) + r
}

proof fn lemma_flat_rows_decompose(archs: Seq<Archetype>, k: int, i: int)
    requires
        0 <= k,
        0 <= i < rows_before(archs, k),
    ensures
        exists|b: int, r: int| b < k && #[trigger] flat_pos(archs, b, r, i),
    decreases k,
{
    if i < rows_before(archs, k - 1) {
        lemma_flat_rows_decompose(archs, k - 1, i);
        let (b, r) = choose|b: int, r: int| b < k - 1 && #[trigger] flat_pos(archs, b, r, i);
        assert(b < k && flat_pos(archs, b, r, i));
    } else {
        let b = k - 1;
        let r = i - rows_before(archs, k - 1);
        assert(b < k && flat_pos(archs, b, r, i));
    }
}

/// The entities of a consistent world, archetype after archetype, have no repeats.
proof fn lemma_flat_rows_distinct(w: &World)
    requires
        w.wf(),
    ensures
        flat_rows(w.archs(), w.archs().len() as int).no_duplicates(),
{
    let archs = w.archs();
    let k = archs.len() as int;
    let fl = flat_rows(archs, k);
    lemma_flat_rows_len(archs, k);
    assert forall|i: int, j: int| 0 <= i < fl.len() && 0 <= j < fl.len() && i != j implies fl[i] != fl[j] by {
        lemma_flat_rows_decompose(archs, k, i);
        lemma_flat_rows_decompose(archs, k, j);
        let (b1, r1) = choose|b: int, r: int| b < k && #[trigger] flat_pos(archs, b, r, i);
        let (b2, r2) = choose|b: int, r: int| b < k && #[trigger] flat_pos(archs, b, r, j);
        lemma_flat_rows_index(archs, k, b1, r1);
        lemma_flat_rows_index(archs, k, b2, r2);
        lemma_row_resolves(w, b1, r1);
        lemma_row_resolves(w, b2, r2);
        assert(fl[i] == w.archetype_rows(b1)[r1]);
        assert(fl[j] == w.archetype_rows(b2)[r2]);
        archs[b1].lemma_rows_fit();
        archs[b2].lemma_rows_fit();
        if fl[i] == fl[j] {
            assert(b1 == b2 && r1 == r2);
        }
    }
}

proof fn lemma_flat_rows_len(archs: Seq<Archetype>, k: int)
    requires
        0 <= k,
    ensures
        flat_rows(archs, k).len() == rows_before(archs, k),
    decreases k,
{
    if k > 0 {
        lemma_flat_rows_len(archs, k - 1);
    }
}

/// Copies stay copies when the target registers more types.
proof fn lemma_copied_from_stable(
    src: &World,
    w0: &World,
    w1: &World,
    m: Map<ComponentId, Seq<u8>>,
    n: Map<ComponentId, Seq<u8>>,
)
    requires
        w0.infos().is_prefix_of(w1.infos()),
        w1.base_ok(),
        copied_from(src, w0, m, n),
    ensures
        copied_from(src, w1, m, n),
{
    assert forall|c: ComponentId| #[trigger] m.contains_key(c) implies ({
        let t = resolve(w1, src.infos()[c as int].type_key);
        &&& t is Some
        &&& n.contains_key(t.unwrap())
        &&& n[t.unwrap()] == m[c]
    }) by {
        let key = src.infos()[c as int].type_key;
        let t0 = resolve(w0, key).unwrap();
        assert(w1.infos()[t0 as int] == w0.infos()[t0 as int]);
        lemma_resolve_is(w1, t0);
    }
    assert forall|t: ComponentId| #[trigger] n.contains_key(t) implies exists|c: ComponentId|
        #[trigger] m.contains_key(c) && (t as int) < w1.infos().len() && w1.infos()[t as int].type_key
            == src.infos()[c as int].type_key by {
        let c = choose|c: ComponentId|
            #[trigger] m.contains_key(c) && (t as int) < w0.infos().len() && w0.infos()[t as int].type_key
                == src.infos()[c as int].type_key;
        assert(w1.infos()[t as int] == w0.infos()[t as int]);
    }
}

/// A world kept aside, to be copied into other worlds.
pub struct Scene {
    pub world: World,
}

impl Scene {
    pub fn new(world: World) -> (r: Scene)
        ensures
            r.world == world,
    {
        Scene { world }
    }

    /// The number of entities of the scene.
    pub open spec fn entity_total(&self) -> int {
        rows_before(self.world.archs(), self.world.archs().len() as int)
    }

    /// `target` has room for a copy of every entity of the scene, and for an
    /// archetype per entity.
    pub open spec fn fits_into(&self, target: &World) -> bool {
        &&& target.allocator().spec_room() >= self.entity_total()
        &&& target.archs().len() + self.entity_total() + 1 < usize::MAX
    }

    /// `after` is the world with entities `before` plus a copy of every
    /// scene entity, paired by `map` as (scene entity, copy).
    pub open spec fn is_copy(
        &self,
        before: Map<Entity, Map<ComponentId, Seq<u8>>>,
        after: &World,
        map: Seq<(Entity, Entity)>,
    ) -> bool {
        &&& map.len() == self.entity_total()
        &&& firsts(map).no_duplicates()
        &&& forall|i: int|
            0 <= i < map.len() ==> {
                &&& self.world.view().contains_key((#[trigger] map[i]).0)
                &&& !before.contains_key(map[i].1)
                &&& after.view().contains_key(map[i].1)
                &&& copied_from(&self.world, after, self.world.view()[map[i].0], after.view()[map[i].1])
            }
        &&& forall|i: int, j: int|
            0 <= i < map.len() && 0 <= j < map.len() && i != j ==> (#[trigger] map[i]).1 != (#[trigger] map[j]).1
        &&& forall|e: Entity|
            #[trigger] self.world.view().contains_key(e) ==> exists|i: int| 0 <= i < map.len() && map[i].0 == e
        &&& forall|f: Entity| #[trigger] before.contains_key(f) ==> after.view().contains_key(f) && after.view()[f] == before[f]
        &&& forall|f: Entity|
            #[trigger] after.view().contains_key(f) ==> before.contains_key(f) || exists|i: int|
                0 <= i < map.len() && map[i].1 == f
    }

    /// Component `c` of the scene has a registration with a component façade.
    pub open spec fn reflectable(&self, reg: &TypeRegistry, c: ComponentId) -> bool {
        match lookup(reg.registrations@, self.world.infos()[c as int].type_key) {
            Some(j) => reg.registrations@[j].component is Some,
            None => false,
        }
    }

    /// Every component of every scene entity can be copied through `reg`.
    pub open spec fn copyable(&self, reg: &TypeRegistry) -> bool {
        forall|a: int, k: int|
            0 <= a < self.world.archs().len() && self.world.archetype_rows(a).len() > 0 && 0 <= k
                < self.world.archs()[a].ids().len() ==> #[trigger] self.reflectable(
                reg,
                self.world.archs()[a].ids()[k],
            )
    }

    /// Checks that every component type that a scene entity carries has a
    /// registration with a component façade.
    pub fn check_registered(&self, type_registry: &TypeRegistry) -> (r: Result<(), SceneSpawnError>)
        requires
            self.world.wf(),
        ensures
            r is Ok <==> self.copyable(type_registry),
            match r {
                Err(SceneSpawnError::UnregisteredType { name }) => exists|c: ComponentId|
                    c < self.world.infos().len() && self.world.infos()[c as int].name == name && lookup(
                        type_registry.registrations@,
                        self.world.infos()[c as int].type_key,
                    ) is None,
                Err(SceneSpawnError::UnregisteredComponent { name }) => exists|c: ComponentId|
                    c < self.world.infos().len() && self.world.infos()[c as int].name == name
                        && lookup(type_registry.registrations@, self.world.infos()[c as int].type_key) is Some
                        && !self.reflectable(type_registry, c),
                Ok(()) => true,
            },
    {
        let w = &self.world;
        let mut a: usize = 0;
        while a < w.archetype_count()
            invariant
                self.world.wf(),
                w == &self.world,
                a <= self.world.archs().len(),
                forall|b: int, k: int|
                    0 <= b < a && self.world.archs()[b].entity_rows().len() > 0 && 0 <= k
                        < self.world.archs()[b].ids().len() ==> #[trigger] self.reflectable(
                        type_registry,
                        self.world.archs()[b].ids()[k],
                    ),
            decreases self.world.archs().len() - a,
        {
            let arch = w.archetype(a);
            if arch.len() > 0 {
                let ids = arch.component_ids();
                let mut k: usize = 0;
                while k < ids.len()
                    invariant
                        self.world.wf(),
                        w == &self.world,
                        a < self.world.archs().len(),
                        *arch == self.world.archs()[a as int],
                        ids@ == arch.ids(),
                        arch.entity_rows().len() > 0,
                        k <= ids@.len(),
                        forall|b: int, k2: int|
                            0 <= b < a && self.world.archs()[b].entity_rows().len() > 0 && 0 <= k2
                                < self.world.archs()[b].ids().len() ==> #[trigger] self.reflectable(
                                type_registry,
                                self.world.archs()[b].ids()[k2],
                            ),
                        forall|k2: int| 0 <= k2 < k ==> #[trigger] self.reflectable(type_registry, ids@[k2]),
                    decreases ids@.len() - k,
                {
                    let c = ids[k];
                    proof {
                        assert(self.world.base_ok());
                        assert(self.world.archs()[a as int].wf());
                    }
                    let info = w.component_info(c);
                    match type_registry.get(info.type_key) {
                        None => {
                            proof {
                                assert(!self.reflectable(type_registry, self.world.archs()[a as int].ids()[k as int]));
                            }
                            return Err(SceneSpawnError::UnregisteredType { name: info.name.clone() });
                        },
                        Some(registration) => {
                            if registration.component.is_none() {
                                proof {
                                    assert(!self.reflectable(type_registry, self.world.archs()[a as int].ids()[k as int]));
                                }
                                return Err(
                                    SceneSpawnError::UnregisteredComponent { name: info.name.clone() },
                                );
                            }
                        },
                    }
                    k += 1;
                }
            }
            a += 1;
        }
        Ok(())
    }

    /// `ts[j]` is the id in `target` of the type of the `j`-th component of
    /// archetype `a` of the scene.
    pub open spec fn types_in(&self, target: &World, a: int, ts: Seq<ComponentId>) -> bool {
        let sids = self.world.archs()[a].ids();
        &&& ts.len() == sids.len()
        &&& forall|j: int|
            0 <= j < ts.len() ==> (#[trigger] ts[j] as int) < target.infos().len()
                && target.infos()[ts[j] as int].type_key == self.world.infos()[sids[j] as int].type_key
    }

    /// Registers in `target`, by key, the component types of archetype `a`
    /// of the scene, and returns their ids there in column order.
    fn register_types(&self, target: &mut World, a: usize) -> (ts: Vec<ComponentId>)
        requires
            self.world.wf(),
            old(target).wf(),
            a < self.world.archs().len(),
        ensures
            final(target).wf(),
            final(target).view() == old(target).view(),
            final(target).allocator() == old(target).allocator(),
            final(target).archs() == old(target).archs(),
            old(target).infos().is_prefix_of(final(target).infos()),
            self.types_in(&*final(target), a as int, ts@),
    {
        let w = &self.world;
        let sids = w.archetype(a).component_ids();
        proof {
            assert(self.world.base_ok());
            assert(self.world.archs()[a as int].wf());
        }
        let mut ts: Vec<ComponentId> = Vec::new();
        let mut k: usize = 0;
        while k < sids.len()
            invariant
                self.world.wf(),
                w == &self.world,
                a < self.world.archs().len(),
                sids@ == self.world.archs()[a as int].ids(),
                forall|j: int| 0 <= j < sids@.len() ==> #[trigger] sids@[j] < self.world.infos().len(),
                k <= sids@.len(),
                target.wf(),
                target.view() == old(target).view(),
                target.allocator() == old(target).allocator(),
                target.archs() == old(target).archs(),
                old(target).infos().is_prefix_of(target.infos()),
                ts@.len() == k,
                forall|j: int|
                    0 <= j < k ==> (#[trigger] ts@[j] as int) < target.infos().len()
                        && target.infos()[ts@[j] as int].type_key == self.world.infos()[sids@[j] as int].type_key,
            decreases sids@.len() - k,
        {
            let info = w.component_info(sids[k]);
            let ghost tk = *target;
            let t = target.init_component(info.name.clone(), info.type_key, info.size);
            ts.push(t);
            proof {
                assert forall|j: int|
                    0 <= j < k + 1 implies (#[trigger] ts@[j] as int) < target.infos().len()
                        && target.infos()[ts@[j] as int].type_key == self.world.infos()[sids@[j] as int].type_key by {
                    if j < k {
                        assert(tk.infos()[ts@[j] as int] == target.infos()[ts@[j] as int]);
                    }
                }
            }
            k += 1;
        }
        ts
    }

    /// The components of the entity in row `r` of archetype `a` of the scene,
    /// under their ids `ts` in `target`: the sorted ids and the values in the
    /// same order.
    fn translate_row(&self, target: &World, ts: &Vec<ComponentId>, a: usize, r: usize) -> (row: (Vec<ComponentId>, Vec<ComponentValue>))
        requires
            self.world.wf(),
            target.wf(),
            a < self.world.archs().len(),
            r < self.world.archetype_rows(a as int).len(),
            self.types_in(target, a as int, ts@),
        ensures
            row.0@ == sorted_ids(ts@),
            strictly_sorted(row.0@),
            row.0@.len() == row.1@.len(),
            forall|j: int| 0 <= j < row.0@.len() ==> #[trigger] row.0@[j] < target.infos().len(),
            copied_from(
                &self.world,
                target,
                self.world.view()[self.world.archetype_rows(a as int)[r as int]],
                row_map(row.0@, values_view(row.1@)),
            ),
    {
        let w = &self.world;
        let arch = w.archetype(a);
        let sids = arch.component_ids();
        let ghost src = self.world.archetype_rows(a as int)[r as int];
        proof {
            assert(self.world.base_ok());
            assert(self.world.archs()[a as int].wf());
            assert(target.base_ok());
            lemma_row_resolves(&self.world, a as int, r as int);
            lemma_location_resolves(&self.world, src);
        }
        let mut ids: Vec<ComponentId> = Vec::new();
        let mut vals: Vec<ComponentValue> = Vec::new();
        let mut k: usize = 0;
        while k < sids.len()
            invariant
                self.world.wf(),
                w == &self.world,
                *arch == self.world.archs()[a as int],
                arch.wf(),
                a < self.world.archs().len(),
                r < arch.entity_rows().len(),
                sids@ == arch.ids(),
                forall|j: int| 0 <= j < sids@.len() ==> #[trigger] sids@[j] < self.world.infos().len(),
                target.wf(),
                self.types_in(target, a as int, ts@),
                k <= sids@.len(),
                ids@ == sorted_ids(ts@.subrange(0, k as int)),
                ids@.len() == k,
                vals@.len() == k,
                strictly_sorted(ids@),
                forall|j: int| 0 <= j < k ==> #[trigger] ids@[j] < target.infos().len(),
                forall|j: int|
                    0 <= j < k ==> row_map(ids@, values_view(vals@)).contains_key(#[trigger] ts@[j])
                        && row_map(ids@, values_view(vals@))[ts@[j]] == arch.cell(j, r as int),
                forall|t: ComponentId|
                    #[trigger] row_map(ids@, values_view(vals@)).contains_key(t) ==> exists|j: int|
                        0 <= j < k && ts@[j] == t,
            decreases sids@.len() - k,
        {
            let t = ts[k];
            let v = copy_value(arch.value(k, r));
            let ghost rm = row_map(ids@, values_view(vals@));
            proof {
                assert(!ids@.contains(t)) by {
                    if ids@.contains(t) {
                        let j0 = choose|j0: int| 0 <= j0 < ids@.len() && ids@[j0] == t;
                        assert(rm.contains_key(t));
                        let j = choose|j: int| 0 <= j < k && ts@[j] == t;
                        assert(self.world.infos()[sids@[j] as int].type_key == self.world.infos()[sids@[k as int] as int].type_key);
                        assert(sids@[j] < sids@[k as int]);
                    }
                }
            }
            let p = insertion_point(&ids, t);
            let ghost ids0 = ids@;
            let ghost vals0 = values_view(vals@);
            let ghost vv = v@;
            ids.insert(p, t);
            vals.insert(p, v);
            proof {
                assert(ts@.subrange(0, k + 1).drop_last() =~= ts@.subrange(0, k as int));
                assert(ts@.subrange(0, k + 1).last() == t);
                assert(values_view(vals@) =~= vals0.insert(p as int, vv));
                lemma_row_map_insert(ids0, vals0, p as int, t, vv);
                let rm2 = row_map(ids@, values_view(vals@));
                assert(rm2 == rm.insert(t, vv));
                assert forall|j: int| 0 <= j < k + 1 implies #[trigger] ids@[j] < target.infos().len() by {
                    if j < p {
                        assert(ids@[j] == ids0[j]);
                    } else if j > p {
                        assert(ids@[j] == ids0[j - 1]);
                    }
                }
                assert forall|j: int|
                    0 <= j < k + 1 implies rm2.contains_key(#[trigger] ts@[j]) && rm2[ts@[j]] == arch.cell(j, r as int) by {
                    if j < k {
                        assert(ts@[j] != t) by {
                            assert(sids@[j] < sids@[k as int]);
                            if ts@[j] == t {
                                assert(self.world.infos()[sids@[j] as int].type_key == self.world.infos()[sids@[k as int] as int].type_key);
                            }
                        }
                    }
                }
                assert forall|x: ComponentId| #[trigger] rm2.contains_key(x) implies exists|j: int|
                    0 <= j < k + 1 && ts@[j] == x by {
                    if x == t {
                        assert(ts@[k as int] == x);
                    } else {
                        assert(rm.contains_key(x));
                    }
                }
            }
            k += 1;
        }
        proof {
            assert(ts@.subrange(0, k as int) =~= ts@);
            let n = row_map(ids@, values_view(vals@));
            let m = self.world.view()[src];
            assert(m == arch.row_view(self.world.location_of(src).row as int));
            assert forall|c: ComponentId| #[trigger] m.contains_key(c) implies ({
                let t = resolve(target, self.world.infos()[c as int].type_key);
                &&& t is Some
                &&& n.contains_key(t.unwrap())
                &&& n[t.unwrap()] == m[c]
            }) by {
                let j = choose|j: int| 0 <= j < sids@.len() && sids@[j] == c;
                lemma_col_of(sids@, j);
                lemma_resolve_is(target, ts@[j]);
            }
            assert forall|t: ComponentId| #[trigger] n.contains_key(t) implies exists|c: ComponentId|
                #[trigger] m.contains_key(c) && (t as int) < target.infos().len() && target.infos()[t as int].type_key
                    == self.world.infos()[c as int].type_key by {
                let j = choose|j: int| 0 <= j < k && ts@[j] == t;
                assert(sids@.contains(sids@[j]));
                assert(m.contains_key(sids@[j]));
            }
        }
        (ids, vals)
    }

    /// Spawns into `target` a copy of the entity in row `r` of archetype `a`
    /// of the scene, registering its component types in `target` by key.
    fn copy_entity(&self, target: &mut World, a: usize, r: usize) -> (dst: Entity)
        requires
            self.world.wf(),
            old(target).wf(),
            old(target).has_room(),
            a < self.world.archs().len(),
            r < self.world.archetype_rows(a as int).len(),
        ensures
            final(target).wf(),
            old(target).allocator().evolves_to(&final(target).allocator()),
            final(target).allocator().spec_room() == old(target).allocator().spec_room() - 1,
            final(target).archs().len() <= old(target).archs().len() + 1,
            old(target).infos().is_prefix_of(final(target).infos()),
            !old(target).view().contains_key(dst),
            final(target).view().contains_key(dst),
            final(target).view() == old(target).view().insert(dst, final(target).view()[dst]),
            copied_from(
                &self.world,
                &*final(target),
                self.world.view()[self.world.archetype_rows(a as int)[r as int]],
                final(target).view()[dst],
            ),
    {
        let ts = self.register_types(target, a);
        let (ids, vals) = self.translate_row(target, &ts, a, r);
        let ghost t1 = *target;
        proof {
            assert(t1.ids_error(ids@) is None);
        }
        let dst = target.spawn_row(ids, vals);
        proof {
            assert(target.infos() == t1.infos());
            assert(target.view() =~= old(target).view().insert(dst, target.view()[dst]));
        }
        dst
    }

    /// Writes a copy of every entity of the scene into `world`, registering
    /// their component types there by key. Fails, and leaves `world` as it
    /// was, when a component type of a scene entity has no registration with
    /// a component façade in `type_registry`.
    pub fn write_to_world_with(&self, world: &mut World, type_registry: &TypeRegistry) -> (r: Result<InstanceInfo, SceneSpawnError>)
        requires
            self.world.wf(),
            old(world).wf(),
            self.fits_into(&*old(world)),
        ensures
            final(world).wf(),
            old(world).allocator().evolves_to(&final(world).allocator()),
            r is Ok <==> self.copyable(type_registry),
            match r {
                Ok(info) => self.is_copy(old(world).view(), &*final(world), info.entity_map@),
                Err(SceneSpawnError::UnregisteredType { name }) => *final(world) == *old(world) && exists|c: ComponentId|
                    c < self.world.infos().len() && self.world.infos()[c as int].name == name && lookup(
                        type_registry.registrations@,
                        self.world.infos()[c as int].type_key,
                    ) is None,
                Err(SceneSpawnError::UnregisteredComponent { name }) => *final(world) == *old(world) && exists|c: ComponentId|
                    c < self.world.infos().len() && self.world.infos()[c as int].name == name
                        && lookup(type_registry.registrations@, self.world.infos()[c as int].type_key) is Some
                        && !self.reflectable(type_registry, c),
            },
    {
        match self.check_registered(type_registry) {
            Err(err) => {
                proof {
                    assert(old(world).allocator().evolves_to(&old(world).allocator()));
                }
                return Err(err);
            },
            Ok(()) => {},
        }
        let ghost t0 = *world;
        let ghost total = self.entity_total();
        let ghost sarchs = self.world.archs();
        let mut entity_map: Vec<(Entity, Entity)> = Vec::new();
        let w = &self.world;
        let mut a: usize = 0;
        while a < w.archetype_count()
            invariant
                self.world.wf(),
                w == &self.world,
                total == self.entity_total(),
                sarchs == self.world.archs(),
                a <= self.world.archs().len(),
                world.wf(),
                t0.allocator().evolves_to(&world.allocator()),
                t0.infos().is_prefix_of(world.infos()),
                entity_map@.len() == rows_before(sarchs, a as int),
                world.allocator().spec_room() >= total - entity_map@.len(),
                world.archs().len() + (total - entity_map@.len()) + 1 < usize::MAX,
                forall|i: int|
                    0 <= i < entity_map@.len() ==> {
                        &&& self.world.view().contains_key((#[trigger] entity_map@[i]).0)
                        &&& !t0.view().contains_key(entity_map@[i].1)
                        &&& world.view().contains_key(entity_map@[i].1)
                        &&& copied_from(&self.world, &*world, self.world.view()[entity_map@[i].0], world.view()[entity_map@[i].1])
                    },
                forall|i: int, j: int|
                    0 <= i < entity_map@.len() && 0 <= j < entity_map@.len() && i != j ==> (
                    #[trigger] entity_map@[i]).1 != (#[trigger] entity_map@[j]).1,
                firsts(entity_map@) == flat_rows(sarchs, a as int),
                forall|f: Entity| #[trigger] t0.view().contains_key(f) ==> world.view().contains_key(f) && world.view()[f] == t0.view()[f],
                forall|f: Entity|
                    #[trigger] world.view().contains_key(f) ==> t0.view().contains_key(f) || exists|i: int|
                        0 <= i < entity_map@.len() && entity_map@[i].1 == f,
            decreases self.world.archs().len() - a,
        {
            let n = w.archetype(a).len();
            let mut r: usize = 0;
            while r < n
                invariant
                    self.world.wf(),
                    w == &self.world,
                    total == self.entity_total(),
                    sarchs == self.world.archs(),
                sarchs == self.world.archs(),
                    a < self.world.archs().len(),
                    n == self.world.archetype_rows(a as int).len(),
                    r <= n,
                    world.wf(),
                    t0.allocator().evolves_to(&world.allocator()),
                    t0.infos().is_prefix_of(world.infos()),
                    entity_map@.len() == rows_before(sarchs, a as int) + r,
                    world.allocator().spec_room() >= total - entity_map@.len(),
                    world.archs().len() + (total - entity_map@.len()) + 1 < usize::MAX,
                    forall|i: int|
                        0 <= i < entity_map@.len() ==> {
                            &&& self.world.view().contains_key((#[trigger] entity_map@[i]).0)
                            &&& !t0.view().contains_key(entity_map@[i].1)
                            &&& world.view().contains_key(entity_map@[i].1)
                            &&& copied_from(&self.world, &*world, self.world.view()[entity_map@[i].0], world.view()[entity_map@[i].1])
                        },
                    forall|i: int, j: int|
                        0 <= i < entity_map@.len() && 0 <= j < entity_map@.len() && i != j ==> (
                        #[trigger] entity_map@[i]).1 != (#[trigger] entity_map@[j]).1,
                    firsts(entity_map@) == flat_rows(sarchs, a as int) + sarchs[a as int].entity_rows().subrange(0, r as int),
                    forall|f: Entity| #[trigger] t0.view().contains_key(f) ==> world.view().contains_key(f) && world.view()[f] == t0.view()[f],
                    forall|f: Entity|
                        #[trigger] world.view().contains_key(f) ==> t0.view().contains_key(f) || exists|i: int|
                            0 <= i < entity_map@.len() && entity_map@[i].1 == f,
                decreases n - r,
            {
                proof {
                    lemma_rows_before_mono(self.world.archs(), a as int + 1, self.world.archs().len() as int);
                }
                let src = w.archetype(a).entities()[r];
                let ghost wk = *world;
                let ghost mk = entity_map@;
                let dst = self.copy_entity(world, a, r);
                entity_map.push((src, dst));
                proof {
                    lemma_row_resolves(&self.world, a as int, r as int);
                    assert forall|i: int|
                        0 <= i < entity_map@.len() implies {
                            &&& self.world.view().contains_key((#[trigger] entity_map@[i]).0)
                            &&& !t0.view().contains_key(entity_map@[i].1)
                            &&& world.view().contains_key(entity_map@[i].1)
                            &&& copied_from(&self.world, &*world, self.world.view()[entity_map@[i].0], world.view()[entity_map@[i].1])
                        } by {
                        if i < mk.len() {
                            assert(entity_map@[i] == mk[i]);
                            assert(mk[i].1 != dst);
                            lemma_copied_from_stable(&self.world, &wk, &*world, self.world.view()[mk[i].0], wk.view()[mk[i].1]);
                        } else {
                            if t0.view().contains_key(dst) {
                                assert(wk.view().contains_key(dst));
                            }
                        }
                    }
                    assert forall|i: int, j: int|
                        0 <= i < entity_map@.len() && 0 <= j < entity_map@.len() && i != j implies (
                        #[trigger] entity_map@[i]).1 != (#[trigger] entity_map@[j]).1 by {
                        if i < mk.len() && j < mk.len() {
                            assert(entity_map@[i] == mk[i] && entity_map@[j] == mk[j]);
                        } else if i < mk.len() {
                            assert(entity_map@[i] == mk[i]);
                        } else {
                            assert(entity_map@[j] == mk[j]);
                        }
                    }
                    assert(firsts(entity_map@) =~= firsts(mk).push(src));
                    assert(sarchs[a as int].entity_rows().subrange(0, r + 1) =~= sarchs[a as int].entity_rows().subrange(0, r as int).push(src));
                    assert(firsts(entity_map@) =~= flat_rows(sarchs, a as int) + sarchs[a as int].entity_rows().subrange(0, r + 1));
                    assert forall|f: Entity|
                        #[trigger] world.view().contains_key(f) implies t0.view().contains_key(f) || exists|i: int|
                            0 <= i < entity_map@.len() && entity_map@[i].1 == f by {
                        if f == dst {
                            assert(entity_map@[mk.len() as int].1 == dst);
                        } else {
                            assert(wk.view().contains_key(f));
                            if !t0.view().contains_key(f) {
                                let i = choose|i: int| 0 <= i < mk.len() && mk[i].1 == f;
                                assert(entity_map@[i] == mk[i]);
                            }
                        }
                    }
                    assert forall|f: Entity| #[trigger] t0.view().contains_key(f) implies world.view().contains_key(f)
                        && world.view()[f] == t0.view()[f] by {
                        assert(f != dst);
                    }
                    lemma_evolves_trans(&t0.allocator(), &wk.allocator(), &world.allocator());
                }
                r += 1;
            }
            proof {
                assert(sarchs[a as int].entity_rows().subrange(0, r as int) =~= sarchs[a as int].entity_rows());
                assert(rows_before(sarchs, a + 1) == rows_before(sarchs, a as int) + n);
            }
            a += 1;
        }
        proof {
            assert(a == sarchs.len());
            assert(firsts(entity_map@) == flat_rows(sarchs, sarchs.len() as int));
            lemma_flat_rows_distinct(&self.world);
            assert(firsts(entity_map@) == flat_rows(sarchs, sarchs.len() as int));
            assert forall|e: Entity| #[trigger] self.world.view().contains_key(e) implies exists|i: int|
                0 <= i < entity_map@.len() && entity_map@[i].0 == e by {
                lemma_location_resolves(&self.world, e);
                let l = self.world.location_of(e);
                assert(self.world.archetype_rows(l.archetype_id as int)[l.row as int] == e);
                lemma_flat_rows_index(sarchs, sarchs.len() as int, l.archetype_id as int, l.row as int);
                lemma_rows_before_mono(sarchs, 0, l.archetype_id as int);
                let i = rows_before(sarchs, l.archetype_id as int) + l.row;
                assert(firsts(entity_map@)[i] == e);
                assert(entity_map@[i].0 == e);
            }
        }
        Ok(InstanceInfo { entity_map })
    }

    /// Writes a copy of every entity of the scene into `world` as
    /// `write_to_world_with` does, but spawns the copies of each archetype of
    /// the scene as one batch, with storage reserved for all of it up front.
    pub fn very_fast_write_to_world_with(&self, world: &mut World, type_registry: &TypeRegistry) -> (r: Result<InstanceInfo, SceneSpawnError>)
        requires
            self.world.wf(),
            old(world).wf(),
            self.fits_into(&*old(world)),
        ensures
            final(world).wf(),
            old(world).allocator().evolves_to(&final(world).allocator()),
            r is Ok <==> self.copyable(type_registry),
            match r {
                Ok(info) => self.is_copy(old(world).view(), &*final(world), info.entity_map@),
                Err(SceneSpawnError::UnregisteredType { name }) => *final(world) == *old(world) && exists|c: ComponentId|
                    c < self.world.infos().len() && self.world.infos()[c as int].name == name && lookup(
                        type_registry.registrations@,
                        self.world.infos()[c as int].type_key,
                    ) is None,
                Err(SceneSpawnError::UnregisteredComponent { name }) => *final(world) == *old(world) && exists|c: ComponentId|
                    c < self.world.infos().len() && self.world.infos()[c as int].name == name
                        && lookup(type_registry.registrations@, self.world.infos()[c as int].type_key) is Some
                        && !self.reflectable(type_registry, c),
            },
    {
        match self.check_registered(type_registry) {
            Err(err) => {
                proof {
                    assert(old(world).allocator().evolves_to(&old(world).allocator()));
                }
                return Err(err);
            },
            Ok(()) => {},
        }
        let ghost t0 = *world;
        let ghost total = self.entity_total();
        let ghost sarchs = self.world.archs();
        let mut entity_map: Vec<(Entity, Entity)> = Vec::new();
        let w = &self.world;
        let mut a: usize = 0;
        while a < w.archetype_count()
            invariant
                self.world.wf(),
                w == &self.world,
                total == self.entity_total(),
                sarchs == self.world.archs(),
                a <= self.world.archs().len(),
                world.wf(),
                t0.allocator().evolves_to(&world.allocator()),
                t0.infos().is_prefix_of(world.infos()),
                entity_map@.len() == rows_before(sarchs, a as int),
                world.allocator().spec_room() >= total - entity_map@.len(),
                world.archs().len() + (total - entity_map@.len()) + 1 < usize::MAX,
                forall|i: int|
                    0 <= i < entity_map@.len() ==> {
                        &&& self.world.view().contains_key((#[trigger] entity_map@[i]).0)
                        &&& !t0.view().contains_key(entity_map@[i].1)
                        &&& world.view().contains_key(entity_map@[i].1)
                        &&& copied_from(&self.world, &*world, self.world.view()[entity_map@[i].0], world.view()[entity_map@[i].1])
                    },
                forall|i: int, j: int|
                    0 <= i < entity_map@.len() && 0 <= j < entity_map@.len() && i != j ==> (
                    #[trigger] entity_map@[i]).1 != (#[trigger] entity_map@[j]).1,
                firsts(entity_map@) == flat_rows(sarchs, a as int),
                forall|f: Entity| #[trigger] t0.view().contains_key(f) ==> world.view().contains_key(f) && world.view()[f] == t0.view()[f],
                forall|f: Entity|
                    #[trigger] world.view().contains_key(f) ==> t0.view().contains_key(f) || exists|i: int|
                        0 <= i < entity_map@.len() && entity_map@[i].1 == f,
            decreases self.world.archs().len() - a,
        {
            let rows = w.archetype(a).entities();
            let n = rows.len();
            if n > 0 {
                proof {
                    lemma_rows_before_mono(sarchs, a as int + 1, sarchs.len() as int);
                    lemma_rows_before_mono(sarchs, 0, a as int);
                }
                let ghost wk = *world;
                let ghost mk = entity_map@;
                let ts = self.register_types(world, a);
                let ghost w1 = *world;
                let (kind, first) = self.translate_row(world, &ts, a, 0);
                let mut bundles: Vec<Vec<ComponentValue>> = Vec::new();
                bundles.push(first);
                let mut r: usize = 1;
                while r < n
                    invariant
                        self.world.wf(),
                        w == &self.world,
                        a < self.world.archs().len(),
                        n == self.world.archetype_rows(a as int).len(),
                        1 <= r <= n,
                        *world == w1,
                        w1.wf(),
                        self.types_in(&w1, a as int, ts@),
                        kind@ == sorted_ids(ts@),
                        bundles@.len() == r,
                        forall|i: int|
                            0 <= i < r ==> (#[trigger] bundles@[i])@.len() == kind@.len() && copied_from(
                                &self.world,
                                &w1,
                                self.world.view()[self.world.archetype_rows(a as int)[i]],
                                row_map(kind@, values_view(bundles@[i]@)),
                            ),
                    decreases n - r,
                {
                    let (ids, vals) = self.translate_row(world, &ts, a, r);
                    bundles.push(vals);
                    proof {
                        assert(bundles@[r as int] == vals);
                    }
                    r += 1;
                }
                proof {
                    assert(w1.ids_error(kind@) is None);
                    assert forall|i: int| 0 <= i < bundles_view(bundles@).len() implies (#[trigger] bundles_view(
                        bundles@,
                    )[i]).len() == kind@.len() by {
                        assert(bundles@[i]@.len() == kind@.len());
                    }
                }
                let ghost input = bundles_view(bundles@);
                let mut taken = World::new();
                std::mem::swap(world, &mut taken);
                let info = match taken.init_bundle(copy_ids(&kind)) {
                    Ok(info) => info,
                    Err(_) => unreached(),
                };
                let it = SpawnBatchIter::new(taken, &info, bundles);
                let (back, es) = it.finish();
                *world = back;
                let mut i: usize = 0;
                while i < n
                    invariant
                        i <= n,
                        n == rows@.len(),
                        es@.len() == n,
                        entity_map@.len() == mk.len() + i,
                        forall|j: int| 0 <= j < mk.len() ==> #[trigger] entity_map@[j] == mk[j],
                        forall|j: int| 0 <= j < i ==> #[trigger] entity_map@[mk.len() + j] == (rows@[j], es@[j]),
                    decreases n - i,
                {
                    entity_map.push((rows[i], es[i]));
                    i += 1;
                }
                proof {
                    let wf_ = *world;
                    assert(wf_.infos() == w1.infos());
                    assert(wk.infos().is_prefix_of(wf_.infos()));
                    assert(wf_.base_ok());
                    lemma_evolves_trans(&t0.allocator(), &wk.allocator(), &wf_.allocator());
                    assert forall|j: int|
                        0 <= j < entity_map@.len() implies {
                            &&& self.world.view().contains_key((#[trigger] entity_map@[j]).0)
                            &&& !t0.view().contains_key(entity_map@[j].1)
                            &&& wf_.view().contains_key(entity_map@[j].1)
                            &&& copied_from(&self.world, &wf_, self.world.view()[entity_map@[j].0], wf_.view()[entity_map@[j].1])
                        } by {
                        if j < mk.len() {
                            assert(entity_map@[j] == mk[j]);
                            assert(wk.view().contains_key(mk[j].1));
                            assert(w1.view().contains_key(mk[j].1));
                            lemma_copied_from_stable(&self.world, &wk, &wf_, self.world.view()[mk[j].0], wk.view()[mk[j].1]);
                        } else {
                            let q = j - mk.len();
                            assert(entity_map@[mk.len() + q] == (rows@[q], es@[q]));
                            lemma_row_resolves(&self.world, a as int, q);
                            assert(input[q] == values_view(bundles@[q]@));
                            lemma_copied_from_stable(&self.world, &w1, &wf_, self.world.view()[rows@[q]], row_map(kind@, input[q]));
                            if t0.view().contains_key(es@[q]) {
                                assert(wk.view().contains_key(es@[q]));
                            }
                        }
                    }
                    assert forall|x: int, y: int|
                        0 <= x < entity_map@.len() && 0 <= y < entity_map@.len() && x != y implies (
                        #[trigger] entity_map@[x]).1 != (#[trigger] entity_map@[y]).1 by {
                        if x < mk.len() && y < mk.len() {
                            assert(entity_map@[x] == mk[x] && entity_map@[y] == mk[y]);
                        } else if x < mk.len() {
                            assert(entity_map@[x] == mk[x]);
                            assert(entity_map@[mk.len() + (y - mk.len())] == (rows@[y - mk.len()], es@[y - mk.len()]));
                            assert(wk.view().contains_key(mk[x].1));
                        } else if y < mk.len() {
                            assert(entity_map@[y] == mk[y]);
                            assert(entity_map@[mk.len() + (x - mk.len())] == (rows@[x - mk.len()], es@[x - mk.len()]));
                            assert(wk.view().contains_key(mk[y].1));
                        } else {
                            assert(entity_map@[mk.len() + (x - mk.len())] == (rows@[x - mk.len()], es@[x - mk.len()]));
                            assert(entity_map@[mk.len() + (y - mk.len())] == (rows@[y - mk.len()], es@[y - mk.len()]));
                        }
                    }
                    assert(firsts(entity_map@) =~= firsts(mk) + rows@) by {
                        assert forall|j: int| 0 <= j < entity_map@.len() implies firsts(entity_map@)[j]
                            == (firsts(mk) + rows@)[j] by {
                            if j < mk.len() {
                                assert(entity_map@[j] == mk[j]);
                            } else {
                                assert(entity_map@[mk.len() + (j - mk.len())] == (rows@[j - mk.len()], es@[j - mk.len()]));
                            }
                        }
                    }
                    assert(flat_rows(sarchs, a + 1) == flat_rows(sarchs, a as int) + sarchs[a as int].entity_rows());
                    assert forall|f: Entity|
                        #[trigger] wf_.view().contains_key(f) implies t0.view().contains_key(f) || exists|j: int|
                            0 <= j < entity_map@.len() && entity_map@[j].1 == f by {
                        if es@.contains(f) {
                            let q = choose|q: int| 0 <= q < es@.len() && es@[q] == f;
                            assert(entity_map@[mk.len() + q] == (rows@[q], es@[q]));
                        } else {
                            assert(w1.view().contains_key(f));
                            assert(wk.view().contains_key(f));
                            if !t0.view().contains_key(f) {
                                let j = choose|j: int| 0 <= j < mk.len() && mk[j].1 == f;
                                assert(entity_map@[j] == mk[j]);
                            }
                        }
                    }
                    assert forall|f: Entity| #[trigger] t0.view().contains_key(f) implies wf_.view().contains_key(f)
                        && wf_.view()[f] == t0.view()[f] by {
                        assert(wk.view().contains_key(f));
                        assert(w1.view().contains_key(f));
                    }
                }
            } else {
                proof {
                    assert(flat_rows(sarchs, a + 1) =~= flat_rows(sarchs, a as int));
                }
            }
            a += 1;
        }
        proof {
            assert(a == sarchs.len());
            assert(firsts(entity_map@) == flat_rows(sarchs, sarchs.len() as int));
            lemma_flat_rows_distinct(&self.world);
            assert forall|e: Entity| #[trigger] self.world.view().contains_key(e) implies exists|i: int|
                0 <= i < entity_map@.len() && entity_map@[i].0 == e by {
                lemma_location_resolves(&self.world, e);
                let l = self.world.location_of(e);
                lemma_flat_rows_index(sarchs, sarchs.len() as int, l.archetype_id as int, l.row as int);
                lemma_rows_before_mono(sarchs, 0, l.archetype_id as int);
                let i = rows_before(sarchs, l.archetype_id as int) + l.row;
                assert(firsts(entity_map@)[i] == e);
                assert(entity_map@[i].0 == e);
            }
        }
        Ok(InstanceInfo { entity_map })
    }

    /// A new scene whose world holds a copy of every entity of this one, made
    /// through `type_registry`.
    pub fn clone_with(&self, type_registry: &TypeRegistry) -> (r: Result<Scene, SceneSpawnError>)
        requires
            self.world.wf(),
            self.entity_total() <= u32::MAX,
            self.entity_total() + 1 < usize::MAX,
        ensures
            r is Ok <==> self.copyable(type_registry),
            match r {
                Ok(scene) => scene.world.wf() && exists|map: Seq<(Entity, Entity)>|
                    self.is_copy(Map::empty(), &scene.world, map),
                Err(SceneSpawnError::UnregisteredType { name }) => exists|c: ComponentId|
                    c < self.world.infos().len() && self.world.infos()[c as int].name == name && lookup(
                        type_registry.registrations@,
                        self.world.infos()[c as int].type_key,
                    ) is None,
                Err(SceneSpawnError::UnregisteredComponent { name }) => exists|c: ComponentId|
                    c < self.world.infos().len() && self.world.infos()[c as int].name == name
                        && lookup(type_registry.registrations@, self.world.infos()[c as int].type_key) is Some
                        && !self.reflectable(type_registry, c),
            },
    {
        let mut new_world = World::new();
        match self.write_to_world_with(&mut new_world, type_registry) {
            Ok(info) => {
                let scene = Scene { world: new_world };
                proof {
                    assert(scene.world.wf());
                    assert(self.is_copy(Map::empty(), &scene.world, info.entity_map@));
                    assert(exists|map: Seq<(Entity, Entity)>| self.is_copy(Map::empty(), &scene.world, map));
                }
                Ok(scene)
            },
            Err(err) => Err(err),
        }
    }
}

} // verus!
