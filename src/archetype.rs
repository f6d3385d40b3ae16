//! Archetype tables: columnar storage for all entities that share one exact
//! set of components.
use vstd::prelude::*;
use crate::entity::Entity;

verus! {

/// Numeric handle of a component type inside one world.
pub type ComponentId = usize;

/// The type-erased bytes of one component value.
pub type ComponentValue = Vec<u8>;

/// Every element is smaller than the next: a sorted list without repeats.
pub open spec fn strictly_sorted(s: Seq<ComponentId>) -> bool {
    forall|i: int, j: int| 0 <= i < j < s.len() ==> s[i] < s[j]
}

/// The position of `c` in `s`.
pub open spec fn col_of(s: Seq<ComponentId>, c: ComponentId) -> int {
    choose|j: int| 0 <= j < s.len() && s[j] == c
}

/// The components of one row, given the sorted ids and the values in the same order.
pub open spec fn row_map(ids: Seq<ComponentId>, vals: Seq<Seq<u8>>) -> Map<ComponentId, Seq<u8>> {
    Map::new(|c: ComponentId| ids.contains(c), |c: ComponentId| vals[col_of(ids, c)])
}

/// The values of a row of vectors, as byte sequences.
pub open spec fn values_view(row: Seq<ComponentValue>) -> Seq<Seq<u8>> {
    Seq::new(row.len(), |j: int| row[j]@)
}

pub proof fn lemma_col_of(s: Seq<ComponentId>, j: int)
    requires
        strictly_sorted(s),
        0 <= j < s.len(),
    ensures
        col_of(s, s[j]) == j,
{
    let k = col_of(s, s[j]);
    assert(0 <= k < s.len() && s[k] == s[j]);
}

/// Adding a component at its sorted place adds it to the row's map.
pub proof fn lemma_row_map_insert(
    ids: Seq<ComponentId>,
    vals: Seq<Seq<u8>>,
    p: int,
    c: ComponentId,
    v: Seq<u8>,
)
    requires
        strictly_sorted(ids),
        strictly_sorted(ids.insert(p, c)),
        0 <= p <= ids.len(),
        vals.len() == ids.len(),
    ensures
        row_map(ids.insert(p, c), vals.insert(p, v)) == row_map(ids, vals).insert(c, v),
{
    let ni = ids.insert(p, c);
    let nv = vals.insert(p, v);
    let a = row_map(ni, nv);
    let b = row_map(ids, vals).insert(c, v);
    assert forall|x: ComponentId| a.contains_key(x) == b.contains_key(x) by {
        if ids.contains(x) {
            let j = choose|j: int| 0 <= j < ids.len() && ids[j] == x;
            if j < p {
                assert(ni[j] == x);
            } else {
                assert(ni[j + 1] == x);
            }
        }
        if ni.contains(x) {
            let j = choose|j: int| 0 <= j < ni.len() && ni[j] == x;
            if j < p {
                assert(ids[j] == x);
            } else if j > p {
                assert(ids[j - 1] == x);
            }
        }
        if x == c {
            assert(ni[p] == c);
        }
    }
    assert forall|x: ComponentId| #[trigger] a.contains_key(x) implies a[x] == b[x] by {
        let j = choose|j: int| 0 <= j < ni.len() && ni[j] == x;
        lemma_col_of(ni, j);
        assert(ni[p] == c);
        if j < p {
            assert(ids[j] == x);
            assert(x != c);
            lemma_col_of(ids, j);
            assert(nv[j] == vals[j]);
        } else if j > p {
            assert(ids[j - 1] == x);
            assert(x != c);
            lemma_col_of(ids, j - 1);
            assert(nv[j] == vals[j - 1]);
        } else {
            assert(nv[p] == v);
        }
    }
    assert(a =~= b);
}

/// Dropping the component at place `p` drops it from the row's map.
pub proof fn lemma_row_map_remove(ids: Seq<ComponentId>, vals: Seq<Seq<u8>>, p: int)
    requires
        strictly_sorted(ids),
        0 <= p < ids.len(),
        vals.len() == ids.len(),
    ensures
        row_map(ids.remove(p), vals.remove(p)) == row_map(ids, vals).remove(ids[p]),
{
    let ni = ids.remove(p);
    let nv = vals.remove(p);
    let a = row_map(ni, nv);
    let b = row_map(ids, vals).remove(ids[p]);
    assert forall|x: ComponentId| a.contains_key(x) == b.contains_key(x) by {
        if ids.contains(x) && x != ids[p] {
            let j = choose|j: int| 0 <= j < ids.len() && ids[j] == x;
            if j < p {
                assert(ni[j] == x);
            } else {
                assert(ni[j - 1] == x);
            }
        }
        if ni.contains(x) {
            let j = choose|j: int| 0 <= j < ni.len() && ni[j] == x;
            if j < p {
                assert(ids[j] == x);
            } else {
                assert(ids[j + 1] == x);
            }
        }
    }
    assert forall|x: ComponentId| #[trigger] a.contains_key(x) implies a[x] == b[x] by {
        let j = choose|j: int| 0 <= j < ni.len() && ni[j] == x;
        assert(strictly_sorted(ni));
        lemma_col_of(ni, j);
        if j < p {
            assert(ids[j] == x);
            lemma_col_of(ids, j);
        } else {
            assert(ids[j + 1] == x);
            lemma_col_of(ids, j + 1);
        }
    }
    assert(a =~= b);
}

/// Replacing the value of the component at place `j` replaces it in the row's map.
pub proof fn lemma_row_map_update(ids: Seq<ComponentId>, vals: Seq<Seq<u8>>, j: int, v: Seq<u8>)
    requires
        strictly_sorted(ids),
        0 <= j < ids.len(),
        vals.len() == ids.len(),
    ensures
        row_map(ids, vals.update(j, v)) == row_map(ids, vals).insert(ids[j], v),
{
    let a = row_map(ids, vals.update(j, v));
    let b = row_map(ids, vals).insert(ids[j], v);
    assert(ids.contains(ids[j]));
    assert forall|x: ComponentId| #[trigger] a.contains_key(x) implies a[x] == b[x] by {
        let k = choose|k: int| 0 <= k < ids.len() && ids[k] == x;
        lemma_col_of(ids, k);
    }
    assert(a =~= b);
}

/// Removing one element keeps a sorted list sorted.
pub proof fn lemma_sorted_remove(s: Seq<ComponentId>, p: int)
    requires
        strictly_sorted(s),
        0 <= p < s.len(),
    ensures
        strictly_sorted(s.remove(p)),
        !s.remove(p).contains(s[p]),
{
    let t = s.remove(p);
    assert forall|i: int, j: int| 0 <= i < j < t.len() implies t[i] < t[j] by {
        let i2 = if i < p { i } else { i + 1 };
        let j2 = if j < p { j } else { j + 1 };
        assert(t[i] == s[i2] && t[j] == s[j2]);
    }
    if t.contains(s[p]) {
        let k = choose|k: int| 0 <= k < t.len() && t[k] == s[p];
        let k2 = if k < p { k } else { k + 1 };
        assert(t[k] == s[k2]);
    }
}

/// The place of `c` in the sorted list `s`: everything before it is smaller,
/// everything from it on is larger.
pub open spec fn insertion_index(s: Seq<ComponentId>, c: ComponentId) -> int {
    choose|p: int| #[trigger] splits_at(s, c, p)
}

/// Everything of `s` before place `p` is smaller than `c`, everything from it on larger.
pub open spec fn splits_at(s: Seq<ComponentId>, c: ComponentId, p: int) -> bool {
    &&& 0 <= p <= s.len()
    &&& forall|k: int| 0 <= k < p ==> s[k] < c
    &&& forall|k: int| p <= k < s.len() ==> s[k] > c
}

/// The sorted list of the ids `ts`, inserted one after another.
pub open spec fn sorted_ids(ts: Seq<ComponentId>) -> Seq<ComponentId>
    decreases ts.len(),
{
    if ts.len() == 0 {
        Seq::empty()
    } else {
        let b = sorted_ids(ts.drop_last());
        b.insert(insertion_index(b, ts.last()), ts.last())
    }
}

/// Where `c` goes in the sorted list `ids`.
pub fn insertion_point(ids: &Vec<ComponentId>, c: ComponentId) -> (p: usize)
    requires
        strictly_sorted(ids@),
        !ids@.contains(c),
    ensures
        p <= ids@.len(),
        p == insertion_index(ids@, c),
        strictly_sorted(ids@.insert(p as int, c)),
{
    let mut p: usize = 0;
    while p < ids.len() && ids[p] < c
        invariant
            p <= ids@.len(),
            forall|k: int| 0 <= k < p ==> ids@[k] < c,
        decreases ids@.len() - p,
    {
        p += 1;
    }
    proof {
        let t = ids@.insert(p as int, c);
        assert forall|k: int| p <= k < ids@.len() implies c < ids@[k] by {
            assert(ids@[k] != c);
            if k > p {
                assert(ids@[p as int] < ids@[k]);
            }
        }
        assert(splits_at(ids@, c, p as int));
        let q = insertion_index(ids@, c);
        if q < p {
            assert(ids@[q] < c);
        } else if q > p {
            assert(ids@[p as int] > c);
        }
        assert forall|i: int, j: int| 0 <= i < j < t.len() implies t[i] < t[j] by {
            if j < p {
                assert(t[i] == ids@[i] && t[j] == ids@[j]);
            } else if j == p {
                assert(t[i] == ids@[i]);
            } else if i < p {
                assert(t[i] == ids@[i] && t[j] == ids@[j - 1]);
            } else if i == p {
                assert(t[j] == ids@[j - 1]);
            } else {
                assert(t[i] == ids@[i - 1] && t[j] == ids@[j - 1]);
            }
        }
    }
    p
}

/// In a list without repeats, the position of an element is where it stands.
pub proof fn lemma_col_of_distinct(s: Seq<ComponentId>, j: int)
    requires
        s.no_duplicates(),
        0 <= j < s.len(),
    ensures
        col_of(s, s[j]) == j,
{
    let k = col_of(s, s[j]);
    assert(0 <= k < s.len() && s[k] == s[j]);
}

/// Appending a new component to a row adds it to the row's map.
pub proof fn lemma_row_map_push(ids: Seq<ComponentId>, vals: Seq<Seq<u8>>, c: ComponentId, v: Seq<u8>)
    requires
        ids.push(c).no_duplicates(),
        ids.len() == vals.len(),
    ensures
        row_map(ids.push(c), vals.push(v)) == row_map(ids, vals).insert(c, v),
{
    let ni = ids.push(c);
    let nv = vals.push(v);
    let a = row_map(ni, nv);
    let b = row_map(ids, vals).insert(c, v);
    assert(ni[ids.len() as int] == c);
    assert forall|x: ComponentId| a.contains_key(x) == b.contains_key(x) by {
        if ids.contains(x) {
            let j = choose|j: int| 0 <= j < ids.len() && ids[j] == x;
            assert(ni[j] == x);
        }
        if ni.contains(x) && x != c {
            let j = choose|j: int| 0 <= j < ni.len() && ni[j] == x;
            assert(ids[j] == x);
        }
    }
    assert forall|x: ComponentId| #[trigger] a.contains_key(x) implies a[x] == b[x] by {
        let j = choose|j: int| 0 <= j < ni.len() && ni[j] == x;
        lemma_col_of_distinct(ni, j);
        if j < ids.len() {
            assert(ids[j] == x);
            assert(x != c);
            assert(ids.no_duplicates()) by {
                assert forall|p: int, q: int| 0 <= p < ids.len() && 0 <= q < ids.len() && p != q implies ids[p] != ids[q] by {
                    assert(ni[p] == ids[p] && ni[q] == ids[q]);
                }
            }
            lemma_col_of_distinct(ids, j);
        }
    }
    assert(a =~= b);
}

/// The ids of `ids`, which has no repeats, in increasing order.
pub fn sort_ids(ids: &Vec<ComponentId>) -> (r: Vec<ComponentId>)
    requires
        ids@.no_duplicates(),
    ensures
        r@ == sorted_ids(ids@),
        r@.len() == ids@.len(),
        strictly_sorted(r@),
        forall|c: ComponentId| r@.contains(c) <==> ids@.contains(c),
{
    let mut r: Vec<ComponentId> = Vec::new();
    let mut k: usize = 0;
    while k < ids.len()
        invariant
            k <= ids@.len(),
            ids@.no_duplicates(),
            r@ == sorted_ids(ids@.subrange(0, k as int)),
            r@.len() == k,
            strictly_sorted(r@),
            forall|c: ComponentId| r@.contains(c) <==> ids@.subrange(0, k as int).contains(c),
        decreases ids@.len() - k,
    {
        let t = ids[k];
        proof {
            if ids@.subrange(0, k as int).contains(t) {
                let j = choose|j: int| 0 <= j < k && ids@.subrange(0, k as int)[j] == t;
                assert(ids@[j] == ids@[k as int]);
            }
        }
        let p = insertion_point(&r, t);
        let ghost r0 = r@;
        r.insert(p, t);
        proof {
            let sub1 = ids@.subrange(0, k + 1);
            assert(sub1.drop_last() =~= ids@.subrange(0, k as int));
            assert(sub1.last() == t);
            assert forall|c: ComponentId| r@.contains(c) <==> sub1.contains(c) by {
                if r@.contains(c) {
                    let j = choose|j: int| 0 <= j < r@.len() && r@[j] == c;
                    if c != t {
                        if j < p {
                            assert(r0[j] == c);
                        } else {
                            assert(r0[j - 1] == c);
                        }
                        assert(r0.contains(c));
                        assert(ids@.subrange(0, k as int).contains(c));
                        let q = choose|q: int| 0 <= q < k && ids@.subrange(0, k as int)[q] == c;
                        assert(sub1[q] == c);
                    } else {
                        assert(sub1[k as int] == c);
                    }
                }
                if sub1.contains(c) {
                    let q = choose|q: int| 0 <= q < sub1.len() && sub1[q] == c;
                    if q < k {
                        assert(ids@.subrange(0, k as int)[q] == c);
                        assert(ids@.subrange(0, k as int).contains(c));
                        assert(r0.contains(c));
                        let j = choose|j: int| 0 <= j < r0.len() && r0[j] == c;
                        if j < p {
                            assert(r@[j] == c);
                        } else {
                            assert(r@[j + 1] == c);
                        }
                    } else {
                        assert(r@[p as int] == t);
                    }
                }
            }
        }
        k += 1;
    }
    assert(ids@.subrange(0, k as int) =~= ids@);
    r
}

/// A copy of a value.
pub fn copy_value(v: &ComponentValue) -> (r: ComponentValue)
    ensures
        r@ == v@,
{
    let mut r: Vec<u8> = Vec::new();
    let mut k: usize = 0;
    while k < v.len()
        invariant
            k <= v@.len(),
            r@ == v@.subrange(0, k as int),
        decreases v@.len() - k,
    {
        r.push(v[k]);
        k += 1;
    }
    assert(r@ =~= v@);
    r
}

/// The values of one bundle reordered so that their ids, `ids` without
/// repeats, are increasing: the ids come out as `sort_ids` gives them.
pub fn sort_bundle(ids: &Vec<ComponentId>, vals: &Vec<ComponentValue>) -> (r: (Vec<ComponentId>, Vec<ComponentValue>))
    requires
        ids@.no_duplicates(),
        vals@.len() == ids@.len(),
    ensures
        r.0@ == sorted_ids(ids@),
        strictly_sorted(r.0@),
        r.1@.len() == ids@.len(),
        row_map(r.0@, values_view(r.1@)) == row_map(ids@, values_view(vals@)),
{
    let ghost vv = values_view(vals@);
    let mut out_ids: Vec<ComponentId> = Vec::new();
    let mut out_vals: Vec<ComponentValue> = Vec::new();
    let mut k: usize = 0;
    while k < ids.len()
        invariant
            k <= ids@.len(),
            ids@.no_duplicates(),
            vals@.len() == ids@.len(),
            vv == values_view(vals@),
            out_ids@ == sorted_ids(ids@.subrange(0, k as int)),
            strictly_sorted(out_ids@),
            out_ids@.len() == k,
            out_vals@.len() == k,
            row_map(out_ids@, values_view(out_vals@)) == row_map(ids@.subrange(0, k as int), vv.subrange(0, k as int)),
        decreases ids@.len() - k,
    {
        let t = ids[k];
        let v = copy_value(&vals[k]);
        let ghost rm = row_map(out_ids@, values_view(out_vals@));
        proof {
            if out_ids@.contains(t) {
                let j0 = choose|j0: int| 0 <= j0 < out_ids@.len() && out_ids@[j0] == t;
                assert(rm.contains_key(t));
                assert(ids@.subrange(0, k as int).contains(t));
                let j = choose|j: int| 0 <= j < k && ids@.subrange(0, k as int)[j] == t;
                assert(ids@[j] == ids@[k as int]);
            }
        }
        let p = insertion_point(&out_ids, t);
        let ghost ids0 = out_ids@;
        let ghost vals0 = values_view(out_vals@);
        let ghost vk = v@;
        out_ids.insert(p, t);
        out_vals.insert(p, v);
        proof {
            assert(values_view(out_vals@) =~= vals0.insert(p as int, vk));
            lemma_row_map_insert(ids0, vals0, p as int, t, vk);
            let sub1 = ids@.subrange(0, k + 1);
            assert(sub1.drop_last() =~= ids@.subrange(0, k as int));
            assert(sub1 =~= ids@.subrange(0, k as int).push(t));
            assert(vv.subrange(0, k + 1) =~= vv.subrange(0, k as int).push(vk));
            assert(sub1.no_duplicates()) by {
                assert forall|p1: int, q1: int| 0 <= p1 < sub1.len() && 0 <= q1 < sub1.len() && p1 != q1 implies sub1[p1] != sub1[q1] by {
                    assert(sub1[p1] == ids@[p1] && sub1[q1] == ids@[q1]);
                }
            }
            lemma_row_map_push(ids@.subrange(0, k as int), vv.subrange(0, k as int), t, vk);
        }
        k += 1;
    }
    assert(ids@.subrange(0, k as int) =~= ids@);
    assert(vv.subrange(0, k as int) =~= vv);
    (out_ids, out_vals)
}

/// A copy of a list of ids.
pub fn copy_ids(ids: &Vec<ComponentId>) -> (r: Vec<ComponentId>)
    ensures
        r@ == ids@,
{
    let mut r: Vec<ComponentId> = Vec::new();
    let mut k: usize = 0;
    while k < ids.len()
        invariant
            k <= ids@.len(),
            r@ == ids@.subrange(0, k as int),
        decreases ids@.len() - k,
    {
        r.push(ids[k]);
        k += 1;
    }
    assert(r@ =~= ids@);
    r
}

/// One row removed by moving the last row into its place.
pub open spec fn swap_removed<T>(s: Seq<T>, r: int) -> Seq<T> {
    s.update(r, s.last()).drop_last()
}

/// The table of one archetype: the sorted component ids, one column per id,
/// and the entity that owns each row. All columns have one value per row.
pub struct Archetype {
    components: Vec<ComponentId>,
    entities: Vec<Entity>,
    columns: Vec<Vec<ComponentValue>>,
}

impl Archetype {
    /// The component ids of this archetype, sorted.
    pub closed spec fn ids(&self) -> Seq<ComponentId> {
        self.components@
    }

    /// The entity that owns each row.
    pub closed spec fn entity_rows(&self) -> Seq<Entity> {
        self.entities@
    }

    /// The value in column `j` at row `r`.
    pub closed spec fn cell(&self, j: int, r: int) -> Seq<u8> {
        self.columns@[j]@[r]@
    }

    pub closed spec fn columns_ok(&self) -> bool {
        &&& self.columns@.len() == self.components@.len()
        &&& forall|j: int|
            0 <= j < self.columns@.len() ==> #[trigger] self.columns@[j]@.len()
                == self.entities@.len()
    }

    pub open spec fn wf(&self) -> bool {
        &&& strictly_sorted(self.ids())
        &&& self.columns_ok()
    }

    /// The values of row `r`, in the order of the ids.
    pub open spec fn row_values(&self, r: int) -> Seq<Seq<u8>> {
        Seq::new(self.ids().len(), |j: int| self.cell(j, r))
    }

    /// The components of row `r`.
    pub open spec fn row_view(&self, r: int) -> Map<ComponentId, Seq<u8>> {
        row_map(self.ids(), self.row_values(r))
    }

    /// A table never has more rows than a `usize` counts.
    pub proof fn lemma_rows_fit(&self)
        ensures
            self.entity_rows().len() <= usize::MAX,
    {
        assert(self.entities@.len() == self.entities.len());
    }

    pub fn new(ids: Vec<ComponentId>) -> (r: Archetype)
        requires
            strictly_sorted(ids@),
        ensures
            r.wf(),
            r.ids() == ids@,
            r.entity_rows().len() == 0,
    {
        let mut columns: Vec<Vec<ComponentValue>> = Vec::new();
        let mut j: usize = 0;
        while j < ids.len()
            invariant
                j <= ids@.len(),
                columns@.len() == j,
                forall|k: int| 0 <= k < j ==> #[trigger] columns@[k]@.len() == 0,
            decreases ids@.len() - j,
        {
            columns.push(Vec::new());
            j += 1;
        }
        Archetype { components: ids, entities: Vec::new(), columns }
    }

    /// Number of rows.
    pub fn len(&self) -> (r: usize)
        ensures
            r as int == self.entity_rows().len(),
    {
        self.entities.len()
    }

    pub fn component_ids(&self) -> (r: &Vec<ComponentId>)
        ensures
            r@ == self.ids(),
    {
        &self.components
    }

    pub fn entities(&self) -> (r: &Vec<Entity>)
        ensures
            r@ == self.entity_rows(),
    {
        &self.entities
    }

    /// The column that holds component `c`, if this archetype has it.
    pub fn column_index(&self, c: ComponentId) -> (r: Option<usize>)
        requires
            self.wf(),
        ensures
            match r {
                Some(j) => j < self.ids().len() && self.ids()[j as int] == c && col_of(self.ids(), c)
                    == j,
                None => !self.ids().contains(c),
            },
    {
        let mut j: usize = 0;
        while j < self.components.len()
            invariant
                j <= self.ids().len(),
                self.wf(),
                forall|k: int| 0 <= k < j ==> self.ids()[k] != c,
            decreases self.ids().len() - j,
        {
            if self.components[j] == c {
                proof {
                    lemma_col_of(self.ids(), j as int);
                }
                return Some(j);
            }
            j += 1;
        }
        None
    }

    /// The value in column `j` at row `r`.
    pub fn value(&self, j: usize, r: usize) -> (v: &ComponentValue)
        requires
            self.wf(),
            j < self.ids().len(),
            r < self.entity_rows().len(),
        ensures
            v@ == self.cell(j as int, r as int),
    {
        &self.columns[j][r]
    }

    /// The value in column `j` at row `r`, to be written in place.
    pub fn value_mut(&mut self, j: usize, r: usize) -> (v: &mut ComponentValue)
        requires
            old(self).wf(),
            j < old(self).ids().len(),
            r < old(self).entity_rows().len(),
        ensures
            v@ == old(self).cell(j as int, r as int),
            final(self).wf(),
            final(self).ids() == old(self).ids(),
            final(self).entity_rows() == old(self).entity_rows(),
            final(self).row_values(r as int) == old(self).row_values(r as int).update(j as int, final(v)@),
            forall|r2: int|
                0 <= r2 < old(self).entity_rows().len() && r2 != r ==> #[trigger] final(self).row_values(r2)
                    == old(self).row_values(r2),
    {
        &mut self.columns[j][r]
    }

    /// Replaces the value in column `j` at row `r`.
    pub fn set_value(&mut self, j: usize, r: usize, v: ComponentValue)
        requires
            old(self).wf(),
            j < old(self).ids().len(),
            r < old(self).entity_rows().len(),
        ensures
            final(self).wf(),
            final(self).ids() == old(self).ids(),
            final(self).entity_rows() == old(self).entity_rows(),
            final(self).row_values(r as int) == old(self).row_values(r as int).update(j as int, v@),
            forall|r2: int|
                0 <= r2 < old(self).entity_rows().len() && r2 != r ==> #[trigger] final(self).row_values(r2)
                    == old(self).row_values(r2),
    {
        let ghost v_view = v@;
        self.columns[j].set(r, v);
        proof {
            assert(self.row_values(r as int) =~= old(self).row_values(r as int).update(j as int, v_view));
            assert forall|r2: int|
                0 <= r2 < old(self).entity_rows().len() && r2 != r implies #[trigger] self.row_values(r2)
                    == old(self).row_values(r2) by {
                assert(self.row_values(r2) =~= old(self).row_values(r2));
            }
        }
    }

    /// Appends a row for `e` holding `row`, whose values follow the order of the ids.
    pub fn push_row(&mut self, e: Entity, row: Vec<ComponentValue>)
        requires
            old(self).wf(),
            row@.len() == old(self).ids().len(),
        ensures
            final(self).wf(),
            final(self).ids() == old(self).ids(),
            final(self).entity_rows() == old(self).entity_rows().push(e),
            final(self).row_values(old(self).entity_rows().len() as int) == values_view(row@),
            forall|r: int|
                0 <= r < old(self).entity_rows().len() ==> #[trigger] final(self).row_values(r)
                    == old(self).row_values(r),
    {
        let ghost orow = row@;
        let ghost n = old(self).entities@.len();
        let mut row = row;
        while row.len() > 0
            invariant
                row@.len() <= orow.len(),
                row@ == orow.subrange(0, row@.len() as int),
                orow.len() == old(self).ids().len(),
                self.columns@.len() == orow.len(),
                self.components == old(self).components,
                self.entities == old(self).entities,
                self.columns@.len() == old(self).columns@.len(),
                old(self).wf(),
                forall|j: int|
                    0 <= j < self.columns@.len() ==> #[trigger] self.columns@[j]@ == if j < row@.len() {
                        old(self).columns@[j]@
                    } else {
                        old(self).columns@[j]@.push(orow[j])
                    },
            decreases row@.len(),
        {
            let v = row.pop().unwrap();
            let j = row.len();
            self.columns[j].push(v);
        }
        self.entities.push(e);
        proof {
            assert forall|j: int| 0 <= j < self.columns@.len() implies #[trigger] self.columns@[j]@.len()
                == self.entities@.len() by {
                assert(old(self).columns@[j]@.len() == n);
            }
            assert(self.row_values(n as int) =~= values_view(orow));
            assert forall|r: int| 0 <= r < n implies #[trigger] self.row_values(r)
                == old(self).row_values(r) by {
                assert(self.row_values(r) =~= old(self).row_values(r));
            }
        }
    }

    /// Removes row `r` by moving the last row into its place, and returns the
    /// removed values in the order of the ids.
    pub fn swap_remove_row(&mut self, r: usize) -> (row: Vec<ComponentValue>)
        requires
            old(self).wf(),
            r < old(self).entity_rows().len(),
        ensures
            final(self).wf(),
            final(self).ids() == old(self).ids(),
            final(self).entity_rows() == swap_removed(old(self).entity_rows(), r as int),
            values_view(row@) == old(self).row_values(r as int),
            forall|r2: int|
                0 <= r2 < final(self).entity_rows().len() ==> #[trigger] final(self).row_values(r2)
                    == if r2 == r {
                    old(self).row_values(old(self).entity_rows().len() - 1)
                } else {
                    old(self).row_values(r2)
                },
    {
        let ghost n = old(self).entities@.len();
        let mut row: Vec<ComponentValue> = Vec::new();
        let mut j: usize = 0;
        while j < self.columns.len()
            invariant
                j <= self.columns@.len(),
                old(self).wf(),
                r < n,
                n == old(self).entities@.len(),
                self.components == old(self).components,
                self.entities == old(self).entities,
                self.columns@.len() == old(self).columns@.len(),
                row@.len() == j,
                forall|k: int| 0 <= k < j ==> #[trigger] row@[k] == old(self).columns@[k]@[r as int],
                forall|k: int|
                    0 <= k < self.columns@.len() ==> #[trigger] self.columns@[k]@ == if k < j {
                        swap_removed(old(self).columns@[k]@, r as int)
                    } else {
                        old(self).columns@[k]@
                    },
            decreases self.columns@.len() - j,
        {
            assert(old(self).columns@[j as int]@.len() == n);
            let v = self.columns[j].swap_remove(r);
            row.push(v);
            j += 1;
        }
        self.entities.swap_remove(r);
        proof {
            assert forall|k: int| 0 <= k < self.columns@.len() implies #[trigger] self.columns@[k]@.len()
                == self.entities@.len() by {
                assert(old(self).columns@[k]@.len() == n);
            }
            assert(values_view(row@) =~= old(self).row_values(r as int));
            assert forall|r2: int| 0 <= r2 < n - 1 implies #[trigger] self.row_values(r2)
                == if r2 == r {
                old(self).row_values(n - 1)
            } else {
                old(self).row_values(r2)
            } by {
                if r2 == r {
                    assert(self.row_values(r2) =~= old(self).row_values(n - 1));
                } else {
                    assert(self.row_values(r2) =~= old(self).row_values(r2));
                }
            }
        }
        row
    }

    /// Grows every column and the entity list so that `additional` more rows
    /// fit without reallocating.
    pub fn reserve(&mut self, additional: usize)
        requires
            old(self).wf(),
        ensures
            final(self).wf(),
            final(self).ids() == old(self).ids(),
            final(self).entity_rows() == old(self).entity_rows(),
            forall|r: int| #[trigger] final(self).row_values(r) == old(self).row_values(r),
    {
        self.entities.reserve(additional);
        let mut j: usize = 0;
        while j < self.columns.len()
            invariant
                j <= self.columns@.len(),
                self.components == old(self).components,
                self.entities@ == old(self).entities@,
                self.columns@.len() == old(self).columns@.len(),
                forall|k: int| 0 <= k < self.columns@.len() ==> #[trigger] self.columns@[k]@ == old(self).columns@[k]@,
            decreases self.columns@.len() - j,
        {
            self.columns[j].reserve(additional);
            j += 1;
        }
        proof {
            assert forall|r: int| #[trigger] self.row_values(r) == old(self).row_values(r) by {
                assert(self.row_values(r) =~= old(self).row_values(r));
            }
        }
    }
}

} // verus!
