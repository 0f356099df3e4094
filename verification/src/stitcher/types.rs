//! The two lookup tables of a correspondence, and the strategies that fill
//! them.

use crate::fixed::in_window;
use crate::graph::types::{Node, INNER, OUTER};
use crate::linalg_helpers::{dist_sq, dist_sq_spec};
use std::collections::HashMap;
use vec1::Vec1;
use vstd::prelude::*;

verus! {

broadcast use vstd::std_specs::hash::group_hash_axioms;

/// A correspondent of a vertex: its id and the position it had when the
/// correspondence was made.
pub type Correspondent = (usize, i64, i64);

/// `vec1::Vec1`, a vector that is never empty. What it holds is known only
/// through `vec1_items` and `vec1_ids`.
#[verifier::external_type_specification]
#[verifier::external_body]
#[verifier::reject_recursive_types(I)]
pub struct ExVec1<I>(vec1::Vec1<I>);

/// The correspondents that a `Vec1` holds, in the order in which they were
/// pushed.
pub uninterp spec fn vec1_items(v: Vec1<(usize, i64, i64)>) -> Seq<(usize, i64, i64)>;

/// `Vec1::new`: a list that holds `first` and nothing else.
#[verifier::external_body]
fn vec1_new(first: Correspondent) -> (v: Vec1<Correspondent>)
    ensures
        vec1_items(v) == seq![first],
{
    Vec1::new(first)
}

/// `Vec1::push`: `val` is appended, the items before it stay as they were.
#[verifier::external_body]
fn vec1_push(v: &mut Vec1<Correspondent>, val: Correspondent)
    ensures
        vec1_items(*final(v)) == vec1_items(*old(v)).push(val),
{
    v.push(val)
}

/// `Vec1::as_vec`: the items as a plain vector, which is never empty.
#[verifier::external_body]
fn vec1_as_vec(v: &Vec1<Correspondent>) -> (r: &Vec<Correspondent>)
    ensures
        r@ == vec1_items(*v),
        r@.len() >= 1,
{
    v.as_vec()
}

/// The ids that a `Vec1` of ids holds, in order.
pub uninterp spec fn vec1_ids(v: Vec1<usize>) -> Seq<usize>;

/// `Vec1::mapped_ref`: the first component of each item, in the same order.
#[verifier::external_body]
fn vec1_first_components(v: &Vec1<Correspondent>) -> (r: Vec1<usize>)
    ensures
        vec1_ids(r) == ids_of(vec1_items(*v)),
{
    v.mapped_ref(|c| c.0)
}

/// The ids of `items`, in order.
pub open spec fn ids_of(items: Seq<Correspondent>) -> Seq<usize> {
    Seq::new(items.len(), |k: int| items[k].0)
}

/// The position kept with a correspondent lies in the window.
pub open spec fn correspondent_in_window(c: Correspondent) -> bool {
    in_window(c.1 as int) && in_window(c.2 as int)
}

/// Every position kept in `items` lies in the window.
pub open spec fn items_in_window(items: Seq<Correspondent>) -> bool {
    forall|k: int| 0 <= k < items.len() ==> correspondent_in_window(#[trigger] items[k])
}

/// Some item of `items` has the id `id`.
pub open spec fn has_id(items: Seq<Correspondent>, id: usize) -> bool {
    exists|k: int| 0 <= k < items.len() && (#[trigger] items[k]).0 == id
}

/// No two items of `items` have the same id.
pub open spec fn distinct_ids(items: Seq<Correspondent>) -> bool {
    forall|j: int, k: int|
        0 <= j < k < items.len() ==> (#[trigger] items[j]).0 != (#[trigger] items[k]).0
}

/// The table after `val` has been recorded for `key`: a key seen for the
/// first time gets a list of one; a known key gets `val` appended unless one
/// of its correspondents already has the id of `val`.
pub open spec fn table_put(
    table: Map<usize, Seq<Correspondent>>,
    key: usize,
    val: Correspondent,
) -> Map<usize, Seq<Correspondent>> {
    if !table.contains_key(key) {
        table.insert(key, seq![val])
    } else if has_id(table[key], val.0) {
        table
    } else {
        table.insert(key, table[key].push(val))
    }
}

/// The pairs `(key, id)` for which `table` holds a correspondent `id` of
/// `key`.
pub open spec fn table_pairs(table: Map<usize, Seq<Correspondent>>) -> Set<(usize, usize)> {
    Set::new(|p: (usize, usize)| table.contains_key(p.0) && has_id(table[p.0], p.1))
}

/// One lookup table: for each vertex id of one boundary, the correspondents
/// on the other boundary, with the number of entries in all lists together.
#[derive(Clone, Debug)]
pub enum ListMap {
    LMap(HashMap<usize, Vec1<(usize, i64, i64)>>, usize),
}

impl ListMap {
    /// The table as a map from vertex id to its list of correspondents.
    pub open spec fn table(self) -> Map<usize, Seq<Correspondent>> {
        self->0@.map_values(|v: Vec1<Correspondent>| vec1_items(v))
    }

    /// The number of entries that the table has counted.
    pub open spec fn entries(self) -> usize {
        self->1
    }

    /// No list is empty, no list names a correspondent twice, and the count
    /// of entries is the number of pairs in the table.
    pub open spec fn wf(self) -> bool {
        &&& forall|k: usize| #[trigger]
            self.table().contains_key(k) ==> self.table()[k].len() >= 1 && distinct_ids(
                self.table()[k],
            ) && items_in_window(self.table()[k])
        &&& table_pairs(self.table()).finite()
        &&& table_pairs(self.table()).len() == self.entries()
    }

    /// An empty table.
    pub fn new() -> (m: ListMap)
        ensures
            m.table() == Map::<usize, Seq<Correspondent>>::empty(),
            m.entries() == 0,
            m.wf(),
    {
        let m = ListMap::LMap(HashMap::new(), 0);
        assert(m.table() =~= Map::<usize, Seq<Correspondent>>::empty());
        assert(table_pairs(m.table()) =~= Set::<(usize, usize)>::empty());
        m
    }

    /// The correspondents of `key`.
    pub fn get(&self, key: usize) -> (v: &Vec1<(usize, i64, i64)>)
        requires
            self.table().contains_key(key),
        ensures
            vec1_items(*v) == self.table()[key],
    {
        match self {
            ListMap::LMap(m, _) => match m.get(&key) {
                Some(v) => v,
                None => vstd::pervasive::unreached(),
            },
        }
    }

    /// The lists of the table by their keys, for walking through all of them.
    pub fn as_map(&self) -> (m: &HashMap<usize, Vec1<(usize, i64, i64)>>)
        ensures
            m@.map_values(|v: Vec1<Correspondent>| vec1_items(v)) == self.table(),
    {
        match self {
            ListMap::LMap(m, _) => m,
        }
    }

    /// The correspondents of `key`, if it has any.
    pub fn find(&self, key: usize) -> (r: Option<&Vec<(usize, i64, i64)>>)
        ensures
            r is Some <==> self.table().contains_key(key),
            r is Some ==> r.unwrap()@ == self.table()[key],
    {
        match self {
            ListMap::LMap(m, _) => match m.get(&key) {
                Some(v) => Some(vec1_as_vec(v)),
                None => None,
            },
        }
    }

    /// The number of entries in all lists together.
    pub fn count(&self) -> (n: usize)
        requires
            self.wf(),
        ensures
            n == table_pairs(self.table()).len(),
    {
        match self {
            ListMap::LMap(_, entries) => *entries,
        }
    }

    /// The number of vertices that have correspondents.
    pub fn len(&self) -> (n: usize)
        ensures
            n == self.table().dom().len(),
    {
        match self {
            ListMap::LMap(m, _) => {
                assert(self.table().dom() =~= m@.dom());
                m.len()
            },
        }
    }

    /// Records `val` as a correspondent of `key`, unless `key` already has a
    /// correspondent with the id of `val`.
    pub fn put(&mut self, key: usize, val: (usize, i64, i64))
        requires
            old(self).wf(),
            old(self).entries() < usize::MAX,
            correspondent_in_window(val),
        ensures
            final(self).table() == table_put(old(self).table(), key, val),
            final(self).wf(),
            table_pairs(final(self).table()) == table_pairs(old(self).table()).insert(
                (key, val.0),
            ),
            final(self).entries() == if table_pairs(old(self).table()).contains((key, val.0)) {
                old(self).entries()
            } else {
                (old(self).entries() + 1) as usize
            },
    {
        let ghost before = self.table();
        match self {
            ListMap::LMap(m, entries) => {
                let known: Option<bool> = match m.get(&key) {
                    Some(v) => Some(contains_id(vec1_as_vec(v), val.0)),
                    None => None,
                };
                match known {
                    Some(true) => {},
                    Some(false) => {
                        let mut v: Vec1<Correspondent> = m.remove(&key).unwrap();
                        vec1_push(&mut v, val);
                        m.insert(key, v);
                        *entries = *entries + 1;
                    },
                    None => {
                        m.insert(key, vec1_new(val));
                        *entries = *entries + 1;
                    },
                }
            },
        }
        proof {
            assert(self.table() =~= table_put(before, key, val));
            lemma_table_put_pairs(before, key, val);
        }
    }
}

/// Whether some item of `items` has the id `id`.
pub fn contains_id(items: &Vec<Correspondent>, id: usize) -> (b: bool)
    ensures
        b == has_id(items@, id),
{
    let mut k: usize = 0;
    while k < items.len()
        invariant
            k <= items@.len(),
            forall|j: int| 0 <= j < k ==> (#[trigger] items@[j]).0 != id,
        decreases items@.len() - k,
    {
        if items[k].0 == id {
            return true;
        }
        k += 1;
    }
    false
}

/// Recording a correspondent adds its pair to the pairs of the table, and
/// keeps lists free of repeated ids.
pub proof fn lemma_table_put_pairs(
    table: Map<usize, Seq<Correspondent>>,
    key: usize,
    val: Correspondent,
)
    ensures
        table_pairs(table_put(table, key, val)) == table_pairs(table).insert((key, val.0)),
        table.contains_key(key) && distinct_ids(table[key]) ==> distinct_ids(
            table_put(table, key, val)[key],
        ),
{
    let after = table_put(table, key, val);
    assert forall|p: (usize, usize)|
        table_pairs(after).contains(p) <==> table_pairs(table).insert((key, val.0)).contains(
            p,
        ) by {
        if p.0 == key {
            if !table.contains_key(key) {
                assert(seq![val][0] == val);
                if p.1 == val.0 {
                    assert(has_id(after[key], p.1));
                }
            } else if has_id(table[key], val.0) {
            } else {
                let items = table[key];
                let grown = items.push(val);
                if has_id(items, p.1) {
                    let k = choose|k: int| 0 <= k < items.len() && (#[trigger] items[k]).0 == p.1;
                    assert(grown[k] == items[k]);
                    assert(has_id(grown, p.1));
                }
                if p.1 == val.0 {
                    assert(grown[items.len() as int] == val);
                    assert(has_id(grown, p.1));
                }
                if has_id(grown, p.1) {
                    let k = choose|k: int| 0 <= k < grown.len() && (#[trigger] grown[k]).0 == p.1;
                    if k < items.len() {
                        assert(items[k] == grown[k]);
                        assert(has_id(items, p.1));
                    }
                }
            }
        }
    }
    assert(table_pairs(after) =~= table_pairs(table).insert((key, val.0)));
    if table.contains_key(key) && distinct_ids(table[key]) && !has_id(table[key], val.0) {
        let items = table[key];
        let grown = items.push(val);
        assert forall|j: int, k: int| 0 <= j < k < grown.len() implies (#[trigger] grown[j]).0 != (
        #[trigger] grown[k]).0 by {
            if k < items.len() {
                assert(grown[j] == items[j] && grown[k] == items[k]);
            } else {
                assert(grown[j] == items[j]);
            }
        }
    }
}

/// Item `k` of `items` is nearest to `(x, y)`, and no item before it is as
/// near.
pub open spec fn is_nearest_item(items: Seq<Correspondent>, k: int, x: int, y: int) -> bool {
    &&& 0 <= k < items.len()
    &&& forall|j: int|
        0 <= j < items.len() ==> item_dist_sq(items, k, x, y) <= #[trigger] item_dist_sq(
            items,
            j,
            x,
            y,
        )
    &&& forall|j: int|
        0 <= j < k ==> item_dist_sq(items, k, x, y) < #[trigger] item_dist_sq(items, j, x, y)
}

/// The squared distance from the position kept with item `k` to `(x, y)`.
pub open spec fn item_dist_sq(items: Seq<Correspondent>, k: int, x: int, y: int) -> int {
    dist_sq_spec(x, y, items[k].1 as int, items[k].2 as int)
}

/// The correspondence between the two boundaries: `tables[OUTER]` maps each
/// outer vertex to its inner correspondents, `tables[INNER]` each inner vertex
/// to its outer ones.
#[derive(Clone, Debug)]
pub enum Stitching {
    Stitch(Vec<ListMap>),
}

impl Stitching {
    /// The table of the outer boundary.
    pub open spec fn outer_table(self) -> Map<usize, Seq<Correspondent>> {
        self->0@[OUTER as int].table()
    }

    /// The table of the inner boundary.
    pub open spec fn inner_table(self) -> Map<usize, Seq<Correspondent>> {
        self->0@[INNER as int].table()
    }

    /// The table of layer `layer_id`.
    pub open spec fn table_of(self, layer_id: int) -> Map<usize, Seq<Correspondent>> {
        self->0@[layer_id].table()
    }

    /// The outer table names `i` among the correspondents of `o`.
    pub open spec fn linked(self, o: usize, i: usize) -> bool {
        table_pairs(self.outer_table()).contains((o, i))
    }

    /// The inner table names `o` among the correspondents of `i`.
    pub open spec fn linked_back(self, o: usize, i: usize) -> bool {
        table_pairs(self.inner_table()).contains((i, o))
    }

    /// The two tables hold the same pairs, each from its own side.
    pub open spec fn mirrored(self) -> bool {
        forall|o: usize, i: usize|
            #![trigger self.linked(o, i)]
            #![trigger self.linked_back(o, i)]
            self.linked(o, i) <==> self.linked_back(o, i)
    }

    /// The number of pairs counted from the outer table.
    pub open spec fn count_from_outer(self) -> nat {
        table_pairs(self.outer_table()).len()
    }

    /// The number of pairs counted from the inner table.
    pub open spec fn count_from_inner(self) -> nat {
        table_pairs(self.inner_table()).len()
    }

    /// Both tables are in order, hold the same pairs and count as many.
    pub open spec fn wf(self) -> bool {
        &&& self->0@.len() == 2
        &&& self->0@[OUTER as int].wf()
        &&& self->0@[INNER as int].wf()
        &&& self.mirrored()
        &&& self.count_from_outer() == self.count_from_inner()
    }

    /// Outer vertex `o` has at least one correspondent.
    pub open spec fn covers_outer(self, o: usize) -> bool {
        self.outer_table().contains_key(o) && self.outer_table()[o].len() >= 1
    }

    /// Inner vertex `i` has at least one correspondent.
    pub open spec fn covers_inner(self, i: usize) -> bool {
        self.inner_table().contains_key(i) && self.inner_table()[i].len() >= 1
    }

    /// A correspondence without pairs.
    pub fn new() -> (s: Stitching)
        ensures
            s.wf(),
            s.outer_table() == Map::<usize, Seq<Correspondent>>::empty(),
            s.inner_table() == Map::<usize, Seq<Correspondent>>::empty(),
            s.count_from_outer() == 0,
    {
        let mut tables: Vec<ListMap> = Vec::new();
        tables.push(ListMap::new());
        tables.push(ListMap::new());
        let s = Stitching::Stitch(tables);
        assert(table_pairs(s.outer_table()) =~= Set::<(usize, usize)>::empty());
        assert(table_pairs(s.inner_table()) =~= Set::<(usize, usize)>::empty());
        s
    }

    /// Records that the inner vertex `inn` and the outer vertex `out`
    /// correspond to each other. A pair that is already known changes nothing.
    pub fn put(&mut self, inn: (usize, i64, i64), out: (usize, i64, i64))
        requires
            old(self).wf(),
            old(self).count_from_outer() < usize::MAX,
            correspondent_in_window(inn),
            correspondent_in_window(out),
        ensures
            final(self).wf(),
            final(self).outer_table() == table_put(old(self).outer_table(), out.0, inn),
            final(self).inner_table() == table_put(old(self).inner_table(), inn.0, out),
            final(self).count_from_outer() == if old(self).linked(out.0, inn.0) {
                old(self).count_from_outer()
            } else {
                old(self).count_from_outer() + 1
            },
            final(self).linked(out.0, inn.0),
            forall|o: usize, i: usize| old(self).linked(o, i) ==> final(self).linked(o, i),
            final(self).covers_outer(out.0),
            final(self).covers_inner(inn.0),
            forall|o: usize| old(self).covers_outer(o) ==> final(self).covers_outer(o),
            forall|i: usize| old(self).covers_inner(i) ==> final(self).covers_inner(i),
    {
        proof {
            assert(old(self).linked(out.0, inn.0) <==> old(self).linked_back(out.0, inn.0));
        }
        match self {
            Stitching::Stitch(layers) => {
                layers[OUTER].put(out.0, inn);
                layers[INNER].put(inn.0, out);
            },
        }
        proof {
            assert forall|o: usize, i: usize|
                #![trigger self.linked(o, i)]
                #![trigger self.linked_back(o, i)]
                self.linked(o, i) <==> self.linked_back(o, i) by {
                assert(old(self).linked(o, i) <==> old(self).linked_back(o, i));
            }
        }
    }

    /// The correspondents that the table of layer `layer_id` holds for vertex
    /// `id`, if it holds any.
    pub fn find(&self, layer_id: usize, id: usize) -> (r: Option<&Vec<(usize, i64, i64)>>)
        requires
            layer_id < 2,
            self->0@.len() == 2,
        ensures
            r is Some <==> self.table_of(layer_id as int).contains_key(id),
            r is Some ==> r.unwrap()@ == self.table_of(layer_id as int)[id],
    {
        match self {
            Stitching::Stitch(layers) => layers[layer_id].find(id),
        }
    }

    /// The ids of the correspondents of vertex `n` of layer `layer_id`.
    pub fn get(&self, layer_id: usize, n: &Node) -> (ids: Vec1<usize>)
        requires
            layer_id < 2,
            self->0@.len() == 2,
            self.table_of(layer_id as int).contains_key(n.id),
        ensures
            vec1_ids(ids) == ids_of(self.table_of(layer_id as int)[n.id]),
    {
        match self {
            Stitching::Stitch(layers) => vec1_first_components(layers[layer_id].get(n.id)),
        }
    }

    /// The id of the correspondent of vertex `n` of layer `layer_id` whose
    /// kept position is nearest to `n`, the first among equals.
    pub fn get_closest_correspondent(&self, layer_id: usize, n: &Node) -> (id: usize)
        requires
            self.wf(),
            layer_id < 2,
            self.table_of(layer_id as int).contains_key(n.id),
            in_window(n.x as int),
            in_window(n.y as int),
        ensures
            exists|k: int|
                is_nearest_item(
                    self.table_of(layer_id as int)[n.id],
                    k,
                    n.x as int,
                    n.y as int,
                ) && id == (#[trigger] self.table_of(layer_id as int)[n.id][k]).0,
    {
        match self {
            Stitching::Stitch(layers) => {
                let ghost items = self.table_of(layer_id as int)[n.id];
                assert(layers@[layer_id as int].wf());
                assert(layers@[layer_id as int].table().contains_key(n.id));
                let corrs: &Vec<Correspondent> = vec1_as_vec(layers[layer_id].get(n.id));
                let mut best: usize = 0;
                assert(correspondent_in_window(items[0]));
                let mut best_dist: u64 = dist_sq(n.x, n.y, corrs[0].1, corrs[0].2);
                let mut k: usize = 1;
                while k < corrs.len()
                    invariant
                        corrs@ == items,
                        items_in_window(items),
                        in_window(n.x as int),
                        in_window(n.y as int),
                        1 <= k <= items.len(),
                        best < k,
                        best_dist == item_dist_sq(items, best as int, n.x as int, n.y as int),
                        forall|j: int|
                            0 <= j < k ==> best_dist <= #[trigger] item_dist_sq(
                                items,
                                j,
                                n.x as int,
                                n.y as int,
                            ),
                        forall|j: int|
                            0 <= j < best ==> best_dist < #[trigger] item_dist_sq(
                                items,
                                j,
                                n.x as int,
                                n.y as int,
                            ),
                    decreases items.len() - k,
                {
                    assert(correspondent_in_window(items[k as int]));
                    let d: u64 = dist_sq(n.x, n.y, corrs[k].1, corrs[k].2);
                    if d < best_dist {
                        best = k;
                        best_dist = d;
                    }
                    k += 1;
                }
                assert(is_nearest_item(items, best as int, n.x as int, n.y as int));
                corrs[best].0
            },
        }
    }

    /// The number of pairs of the correspondence, which is the same counted
    /// from either table.
    pub fn len(&self) -> (n: usize)
        requires
            self.wf(),
        ensures
            n == self.count_from_outer(),
            n == self.count_from_inner(),
    {
        match self {
            Stitching::Stitch(layers) => {
                let outer_amt: usize = layers[OUTER].count();
                let inner_amt: usize = layers[INNER].count();
                if outer_amt == inner_amt {
                    outer_amt
                } else {
                    vstd::pervasive::unreached()
                }
            },
        }
    }
}

/// The table holds at least one correspondent for vertex `k`.
pub open spec fn table_covers(table: Map<usize, Seq<Correspondent>>, k: usize) -> bool {
    table.contains_key(k) && table[k].len() >= 1
}

/// The two tables hold the same pairs, each from its own side, and as many.
pub open spec fn tables_mirror(
    outer: Map<usize, Seq<Correspondent>>,
    inner: Map<usize, Seq<Correspondent>>,
) -> bool {
    &&& table_pairs(outer).finite()
    &&& table_pairs(inner).finite()
    &&& table_pairs(outer).len() == table_pairs(inner).len()
    &&& forall|o: usize, i: usize|
        #![trigger table_pairs(outer).contains((o, i))]
        #![trigger table_pairs(inner).contains((i, o))]
        table_pairs(outer).contains((o, i)) <==> table_pairs(inner).contains((i, o))
}

/// Recording a pair in both tables keeps them mirrored, gives each of the two
/// vertices a correspondent, and takes none from any vertex.
pub proof fn lemma_put_mirrors(
    outer: Map<usize, Seq<Correspondent>>,
    inner: Map<usize, Seq<Correspondent>>,
    inn: Correspondent,
    out: Correspondent,
)
    requires
        tables_mirror(outer, inner),
    ensures
        tables_mirror(table_put(outer, out.0, inn), table_put(inner, inn.0, out)),
        table_covers(table_put(outer, out.0, inn), out.0),
        table_covers(table_put(inner, inn.0, out), inn.0),
        forall|k: usize|
            table_covers(outer, k) ==> #[trigger] table_covers(table_put(outer, out.0, inn), k),
        forall|k: usize|
            table_covers(inner, k) ==> #[trigger] table_covers(table_put(inner, inn.0, out), k),
{
    lemma_table_put_pairs(outer, out.0, inn);
    lemma_table_put_pairs(inner, inn.0, out);
    assert(table_pairs(outer).contains((out.0, inn.0)) <==> table_pairs(inner).contains(
        (inn.0, out.0),
    ));
}

/// Tables without entries are mirrored.
pub proof fn lemma_empty_tables_mirror()
    ensures
        tables_mirror(Map::empty(), Map::empty()),
{
    assert(table_pairs(Map::<usize, Seq<Correspondent>>::empty()) =~= Set::<
        (usize, usize),
    >::empty());
}

/// How the two tables are filled.
#[derive(Copy, Clone, Debug, PartialEq, Eq, Structural)]
pub enum Strategy {
    Greedy,
    Dijkstra,
}

impl Strategy {
    /// The strategy that `self` is not.
    pub fn other(&self) -> (s: Strategy)
        ensures
            s == match *self {
                Strategy::Greedy => Strategy::Dijkstra,
                Strategy::Dijkstra => Strategy::Greedy,
            },
            s != *self,
    {
        match self {
            Strategy::Greedy => Strategy::Dijkstra,
            Strategy::Dijkstra => Strategy::Greedy,
        }
    }
}

} // verus!
