use vstd::prelude::*;

use crate::location::{Cardinality, Location};
use crate::node::{child_bounds, lemma_children_cover, lemma_mid_between, mid, spec_point_in, CNNode};
use crate::tree::{spec_find_neighbor, SubdivideError, SubdivideErrorEnum};

verus! {

/// One if the slot holds a live node at the given layer, else zero.
pub open spec fn layer_occupancy<T>(slot: Option<CNNode<T>>, d: int) -> int {
    match slot {
        Some(n) => if n.layer == d { 1int } else { 0int },
        None => 0int,
    }
}

/// The number of live nodes at a given layer in an arena.
pub open spec fn count_at_layer<T>(s: Seq<Option<CNNode<T>>>, d: int) -> int
    decreases s.len(),
{
    if s.len() == 0 {
        0int
    } else {
        count_at_layer(s.drop_last(), d) + layer_occupancy(s.last(), d)
    }
}

/// Per-layer population is never negative.
pub proof fn lemma_count_nonneg<T>(s: Seq<Option<CNNode<T>>>, d: int)
    ensures
        count_at_layer(s, d) >= 0,
    decreases s.len(),
{
    if s.len() > 0 {
        lemma_count_nonneg(s.drop_last(), d);
    }
}

/// Replacing a slot adjusts the per-layer population by the difference of the
/// two slots' occupancies.
pub proof fn lemma_count_update<T>(s: Seq<Option<CNNode<T>>>, i: int, v: Option<CNNode<T>>, d: int)
    requires
        0 <= i < s.len(),
    ensures
        count_at_layer(s.update(i, v), d) == count_at_layer(s, d) - layer_occupancy(s[i], d)
            + layer_occupancy(v, d),
    decreases s.len(),
{
    let s2 = s.update(i, v);
    if i == s.len() - 1 {
        assert(s2.drop_last() =~= s.drop_last());
        assert(s2.last() == v);
    } else {
        assert(s2.drop_last() =~= s.drop_last().update(i, v));
        assert(s2.last() == s.last());
        lemma_count_update(s.drop_last(), i, v, d);
    }
}

/// Two arenas of equal length whose slots agree in occupancy at a layer have
/// the same population at that layer.
pub proof fn lemma_count_congruent<T>(s1: Seq<Option<CNNode<T>>>, s2: Seq<Option<CNNode<T>>>, d: int)
    requires
        s1.len() == s2.len(),
        forall|j: int| 0 <= j < s1.len() ==> layer_occupancy(s1[j], d) == layer_occupancy(s2[j], d),
    ensures
        count_at_layer(s1, d) == count_at_layer(s2, d),
    decreases s1.len(),
{
    if s1.len() > 0 {
        assert(forall|j: int| 0 <= j < s1.len() - 1 ==> layer_occupancy(s1.drop_last()[j], d)
            == layer_occupancy(s2.drop_last()[j], d));
        lemma_count_congruent(s1.drop_last(), s2.drop_last(), d);
        assert(layer_occupancy(s1.last(), d) == layer_occupancy(s2.last(), d));
    }
}

/// Per-layer population never exceeds the number of slots.
pub proof fn lemma_count_bound<T>(s: Seq<Option<CNNode<T>>>, d: int)
    ensures
        count_at_layer(s, d) <= s.len(),
    decreases s.len(),
{
    if s.len() > 0 {
        lemma_count_bound(s.drop_last(), d);
    }
}

/// A layer at which no slot holds a live node has population zero.
pub proof fn lemma_count_empty_layer<T>(s: Seq<Option<CNNode<T>>>, d: int)
    requires
        forall|j: int| 0 <= j < s.len() ==> layer_occupancy(#[trigger] s[j], d) == 0,
    ensures
        count_at_layer(s, d) == 0,
    decreases s.len(),
{
    if s.len() > 0 {
        assert(forall|j: int| 0 <= j < s.len() - 1 ==> layer_occupancy(
            #[trigger] s.drop_last()[j],
            d,
        ) == 0);
        lemma_count_empty_layer(s.drop_last(), d);
    }
}

/// Peeling the last four slots off an arena splits its per-layer population.
pub proof fn lemma_count_tail4<T>(s: Seq<Option<CNNode<T>>>, d: int)
    requires
        s.len() >= 4,
    ensures
        count_at_layer(s, d) == count_at_layer(s.take(s.len() - 4), d) + layer_occupancy(
            s[s.len() - 4],
            d,
        ) + layer_occupancy(s[s.len() - 3], d) + layer_occupancy(s[s.len() - 2], d)
            + layer_occupancy(s[s.len() - 1], d),
{
    let n = s.len() as int;
    assert(s.drop_last() =~= s.take(n - 1));
    assert(s.take(n - 1).drop_last() =~= s.take(n - 2));
    assert(s.take(n - 2).drop_last() =~= s.take(n - 3));
    assert(s.take(n - 3).drop_last() =~= s.take(n - 4));
    assert(count_at_layer(s, d) == count_at_layer(s.take(n - 1), d) + layer_occupancy(s[n - 1], d));
    assert(count_at_layer(s.take(n - 1), d) == count_at_layer(s.take(n - 2), d) + layer_occupancy(
        s[n - 2],
        d,
    ));
    assert(count_at_layer(s.take(n - 2), d) == count_at_layer(s.take(n - 3), d) + layer_occupancy(
        s[n - 3],
        d,
    ));
    assert(count_at_layer(s.take(n - 3), d) == count_at_layer(s.take(n - 4), d) + layer_occupancy(
        s[n - 4],
        d,
    ));
}

/// The first entry of a neighbor list, if the list is not empty.
pub open spec fn first_of(s: Seq<usize>) -> Option<usize> {
    if s.len() > 0 {
        Some(s[0])
    } else {
        None
    }
}

/// Whether, by position `m` of a collected neighbor list, the repoint target
/// has switched from the near-end child to the far-end child: the far child's
/// own looked-up neighbor occurs in the list at or before `m`.
pub open spec fn repoint_switched(list: Seq<usize>, looked: Option<usize>, m: int) -> bool {
    exists|t: int| 0 <= t <= m && Some(list[t]) == looked
}

/// The switch point unfolds one position at a time.
pub proof fn lemma_repoint_switched_step(list: Seq<usize>, looked: Option<usize>, m: int)
    requires
        0 <= m < list.len(),
    ensures
        repoint_switched(list, looked, m) == (repoint_switched(list, looked, m - 1) || Some(
            list[m],
        ) == looked),
{
    if repoint_switched(list, looked, m) {
        let t = choose|t: int| 0 <= t <= m && Some(list[t]) == looked;
        if t <= m - 1 {
            assert(repoint_switched(list, looked, m - 1));
        }
    }
    if repoint_switched(list, looked, m - 1) {
        let t = choose|t: int| 0 <= t <= m - 1 && Some(list[t]) == looked;
        assert(0 <= t <= m && Some(list[t]) == looked);
    }
    if Some(list[m]) == looked {
        assert(0 <= m <= m && Some(list[m]) == looked);
    }
}

/// A layer holding a live node has population at least one.
pub proof fn lemma_count_member<T>(s: Seq<Option<CNNode<T>>>, i: int, d: int)
    requires
        0 <= i < s.len(),
        s[i] is Some,
        s[i]->Some_0.layer == d,
    ensures
        count_at_layer(s, d) >= 1,
{
    lemma_count_update(s, i, None, d);
    lemma_count_nonneg(s.update(i, None), d);
}

/// A layer holding four distinct live nodes has population at least four.
pub proof fn lemma_count_four<T>(s: Seq<Option<CNNode<T>>>, c0: int, c1: int, c2: int, c3: int, d: int)
    requires
        0 <= c0 < s.len() && 0 <= c1 < s.len() && 0 <= c2 < s.len() && 0 <= c3 < s.len(),
        c0 != c1 && c0 != c2 && c0 != c3 && c1 != c2 && c1 != c3 && c2 != c3,
        s[c0] is Some && s[c0]->Some_0.layer == d,
        s[c1] is Some && s[c1]->Some_0.layer == d,
        s[c2] is Some && s[c2]->Some_0.layer == d,
        s[c3] is Some && s[c3]->Some_0.layer == d,
    ensures
        count_at_layer(s, d) >= 4,
{
    let s1 = s.update(c0, None);
    let s2 = s1.update(c1, None);
    let s3 = s2.update(c2, None);
    lemma_count_update(s, c0, None, d);
    lemma_count_update(s1, c1, None, d);
    lemma_count_update(s2, c2, None, d);
    lemma_count_member(s3, c3, d);
}

/// True when the second arena slot matches the first except possibly in its
/// neighbor slots: both vacant, or both live with equal payload, layer,
/// bounds, parent and children.
pub open spec fn same_but_neighbors<T>(a: Option<CNNode<T>>, b: Option<CNNode<T>>) -> bool {
    match (a, b) {
        (Some(x), Some(y)) => {
            &&& x.item == y.item
            &&& x.layer == y.layer
            &&& x.bounds == y.bounds
            &&& x.parent == y.parent
            &&& x.children == y.children
        },
        (None, None) => true,
        _ => false,
    }
}

/// The looked-up external neighbor of the far-end child on one border of a
/// splitting node: the border walk seeded with the node's first collected
/// neighbor on that border, absent when the node has no neighbor there.
pub open spec fn spec_looked_up<T>(
    t: CNQuadtree<T>,
    index: usize,
    direction: Cardinality,
) -> Option<usize> {
    match first_of(t.spec_neighbors(index, direction)) {
        Some(inherited) => spec_find_neighbor(
            t,
            t.node(index as int).layer + 1,
            direction,
            inherited,
        ),
        None => None,
    }
}

/// An arena-backed cardinal neighbor quadtree. All nodes live in one arena of
/// slots keyed by stable indices; a vacated slot is never reused, so an index
/// stays meaningful for as long as anything refers to it. The tree also keeps
/// a per-layer count of live nodes.
pub struct CNQuadtree<T> {
    store: Vec<Option<CNNode<T>>>,
    root_key: usize,
    layers: Vec<usize>,
}

impl<T> CNQuadtree<T> {
    /// The arena: every slot, live or vacated.
    pub closed spec fn arena(self) -> Seq<Option<CNNode<T>>> {
        self.store@
    }

    /// True when an index names a live node.
    pub open spec fn live(self, i: int) -> bool {
        &&& 0 <= i < self.arena().len()
        &&& self.arena()[i] is Some
    }

    /// The live node at an index.
    pub open spec fn node(self, i: int) -> CNNode<T>
        recommends
            self.live(i),
    {
        self.arena()[i]->Some_0
    }

    /// The root node's index.
    pub closed spec fn spec_root(self) -> usize {
        self.root_key
    }

    /// The per-layer counts of live nodes.
    pub closed spec fn layer_counts(self) -> Seq<usize> {
        self.layers@
    }

    /// Links of one child slot: the child is live, points back to its parent,
    /// sits one layer deeper, and covers its quadrant of the parent's bounds.
    pub open spec fn wf_child(self, i: int, c: usize, loc: Location) -> bool {
        &&& self.live(c as int)
        &&& self.node(c as int).parent == Some(i as usize)
        &&& self.node(c as int).layer == self.node(i).layer + 1
        &&& self.node(c as int).bounds == child_bounds(self.node(i).bounds, loc)
    }

    /// Structural conditions on one live node: children (when present) are
    /// four distinct live nodes linked back to it and tiling its bounds, the
    /// parent (when present) is a live node listing it as a child, and its
    /// layer is within the per-layer count table.
    pub open spec fn wf_links(self, i: int) -> bool {
        &&& match self.node(i).children {
            Some(cs) => {
                &&& self.wf_child(i, cs@[0], Location::NorthWest)
                &&& self.wf_child(i, cs@[1], Location::NorthEast)
                &&& self.wf_child(i, cs@[2], Location::SouthWest)
                &&& self.wf_child(i, cs@[3], Location::SouthEast)
                &&& cs@[0] != cs@[1] && cs@[0] != cs@[2] && cs@[0] != cs@[3]
                &&& cs@[1] != cs@[2] && cs@[1] != cs@[3] && cs@[2] != cs@[3]
            },
            None => true,
        }
        &&& match self.node(i).parent {
            Some(p) => {
                &&& self.live(p as int)
                &&& match self.node(p as int).children {
                    Some(ps) => ps@[0] == i || ps@[1] == i || ps@[2] == i || ps@[3] == i,
                    None => false,
                }
            },
            None => true,
        }
        &&& (self.node(i).layer as int) < self.layer_counts().len()
    }

    /// The tree's invariant: a live root at layer zero without a parent,
    /// well-formed links at every live node, and a per-layer count table that
    /// matches the arena's population.
    pub open spec fn wf(self) -> bool {
        &&& self.live(self.spec_root() as int)
        &&& self.node(self.spec_root() as int).parent is None
        &&& self.node(self.spec_root() as int).layer == 0
        &&& forall|i: int| #[trigger] self.live(i) ==> self.wf_links(i)
        &&& 1 <= self.layer_counts().len() <= self.arena().len()
        &&& forall|d: int| 0 <= d < self.layer_counts().len()
            ==> #[trigger] self.layer_counts()[d] == count_at_layer(self.arena(), d)
    }

    /// A new tree holding a single root node, a leaf at layer zero with the
    /// given payload and bounds and no neighbors.
    pub fn new(item: T, bounds: (u32, u32, u32, u32)) -> (r: CNQuadtree<T>)
        ensures
            r.wf(),
            r.arena().len() == 1,
            r.spec_root() == 0,
            r.live(0),
            r.node(0).item == item,
            r.node(0).layer == 0,
            r.node(0).bounds == bounds,
            r.node(0).parent is None,
            r.node(0).children is None,
            r.node(0).neighbors@ =~= seq![None::<usize>, None::<usize>, None::<usize>, None::<usize>],
            r.layer_counts() =~= seq![1usize],
    {
        let root_node = CNNode::<T>::new(item, 0, bounds, None);
        let mut store: Vec<Option<CNNode<T>>> = Vec::new();
        store.push(Some(root_node));
        let mut layers: Vec<usize> = Vec::new();
        layers.push(1);
        let r = CNQuadtree { store, root_key: 0, layers };
        proof {
            assert(count_at_layer(Seq::<Option<CNNode<T>>>::empty(), 0) == 0);
            assert(r.arena().drop_last() =~= Seq::<Option<CNNode<T>>>::empty());
            assert(count_at_layer(r.arena(), 0) == 1);
            assert(forall|i: int| #[trigger] r.live(i) ==> i == 0);
        }
        r
    }

    /// Returns the root node's index.
    pub fn get_root(&self) -> (r: usize)
        ensures
            r == self.spec_root(),
    {
        self.root_key
    }

    /// The number of arena slots, live or vacated.
    pub(crate) fn arena_len(&self) -> (r: usize)
        ensures
            r == self.arena().len(),
    {
        self.store.len()
    }

    /// Returns a shared reference to the node if the index names a live node.
    /// Otherwise, returns None.
    pub fn get_node(&self, index: usize) -> (r: Option<&CNNode<T>>)
        ensures
            match r {
                Some(n) => self.live(index as int) && *n == self.node(index as int),
                None => !self.live(index as int),
            },
    {
        if index < self.store.len() {
            self.store[index].as_ref()
        } else {
            None
        }
    }

    /// Returns a unique reference to the node if the index names a live node.
    /// Otherwise returns None. The caller may mutate the node freely; the
    /// tree's invariant is only kept if the mutation leaves the node's layer,
    /// bounds, parent and children untouched.
    pub fn get_node_mut(&mut self, index: usize) -> (r: Option<&mut CNNode<T>>)
        ensures
            match r {
                Some(m) => {
                    &&& old(self).live(index as int)
                    &&& *m == old(self).node(index as int)
                    &&& final(self).arena() == old(self).arena().update(
                        index as int,
                        Some(*final(m)),
                    )
                    &&& final(self).spec_root() == old(self).spec_root()
                    &&& final(self).layer_counts() == old(self).layer_counts()
                },
                None => !old(self).live(index as int) && *final(self) == *old(self),
            },
    {
        if index < self.store.len() && self.store[index].is_some() {
            match &mut self.store[index] {
                Some(n) => Some(n),
                None => None,
            }
        } else {
            None
        }
    }

    /// Replace one neighbor slot of a live node, leaving every other slot and
    /// every other node untouched.
    fn set_neighbor(&mut self, index: usize, direction: Cardinality, v: Option<usize>)
        requires
            old(self).live(index as int),
        ensures
            final(self).arena().len() == old(self).arena().len(),
            forall|j: int| 0 <= j < old(self).arena().len() && j != index
                ==> final(self).arena()[j] == old(self).arena()[j],
            final(self).live(index as int),
            final(self).node(index as int).neighbors@ == old(self).node(
                index as int,
            ).neighbors@.update(direction.as_int(), v),
            final(self).node(index as int).item == old(self).node(index as int).item,
            final(self).node(index as int).layer == old(self).node(index as int).layer,
            final(self).node(index as int).bounds == old(self).node(index as int).bounds,
            final(self).node(index as int).parent == old(self).node(index as int).parent,
            final(self).node(index as int).children == old(self).node(index as int).children,
            final(self).spec_root() == old(self).spec_root(),
            final(self).layer_counts() == old(self).layer_counts(),
    {
        match &mut self.store[index] {
            Some(n) => n.update_neighbor(v, direction),
            None => {},
        }
    }

    /// The chain of neighbor indices collected by the border walk that starts
    /// at `cur`, on behalf of the node `base` at layer `base_layer` looking in
    /// `direction`. Each step appends the current index and advances along the
    /// succeeding neighbor pointer, stopping when that pointer is absent or
    /// dead, reaches layer `base_layer` or shallower (the rest of the border
    /// is covered by same-size-or-larger regions), or no longer points back at
    /// `base`.
    pub open spec fn neighbor_chain(
        self,
        cur: usize,
        base: usize,
        base_layer: int,
        direction: Cardinality,
        fuel: nat,
    ) -> Seq<usize>
        decreases fuel,
    {
        if fuel == 0 || !self.live(cur as int) {
            Seq::empty()
        } else {
            let rest = match self.node(cur as int).neighbor(direction.spec_next_neighbor()) {
                Some(nx) => {
                    if self.live(nx as int) && self.node(nx as int).layer > base_layer
                        && self.node(nx as int).neighbor(direction.spec_opposite()) == Some(base) {
                        self.neighbor_chain(nx, base, base_layer, direction, (fuel - 1) as nat)
                    } else {
                        Seq::empty()
                    }
                },
                None => Seq::empty(),
            };
            seq![cur] + rest
        }
    }

    /// The ordered list of neighbor indices of a live node in a direction:
    /// empty when the node is a border node on that side, otherwise the walk
    /// starting from the node's direct neighbor pointer.
    pub open spec fn spec_neighbors(self, index: usize, direction: Cardinality) -> Seq<usize> {
        match self.node(index as int).neighbor(direction) {
            Some(first) => self.neighbor_chain(
                first,
                index,
                self.node(index as int).layer as int,
                direction,
                self.arena().len(),
            ),
            None => Seq::empty(),
        }
    }

    /// Returns the ordered list of nodes bordering the given node in the
    /// given direction: absent when the index names no live node, an empty
    /// present list when the node borders the edge of the tree on that side,
    /// and more than one entry when the border is shared with smaller, deeper
    /// nodes.
    pub fn get_neighbors(&self, index: usize, direction: Cardinality) -> (r: Option<Vec<usize>>)
        ensures
            match r {
                Some(v) => {
                    &&& self.live(index as int)
                    &&& v@ == self.spec_neighbors(index, direction)
                    &&& forall|j: int| 0 <= j < v@.len() ==> self.live(v@[j] as int)
                },
                None => !self.live(index as int),
            },
    {
        let node = match self.get_node(index) {
            Some(n) => n,
            None => {
                return None;
            },
        };
        let base_layer = node.level();
        let mut result: Vec<usize> = Vec::new();
        let first = match node.get_cardinal_neighbor_index(direction) {
            Some(f) => f,
            None => {
                return Some(result);
            },
        };
        let ghost total = self.spec_neighbors(index, direction);
        let mut cur = first;
        let mut fuel: usize = self.store.len();
        loop
            invariant_except_break
                total =~= result@ + self.neighbor_chain(
                    cur,
                    index,
                    base_layer as int,
                    direction,
                    fuel as nat,
                ),
            invariant
                self.live(index as int),
                base_layer == self.node(index as int).layer,
                total == self.spec_neighbors(index, direction),
                forall|j: int| 0 <= j < result@.len() ==> self.live(result@[j] as int),
            ensures
                result@ == total,
                forall|j: int| 0 <= j < result@.len() ==> self.live(result@[j] as int),
            decreases fuel,
        {
            if fuel == 0 {
                break;
            }
            let cur_node = match self.get_node(cur) {
                Some(n) => n,
                None => {
                    break;
                },
            };
            result.push(cur);
            fuel = fuel - 1;
            let nx = match cur_node.get_cardinal_neighbor_index(direction.next_neighbor()) {
                Some(n) => n,
                None => {
                    break;
                },
            };
            let nx_node = match self.get_node(nx) {
                Some(n) => n,
                None => {
                    break;
                },
            };
            if nx_node.level() <= base_layer {
                break;
            }
            let back = match nx_node.get_cardinal_neighbor_index(direction.opposite()) {
                Some(b) => b,
                None => {
                    break;
                },
            };
            if back != index {
                break;
            }
            cur = nx;
        }
        Some(result)
    }

    /// Returns which of the parent's four quadrant slots holds the given
    /// node, or absent if the node is the root or the index names no live
    /// node.
    pub fn location_among_siblings(&self, index: usize) -> (r: Option<Location>)
        requires
            self.wf(),
        ensures
            match r {
                Some(loc) => {
                    &&& self.live(index as int)
                    &&& self.node(index as int).parent is Some
                    &&& self.live(self.node(index as int).parent->Some_0 as int)
                    &&& self.node(self.node(index as int).parent->Some_0 as int).children is Some
                    &&& self.node(self.node(index as int).parent->Some_0 as int).child(loc)
                        == index
                },
                None => !self.live(index as int) || self.node(index as int).parent is None,
            },
    {
        let node = match self.get_node(index) {
            Some(n) => n,
            None => {
                return None;
            },
        };
        let p = match node.get_parent_index() {
            Some(p) => p,
            None => {
                return None;
            },
        };
        proof {
            assert(self.live(index as int));
            assert(self.wf_links(index as int));
        }
        let parent = match self.get_node(p) {
            Some(n) => n,
            None => {
                return None;
            },
        };
        let children = match parent.get_children_index() {
            Some(cs) => cs,
            None => {
                return None;
            },
        };
        if children[0] == index {
            Some(Location::NorthWest)
        } else if children[1] == index {
            Some(Location::NorthEast)
        } else if children[2] == index {
            Some(Location::SouthWest)
        } else if children[3] == index {
            Some(Location::SouthEast)
        } else {
            proof {
                assert(false);
            }
            None
        }
    }

    /// Replace all four neighbor slots of a live node at once, leaving every
    /// other node untouched.
    fn set_all_neighbors(&mut self, index: usize, ns: [Option<usize>; 4])
        requires
            old(self).live(index as int),
        ensures
            final(self).arena().len() == old(self).arena().len(),
            forall|j: int| 0 <= j < old(self).arena().len() && j != index
                ==> final(self).arena()[j] == old(self).arena()[j],
            final(self).live(index as int),
            final(self).node(index as int).neighbors == ns,
            same_but_neighbors(old(self).arena()[index as int], final(self).arena()[index as int]),
            final(self).spec_root() == old(self).spec_root(),
            final(self).layer_counts() == old(self).layer_counts(),
    {
        match &mut self.store[index] {
            Some(n) => n.update_neighbors(ns),
            None => {},
        }
    }

    /// Demote a live node to an internal node: record its four children and
    /// clear its neighbor slots, leaving every other node untouched.
    fn seal_parent(&mut self, index: usize, ks: [usize; 4])
        requires
            old(self).live(index as int),
        ensures
            final(self).arena().len() == old(self).arena().len(),
            forall|j: int| 0 <= j < old(self).arena().len() && j != index
                ==> final(self).arena()[j] == old(self).arena()[j],
            final(self).live(index as int),
            final(self).node(index as int).children == Some(ks),
            final(self).node(index as int).neighbors@ =~= seq![
                None::<usize>,
                None::<usize>,
                None::<usize>,
                None::<usize>,
            ],
            final(self).node(index as int).item == old(self).node(index as int).item,
            final(self).node(index as int).layer == old(self).node(index as int).layer,
            final(self).node(index as int).bounds == old(self).node(index as int).bounds,
            final(self).node(index as int).parent == old(self).node(index as int).parent,
            final(self).spec_root() == old(self).spec_root(),
            final(self).layer_counts() == old(self).layer_counts(),
    {
        match &mut self.store[index] {
            Some(n) => {
                n.update_neighbors([None, None, None, None]);
                n.update_children(Some(ks));
            },
            None => {},
        }
    }

    /// Repoint the collected former neighbors of a splitting node, on one
    /// border, at the two children now lining that border: entries default to
    /// the child at the near end of the border and switch to the far child
    /// from the entry matching the far child's own looked-up neighbor onward.
    fn update_neighbors_to_children(
        &mut self,
        neighbors: &Vec<usize>,
        first_child: usize,
        second_child: usize,
        second_child_cardinal_neighbor: Option<usize>,
        cardinality: Cardinality,
    )
        requires
            forall|j: int| 0 <= j < neighbors@.len() ==> old(self).live(
                #[trigger] neighbors@[j] as int,
            ),
        ensures
            final(self).arena().len() == old(self).arena().len(),
            forall|j: int| 0 <= j < old(self).arena().len() && !neighbors@.contains(j as usize)
                ==> final(self).arena()[j] == old(self).arena()[j],
            forall|j: int| 0 <= j < old(self).arena().len() ==> same_but_neighbors(
                old(self).arena()[j],
                #[trigger] final(self).arena()[j],
            ),
            forall|j: int, k: int|
                0 <= j < old(self).arena().len() && old(self).arena()[j] is Some && 0 <= k < 4
                    ==> (#[trigger] final(self).node(j).neighbors@[k] == old(self).node(
                    j,
                ).neighbors@[k] || final(self).node(j).neighbors@[k] == Some(first_child)
                    || final(self).node(j).neighbors@[k] == Some(second_child)),
            forall|j: int, k: int|
                0 <= j < old(self).arena().len() && old(self).arena()[j] is Some && 0 <= k < 4 && k
                    != cardinality.spec_opposite().as_int() ==> #[trigger] final(self).node(
                    j,
                ).neighbors@[k] == old(self).node(j).neighbors@[k],
            forall|m: int|
                0 <= m < neighbors@.len() ==> (final(self).node(
                    #[trigger] neighbors@[m] as int,
                ).neighbor(cardinality.spec_opposite()) == Some(first_child) || final(self).node(
                    neighbors@[m] as int,
                ).neighbor(cardinality.spec_opposite()) == Some(second_child)),
            forall|m: int|
                0 <= m < neighbors@.len() && (forall|m2: int|
                    m < m2 < neighbors@.len() ==> neighbors@[m2] != neighbors@[m])
                    ==> final(self).node(#[trigger] neighbors@[m] as int).neighbor(
                    cardinality.spec_opposite(),
                ) == Some(
                    if repoint_switched(neighbors@, second_child_cardinal_neighbor, m) {
                        second_child
                    } else {
                        first_child
                    },
                ),
            final(self).spec_root() == old(self).spec_root(),
            final(self).layer_counts() == old(self).layer_counts(),
    {
        let opp = cardinality.opposite();
        let mut new_neighbor: Option<usize> = Some(first_child);
        let mut idx: usize = 0;
        while idx < neighbors.len()
            invariant
                idx <= neighbors@.len(),
                opp == cardinality.spec_opposite(),
                forall|j: int| 0 <= j < neighbors@.len() ==> old(self).live(
                    #[trigger] neighbors@[j] as int,
                ),
                self.arena().len() == old(self).arena().len(),
                forall|j: int| 0 <= j < old(self).arena().len() && !neighbors@.contains(j as usize)
                    ==> self.arena()[j] == old(self).arena()[j],
                forall|j: int| 0 <= j < old(self).arena().len() ==> same_but_neighbors(
                    old(self).arena()[j],
                    #[trigger] self.arena()[j],
                ),
                forall|j: int, k: int|
                    0 <= j < old(self).arena().len() && old(self).arena()[j] is Some && 0 <= k < 4
                        ==> (#[trigger] self.node(j).neighbors@[k] == old(self).node(
                        j,
                    ).neighbors@[k] || self.node(j).neighbors@[k] == Some(first_child)
                        || self.node(j).neighbors@[k] == Some(second_child)),
                forall|j: int, k: int|
                    0 <= j < old(self).arena().len() && old(self).arena()[j] is Some && 0 <= k < 4
                        && k != cardinality.spec_opposite().as_int() ==> #[trigger] self.node(
                        j,
                    ).neighbors@[k] == old(self).node(j).neighbors@[k],
                forall|m: int|
                    0 <= m < idx ==> (self.node(#[trigger] neighbors@[m] as int).neighbor(
                        cardinality.spec_opposite(),
                    ) == Some(first_child) || self.node(neighbors@[m] as int).neighbor(
                        cardinality.spec_opposite(),
                    ) == Some(second_child)),
                forall|m: int|
                    0 <= m < idx && (forall|m2: int|
                        m < m2 < idx ==> neighbors@[m2] != neighbors@[m]) ==> self.node(
                        #[trigger] neighbors@[m] as int,
                    ).neighbor(cardinality.spec_opposite()) == Some(
                        if repoint_switched(neighbors@, second_child_cardinal_neighbor, m) {
                            second_child
                        } else {
                            first_child
                        },
                    ),
                new_neighbor == Some(
                    if repoint_switched(neighbors@, second_child_cardinal_neighbor, idx - 1) {
                        second_child
                    } else {
                        first_child
                    },
                ),
                self.spec_root() == old(self).spec_root(),
                self.layer_counts() == old(self).layer_counts(),
            decreases neighbors@.len() - idx,
        {
            let nb = neighbors[idx];
            let matches_lookup = match second_child_cardinal_neighbor {
                Some(m) => nb == m,
                None => false,
            };
            if matches_lookup {
                new_neighbor = Some(second_child);
            }
            proof {
                assert(neighbors@.contains(nb));
                assert(old(self).live(nb as int));
                assert(same_but_neighbors(old(self).arena()[nb as int], self.arena()[nb as int]));
            }
            let ghost prev = *self;
            let ghost prev_target = new_neighbor;
            self.set_neighbor(nb, opp, new_neighbor);
            proof {
                lemma_repoint_switched_step(
                    neighbors@,
                    second_child_cardinal_neighbor,
                    idx as int,
                );
                assert forall|j: int, k: int|
                    0 <= j < old(self).arena().len() && old(self).arena()[j] is Some && 0 <= k < 4
                        implies (#[trigger] self.node(j).neighbors@[k] == old(self).node(
                        j,
                    ).neighbors@[k] || self.node(j).neighbors@[k] == Some(first_child)
                        || self.node(j).neighbors@[k] == Some(second_child)) by {
                    if j == nb as int {
                        if k != opp.as_int() {
                            assert(self.node(j).neighbors@[k] == prev.node(j).neighbors@[k]);
                        }
                    } else {
                        assert(self.arena()[j] == prev.arena()[j]);
                    }
                }
                assert forall|j: int, k: int|
                    0 <= j < old(self).arena().len() && old(self).arena()[j] is Some && 0 <= k < 4
                        && k != opp.as_int() implies #[trigger] self.node(j).neighbors@[k] == old(
                        self,
                    ).node(j).neighbors@[k] by {
                    if j == nb as int {
                        assert(self.node(j).neighbors@[k] == prev.node(j).neighbors@[k]);
                    } else {
                        assert(self.arena()[j] == prev.arena()[j]);
                    }
                }
                assert(self.node(nb as int).neighbor(cardinality.spec_opposite())
                    == new_neighbor);
                assert forall|m: int| 0 <= m < idx + 1 implies (self.node(
                    #[trigger] neighbors@[m] as int,
                ).neighbor(cardinality.spec_opposite()) == Some(first_child) || self.node(
                    neighbors@[m] as int,
                ).neighbor(cardinality.spec_opposite()) == Some(second_child)) by {
                    if m < idx && neighbors@[m] != nb {
                        assert(self.arena()[neighbors@[m] as int] == prev.arena()[neighbors@[m] as int]);
                    }
                }
                assert forall|m: int|
                    0 <= m < idx + 1 && (forall|m2: int|
                        m < m2 < idx + 1 ==> neighbors@[m2] != neighbors@[m]) implies self.node(
                        #[trigger] neighbors@[m] as int,
                    ).neighbor(cardinality.spec_opposite()) == Some(
                        if repoint_switched(neighbors@, second_child_cardinal_neighbor, m) {
                            second_child
                        } else {
                            first_child
                        },
                    ) by {
                    if m < idx {
                        assert(neighbors@[m] != nb);
                        assert(self.arena()[neighbors@[m] as int] == prev.arena()[neighbors@[m] as int]);
                    }
                }
            }
            idx = idx + 1;
        }
    }

    /// Inherited and looked-up external neighbor for the two children lining
    /// one border of a splitting node: the near-end child takes the splitting
    /// node's own first neighbor on that border, the far-end child's neighbor
    /// is found by the border walk.
    fn get_children_cardinal_neighbors(
        &self,
        cardinal_neighbor: Option<usize>,
        parent_layer: usize,
        cardinality: Cardinality,
    ) -> (r: (Option<usize>, Option<usize>))
        requires
            self.wf(),
            parent_layer < self.layer_counts().len(),
        ensures
            r.0 == cardinal_neighbor,
            match cardinal_neighbor {
                Some(inherited) => r.1 == spec_find_neighbor(
                    *self,
                    parent_layer + 1,
                    cardinality,
                    inherited,
                ),
                None => r.1 is None,
            },
    {
        let total = self.arena_len();
        proof {
            assert(parent_layer < total);
        }
        match cardinal_neighbor {
            None => (None, None),
            Some(inherited_neighbor) => (
                Some(inherited_neighbor),
                crate::tree::find_cardinal_neighbor(
                    self,
                    parent_layer + 1,
                    cardinality,
                    inherited_neighbor,
                ),
            ),
        }
    }

    /// Split a leaf into four children tiling its bounds at the midpoint of
    /// each axis, one layer deeper. Fails with `InvalidIndex` when the index
    /// names no live node and with `AlreadySubdivided` when the node already
    /// has children; both failures hand the four payloads back unconsumed and
    /// happen before any mutation. On success the children are returned in
    /// NorthWest, NorthEast, SouthWest, SouthEast order; on each border the
    /// child at the border walk's starting corner inherits the split node's
    /// own neighbor pointer (NorthWest for West and North, SouthEast for East
    /// and South), the other child's pointer is found by the border walk, the
    /// collected former neighbors are repointed at the children, and the split
    /// node itself becomes an internal node with cleared neighbor slots.
    #[verifier::rlimit(100)]
    pub fn subdivide(&mut self, index: usize, items: (T, T, T, T)) -> (r: Result<
        [usize; 4],
        SubdivideError<T>,
    >)
        requires
            old(self).wf(),
        ensures
            final(self).wf(),
            final(self).spec_root() == old(self).spec_root(),
            match r {
                Result::Err(e) => {
                    &&& *final(self) == *old(self)
                    &&& e.items == items
                    &&& !(old(self).live(index as int) && old(self).node(index as int).children
                        is None)
                    &&& e.source == (if !old(self).live(index as int) {
                        SubdivideErrorEnum::InvalidIndex
                    } else {
                        SubdivideErrorEnum::AlreadySubdivided
                    })
                },
                Result::Ok(ks) => {
                    &&& old(self).live(index as int)
                    &&& old(self).node(index as int).children is None
                    &&& final(self).arena().len() == old(self).arena().len() + 4
                    &&& forall|q: int| 0 <= q < 4 ==> #[trigger] ks@[q] == old(
                        self,
                    ).arena().len() + q
                    &&& forall|q: int|
                        0 <= q < 4 ==> {
                            &&& final(self).live(#[trigger] ks@[q] as int)
                            &&& final(self).node(ks@[q] as int).layer == old(self).node(
                                index as int,
                            ).layer + 1
                            &&& final(self).node(ks@[q] as int).parent == Some(index)
                            &&& final(self).node(ks@[q] as int).children is None
                        }
                    &&& final(self).node(ks@[0] as int).item == items.0
                    &&& final(self).node(ks@[1] as int).item == items.1
                    &&& final(self).node(ks@[2] as int).item == items.2
                    &&& final(self).node(ks@[3] as int).item == items.3
                    &&& final(self).node(ks@[0] as int).bounds == child_bounds(
                        old(self).node(index as int).bounds,
                        Location::NorthWest,
                    )
                    &&& final(self).node(ks@[1] as int).bounds == child_bounds(
                        old(self).node(index as int).bounds,
                        Location::NorthEast,
                    )
                    &&& final(self).node(ks@[2] as int).bounds == child_bounds(
                        old(self).node(index as int).bounds,
                        Location::SouthWest,
                    )
                    &&& final(self).node(ks@[3] as int).bounds == child_bounds(
                        old(self).node(index as int).bounds,
                        Location::SouthEast,
                    )
                    &&& final(self).node(ks@[0] as int).neighbor(Cardinality::East) == Some(ks@[1])
                    &&& final(self).node(ks@[0] as int).neighbor(Cardinality::South) == Some(ks@[2])
                    &&& final(self).node(ks@[1] as int).neighbor(Cardinality::West) == Some(ks@[0])
                    &&& final(self).node(ks@[1] as int).neighbor(Cardinality::South) == Some(ks@[3])
                    &&& final(self).node(ks@[2] as int).neighbor(Cardinality::North) == Some(ks@[0])
                    &&& final(self).node(ks@[2] as int).neighbor(Cardinality::East) == Some(ks@[3])
                    &&& final(self).node(ks@[3] as int).neighbor(Cardinality::West) == Some(ks@[2])
                    &&& final(self).node(ks@[3] as int).neighbor(Cardinality::North) == Some(ks@[1])
                    &&& final(self).node(ks@[0] as int).neighbor(Cardinality::West) == first_of(
                        old(self).spec_neighbors(index, Cardinality::West),
                    )
                    &&& final(self).node(ks@[0] as int).neighbor(Cardinality::North) == first_of(
                        old(self).spec_neighbors(index, Cardinality::North),
                    )
                    &&& final(self).node(ks@[3] as int).neighbor(Cardinality::East) == first_of(
                        old(self).spec_neighbors(index, Cardinality::East),
                    )
                    &&& final(self).node(ks@[3] as int).neighbor(Cardinality::South) == first_of(
                        old(self).spec_neighbors(index, Cardinality::South),
                    )
                    &&& final(self).node(ks@[2] as int).neighbor(Cardinality::West)
                        == spec_looked_up(*old(self), index, Cardinality::West)
                    &&& final(self).node(ks@[1] as int).neighbor(Cardinality::North)
                        == spec_looked_up(*old(self), index, Cardinality::North)
                    &&& final(self).node(ks@[1] as int).neighbor(Cardinality::East)
                        == spec_looked_up(*old(self), index, Cardinality::East)
                    &&& final(self).node(ks@[2] as int).neighbor(Cardinality::South)
                        == spec_looked_up(*old(self), index, Cardinality::South)
                    &&& final(self).node(index as int).children == Some(ks)
                    &&& final(self).node(index as int).neighbors@ =~= seq![
                        None::<usize>,
                        None::<usize>,
                        None::<usize>,
                        None::<usize>,
                    ]
                    &&& final(self).node(index as int).item == old(self).node(index as int).item
                    &&& final(self).node(index as int).layer == old(self).node(index as int).layer
                    &&& final(self).node(index as int).bounds == old(self).node(index as int).bounds
                    &&& final(self).node(index as int).parent == old(self).node(index as int).parent
                    &&& forall|j: int| 0 <= j < old(self).arena().len() && j != index
                        ==> same_but_neighbors(
                        old(self).arena()[j],
                        #[trigger] final(self).arena()[j],
                    )
                    &&& {
                        let wl = old(self).spec_neighbors(index, Cardinality::West);
                        let nl = old(self).spec_neighbors(index, Cardinality::North);
                        let el = old(self).spec_neighbors(index, Cardinality::East);
                        let sl = old(self).spec_neighbors(index, Cardinality::South);
                        &&& forall|m: int|
                            0 <= m < wl.len() && wl[m] != index && (forall|m2: int|
                                m < m2 < wl.len() ==> wl[m2] != wl[m])
                                ==> final(self).node(#[trigger] wl[m] as int).neighbor(
                                Cardinality::East,
                            ) == Some(
                                if repoint_switched(
                                    wl,
                                    spec_looked_up(*old(self), index, Cardinality::West),
                                    m,
                                ) {
                                    ks@[2]
                                } else {
                                    ks@[0]
                                },
                            )
                        &&& forall|m: int|
                            0 <= m < nl.len() && nl[m] != index && (forall|m2: int|
                                m < m2 < nl.len() ==> nl[m2] != nl[m])
                                ==> final(self).node(#[trigger] nl[m] as int).neighbor(
                                Cardinality::South,
                            ) == Some(
                                if repoint_switched(
                                    nl,
                                    spec_looked_up(*old(self), index, Cardinality::North),
                                    m,
                                ) {
                                    ks@[1]
                                } else {
                                    ks@[0]
                                },
                            )
                        &&& forall|m: int|
                            0 <= m < el.len() && el[m] != index && (forall|m2: int|
                                m < m2 < el.len() ==> el[m2] != el[m])
                                ==> final(self).node(#[trigger] el[m] as int).neighbor(
                                Cardinality::West,
                            ) == Some(
                                if repoint_switched(
                                    el,
                                    spec_looked_up(*old(self), index, Cardinality::East),
                                    m,
                                ) {
                                    ks@[1]
                                } else {
                                    ks@[3]
                                },
                            )
                        &&& forall|m: int|
                            0 <= m < sl.len() && sl[m] != index && (forall|m2: int|
                                m < m2 < sl.len() ==> sl[m2] != sl[m])
                                ==> final(self).node(#[trigger] sl[m] as int).neighbor(
                                Cardinality::North,
                            ) == Some(
                                if repoint_switched(
                                    sl,
                                    spec_looked_up(*old(self), index, Cardinality::South),
                                    m,
                                ) {
                                    ks@[2]
                                } else {
                                    ks@[3]
                                },
                            )
                        &&& forall|j: int|
                            0 <= j < old(self).arena().len() && j != index && !wl.contains(
                                j as usize,
                            ) && !nl.contains(j as usize) && !el.contains(j as usize)
                                && !sl.contains(j as usize) ==> final(self).arena()[j] == old(
                                self,
                            ).arena()[j]
                    }
                },
            },
    {
        let (parent_layer, bounds) = match self.get_node(index) {
            Some(x) => {
                if x.has_children() {
                    return Result::Err(
                        SubdivideError { items, source: SubdivideErrorEnum::AlreadySubdivided },
                    );
                }
                (x.level(), x.get_bounds())
            },
            None => {
                return Result::Err(
                    SubdivideError { items, source: SubdivideErrorEnum::InvalidIndex },
                );
            },
        };
        let nlayers = self.layers.len();
        proof {
            assert(self.wf_links(index as int));
            assert(parent_layer < nlayers);
        }
        let ghost o = *old(self);
        let ghost oi = index as int;
        let ghost ol = o.arena().len() as int;

        let x_middle = (((bounds.0 as u64) + (bounds.2 as u64)) / 2) as u32;
        let y_middle = (((bounds.1 as u64) + (bounds.3 as u64)) / 2) as u32;
        proof {
            lemma_mid_between(bounds.0, bounds.2);
            lemma_mid_between(bounds.1, bounds.3);
            assert(x_middle == mid(bounds.0, bounds.2));
            assert(y_middle == mid(bounds.1, bounds.3));
        }

        // Collect the node's neighbor lists before any mutation: once the
        // split proceeds the node stops being a frontier node.
        let w_neighbors = self.get_neighbors(index, Cardinality::West).unwrap();
        let n_neighbors = self.get_neighbors(index, Cardinality::North).unwrap();
        let e_neighbors = self.get_neighbors(index, Cardinality::East).unwrap();
        let s_neighbors = self.get_neighbors(index, Cardinality::South).unwrap();

        let w_first = if w_neighbors.len() > 0 { Some(w_neighbors[0]) } else { None };
        let n_first = if n_neighbors.len() > 0 { Some(n_neighbors[0]) } else { None };
        let e_first = if e_neighbors.len() > 0 { Some(e_neighbors[0]) } else { None };
        let s_first = if s_neighbors.len() > 0 { Some(s_neighbors[0]) } else { None };

        // Inherited and looked-up non-sibling cardinal neighbors.
        let (nw_w, sw_w) = self.get_children_cardinal_neighbors(w_first, parent_layer, Cardinality::West);
        let (nw_n, ne_n) = self.get_children_cardinal_neighbors(n_first, parent_layer, Cardinality::North);
        let (se_e, ne_e) = self.get_children_cardinal_neighbors(e_first, parent_layer, Cardinality::East);
        let (se_s, sw_s) = self.get_children_cardinal_neighbors(s_first, parent_layer, Cardinality::South);
        proof {
            assert(w_first == first_of(o.spec_neighbors(index, Cardinality::West)));
            assert(n_first == first_of(o.spec_neighbors(index, Cardinality::North)));
            assert(e_first == first_of(o.spec_neighbors(index, Cardinality::East)));
            assert(s_first == first_of(o.spec_neighbors(index, Cardinality::South)));
            assert(sw_w == spec_looked_up(o, index, Cardinality::West));
            assert(ne_n == spec_looked_up(o, index, Cardinality::North));
            assert(ne_e == spec_looked_up(o, index, Cardinality::East));
            assert(sw_s == spec_looked_up(o, index, Cardinality::South));
        }

        let child_layer = parent_layer + 1;
        let (nw_item, ne_item, sw_item, se_item) = items;

        // Insert the four children.
        let k0 = self.store.len();
        self.store.push(Some(CNNode::new(nw_item, child_layer, (bounds.0, bounds.1, x_middle, y_middle), Some(index))));
        let k1 = self.store.len();
        self.store.push(Some(CNNode::new(ne_item, child_layer, (x_middle, bounds.1, bounds.2, y_middle), Some(index))));
        let k2 = self.store.len();
        self.store.push(Some(CNNode::new(sw_item, child_layer, (bounds.0, y_middle, x_middle, bounds.3), Some(index))));
        let k3 = self.store.len();
        self.store.push(Some(CNNode::new(se_item, child_layer, (x_middle, y_middle, bounds.2, bounds.3), Some(index))));

        // Two sibling-facing slots and two external slots for each child.
        self.set_all_neighbors(k0, [nw_w, nw_n, Some(k1), Some(k2)]);
        self.set_all_neighbors(k1, [Some(k0), ne_n, ne_e, Some(k3)]);
        self.set_all_neighbors(k2, [sw_w, Some(k0), Some(k3), sw_s]);
        self.set_all_neighbors(k3, [Some(k2), Some(k1), se_e, se_s]);

        let ghost t1 = *self;
        proof {
            assert(forall|j: int| 0 <= j < ol ==> t1.arena()[j] == o.arena()[j]);
            assert(forall|j: int| 0 <= j < w_neighbors@.len() ==> (#[trigger] w_neighbors@[j] as int) < ol);
            assert(forall|j: int| 0 <= j < n_neighbors@.len() ==> (#[trigger] n_neighbors@[j] as int) < ol);
            assert(forall|j: int| 0 <= j < e_neighbors@.len() ==> (#[trigger] e_neighbors@[j] as int) < ol);
            assert(forall|j: int| 0 <= j < s_neighbors@.len() ==> (#[trigger] s_neighbors@[j] as int) < ol);
        }

        // Repoint the collected former neighbors at the children now lining
        // each border.
        self.update_neighbors_to_children(&w_neighbors, k0, k2, sw_w, Cardinality::West);
        let ghost a1 = *self;
        self.update_neighbors_to_children(&n_neighbors, k0, k1, ne_n, Cardinality::North);
        let ghost a2 = *self;
        self.update_neighbors_to_children(&e_neighbors, k3, k1, ne_e, Cardinality::East);
        let ghost a3 = *self;
        self.update_neighbors_to_children(&s_neighbors, k3, k2, sw_s, Cardinality::South);
        let ghost a4 = *self;
        proof {
            assert(forall|j: int| 0 <= j < ol && j != oi ==> same_but_neighbors(
                o.arena()[j],
                #[trigger] a4.arena()[j],
            ));
            assert(a4.arena()[k0 as int] == t1.arena()[k0 as int]);
            assert(a4.arena()[k1 as int] == t1.arena()[k1 as int]);
            assert(a4.arena()[k2 as int] == t1.arena()[k2 as int]);
            assert(a4.arena()[k3 as int] == t1.arena()[k3 as int]);
            assert(same_but_neighbors(o.arena()[oi], a4.arena()[oi]));
        }

        // Demote the split node to an internal node.
        self.seal_parent(index, [k0, k1, k2, k3]);

        // Update the per-layer population counts.
        if self.layers.len() == child_layer {
            self.layers.push(0);
        }
        let cnt = self.layers[child_layer];
        let total_len = self.store.len();
        proof {
            assert(total_len == ol + 4);
            lemma_count_bound(o.arena(), child_layer as int);
            if (child_layer as int) < o.layer_counts().len() {
                assert(o.layer_counts()[child_layer as int] == count_at_layer(
                    o.arena(),
                    child_layer as int,
                ));
            } else {
                assert forall|j: int| 0 <= j < ol implies layer_occupancy(
                    #[trigger] o.arena()[j],
                    child_layer as int,
                ) == 0 by {
                    if o.arena()[j] is Some {
                        assert(o.live(j));
                        assert(o.wf_links(j));
                    }
                }
                lemma_count_empty_layer(o.arena(), child_layer as int);
            }
            assert(self.arena().len() == ol + 4);
            assert(cnt <= ol);
            assert(cnt == count_at_layer(o.arena(), child_layer as int));
        }
        self.layers[child_layer] = cnt + 4;

        proof {
            let f = *self;
            let ks = [k0, k1, k2, k3];
            assert(ks@[0] == k0 && ks@[1] == k1 && ks@[2] == k2 && ks@[3] == k3);
            assert(forall|j: int| 0 <= j < ol && j != oi ==> same_but_neighbors(
                o.arena()[j],
                #[trigger] f.arena()[j],
            ));
            assert forall|m: int|
                0 <= m < w_neighbors@.len() && w_neighbors@[m] != index && (forall|m2: int|
                    m < m2 < w_neighbors@.len() ==> w_neighbors@[m2] != w_neighbors@[m]) implies f.node(
                #[trigger] w_neighbors@[m] as int,
            ).neighbor(Cardinality::East) == Some(
                if repoint_switched(w_neighbors@, sw_w, m) {
                    k2
                } else {
                    k0
                },
            ) by {
                let j = w_neighbors@[m] as int;
                assert(o.live(j));
                assert(a1.node(j).neighbor(Cardinality::East) == Some(
                    if repoint_switched(w_neighbors@, sw_w, m) {
                        k2
                    } else {
                        k0
                    },
                ));
                assert(a2.node(j).neighbors@[2] == a1.node(j).neighbors@[2]);
                assert(a3.node(j).neighbors@[2] == a2.node(j).neighbors@[2]);
                assert(a4.node(j).neighbors@[2] == a3.node(j).neighbors@[2]);
                assert(f.arena()[j] == a4.arena()[j]);
            }
            assert forall|m: int|
                0 <= m < n_neighbors@.len() && n_neighbors@[m] != index && (forall|m2: int|
                    m < m2 < n_neighbors@.len() ==> n_neighbors@[m2] != n_neighbors@[m]) implies f.node(
                #[trigger] n_neighbors@[m] as int,
            ).neighbor(Cardinality::South) == Some(
                if repoint_switched(n_neighbors@, ne_n, m) {
                    k1
                } else {
                    k0
                },
            ) by {
                let j = n_neighbors@[m] as int;
                assert(o.live(j));
                assert(a2.node(j).neighbor(Cardinality::South) == Some(
                    if repoint_switched(n_neighbors@, ne_n, m) {
                        k1
                    } else {
                        k0
                    },
                ));
                assert(a3.node(j).neighbors@[3] == a2.node(j).neighbors@[3]);
                assert(a4.node(j).neighbors@[3] == a3.node(j).neighbors@[3]);
                assert(f.arena()[j] == a4.arena()[j]);
            }
            assert forall|m: int|
                0 <= m < e_neighbors@.len() && e_neighbors@[m] != index && (forall|m2: int|
                    m < m2 < e_neighbors@.len() ==> e_neighbors@[m2] != e_neighbors@[m]) implies f.node(
                #[trigger] e_neighbors@[m] as int,
            ).neighbor(Cardinality::West) == Some(
                if repoint_switched(e_neighbors@, ne_e, m) {
                    k1
                } else {
                    k3
                },
            ) by {
                let j = e_neighbors@[m] as int;
                assert(o.live(j));
                assert(a3.node(j).neighbor(Cardinality::West) == Some(
                    if repoint_switched(e_neighbors@, ne_e, m) {
                        k1
                    } else {
                        k3
                    },
                ));
                assert(a4.node(j).neighbors@[0] == a3.node(j).neighbors@[0]);
                assert(f.arena()[j] == a4.arena()[j]);
            }
            assert forall|m: int|
                0 <= m < s_neighbors@.len() && s_neighbors@[m] != index && (forall|m2: int|
                    m < m2 < s_neighbors@.len() ==> s_neighbors@[m2] != s_neighbors@[m]) implies f.node(
                #[trigger] s_neighbors@[m] as int,
            ).neighbor(Cardinality::North) == Some(
                if repoint_switched(s_neighbors@, sw_s, m) {
                    k2
                } else {
                    k3
                },
            ) by {
                let j = s_neighbors@[m] as int;
                assert(o.live(j));
                assert(a4.node(j).neighbor(Cardinality::North) == Some(
                    if repoint_switched(s_neighbors@, sw_s, m) {
                        k2
                    } else {
                        k3
                    },
                ));
                assert(f.arena()[j] == a4.arena()[j]);
            }
            assert forall|j: int|
                0 <= j < ol && j != oi && !w_neighbors@.contains(j as usize)
                    && !n_neighbors@.contains(j as usize) && !e_neighbors@.contains(j as usize)
                    && !s_neighbors@.contains(j as usize) implies f.arena()[j] == o.arena()[j] by {
                assert(t1.arena()[j] == o.arena()[j]);
                assert(a1.arena()[j] == t1.arena()[j]);
                assert(a2.arena()[j] == a1.arena()[j]);
                assert(a3.arena()[j] == a2.arena()[j]);
                assert(a4.arena()[j] == a3.arena()[j]);
                assert(f.arena()[j] == a4.arena()[j]);
            }
            lemma_subdivide_preserves_wf(o, f, index, ks);
        }
        Result::Ok([k0, k1, k2, k3])
    }

    /// Collect, in border order, the concatenated neighbor lists of the two
    /// children lining one border of a merging node, before any mutation.
    fn collect_children_neighbors(
        &self,
        first_child: usize,
        second_child: usize,
        cardinality: Cardinality,
    ) -> (r: Vec<usize>)
        requires
            self.live(first_child as int),
            self.live(second_child as int),
        ensures
            r@ == self.spec_neighbors(first_child, cardinality) + self.spec_neighbors(
                second_child,
                cardinality,
            ),
            forall|j: int| 0 <= j < r@.len() ==> self.live(#[trigger] r@[j] as int),
    {
        let mut neighbors = self.get_neighbors(first_child, cardinality).unwrap();
        let mut other_neighbors = self.get_neighbors(second_child, cardinality).unwrap();
        neighbors.append(&mut other_neighbors);
        neighbors
    }

    /// Restore a merging node to a leaf: clear its children slot and set its
    /// four neighbor slots, leaving every other node untouched.
    fn restore_parent(&mut self, index: usize, ns: [Option<usize>; 4])
        requires
            old(self).live(index as int),
        ensures
            final(self).arena().len() == old(self).arena().len(),
            forall|j: int| 0 <= j < old(self).arena().len() && j != index
                ==> final(self).arena()[j] == old(self).arena()[j],
            final(self).live(index as int),
            final(self).node(index as int).children is None,
            final(self).node(index as int).neighbors == ns,
            final(self).node(index as int).item == old(self).node(index as int).item,
            final(self).node(index as int).layer == old(self).node(index as int).layer,
            final(self).node(index as int).bounds == old(self).node(index as int).bounds,
            final(self).node(index as int).parent == old(self).node(index as int).parent,
            final(self).spec_root() == old(self).spec_root(),
            final(self).layer_counts() == old(self).layer_counts(),
    {
        match &mut self.store[index] {
            Some(n) => {
                n.update_neighbors(ns);
                n.update_children(None);
            },
            None => {},
        }
    }

    /// Vacate a live slot and hand back its node's payload. The slot is never
    /// reused.
    fn remove_node(&mut self, index: usize) -> (t: T)
        requires
            old(self).live(index as int),
        ensures
            final(self).arena() == old(self).arena().update(index as int, None),
            t == old(self).node(index as int).item,
            final(self).spec_root() == old(self).spec_root(),
            final(self).layer_counts() == old(self).layer_counts(),
    {
        let slot = &mut self.store[index];
        let val = slot.take();
        match val {
            Some(n) => n.pop(),
            None => {
                proof {
                    assert(false);
                }
                vstd::pervasive::unreached()
            },
        }
    }

    /// Merge a node's children back into it: legal only when the node has
    /// children and all four are themselves leaves, otherwise a no-op
    /// signaled as absent. The four children's payloads come back in
    /// NorthWest, NorthEast, SouthWest, SouthEast order; every neighbor of a
    /// child is repointed at the node, the node's own pointer on each border
    /// becomes the first entry of the children's concatenated neighbor lists
    /// on that border, the children's slots are vacated, and the node is
    /// restored to leaf state.
    #[verifier::rlimit(100)]
    pub fn pop_children(&mut self, index: usize) -> (r: Option<(T, T, T, T)>)
        requires
            old(self).wf(),
        ensures
            final(self).wf(),
            final(self).spec_root() == old(self).spec_root(),
            match r {
                None => {
                    &&& *final(self) == *old(self)
                    &&& !{
                        &&& old(self).live(index as int)
                        &&& old(self).node(index as int).children is Some
                        &&& forall|q: int|
                            0 <= q < 4 ==> old(self).node(
                                #[trigger] old(self).node(
                                    index as int,
                                ).children->Some_0@[q] as int,
                            ).children is None
                    }
                },
                Some(ts) => {
                    &&& old(self).live(index as int)
                    &&& old(self).node(index as int).children is Some
                    &&& {
                        let cs = old(self).node(index as int).children->Some_0;
                        &&& forall|q: int| 0 <= q < 4 ==> old(self).node(
                            #[trigger] cs@[q] as int,
                        ).children is None
                        &&& ts.0 == old(self).node(cs@[0] as int).item
                        &&& ts.1 == old(self).node(cs@[1] as int).item
                        &&& ts.2 == old(self).node(cs@[2] as int).item
                        &&& ts.3 == old(self).node(cs@[3] as int).item
                        &&& forall|q: int| 0 <= q < 4 ==> !final(self).live(#[trigger] cs@[q] as int)
                        &&& forall|j: int|
                            0 <= j < old(self).arena().len() && j != index && !cs@.contains(
                                j as usize,
                            ) ==> same_but_neighbors(
                                old(self).arena()[j],
                                #[trigger] final(self).arena()[j],
                            )
                        &&& {
                            let mw = old(self).spec_neighbors(cs@[0], Cardinality::West) + old(
                                self,
                            ).spec_neighbors(cs@[2], Cardinality::West);
                            let mn = old(self).spec_neighbors(cs@[0], Cardinality::North) + old(
                                self,
                            ).spec_neighbors(cs@[1], Cardinality::North);
                            let me = old(self).spec_neighbors(cs@[3], Cardinality::East) + old(
                                self,
                            ).spec_neighbors(cs@[1], Cardinality::East);
                            let ms = old(self).spec_neighbors(cs@[3], Cardinality::South) + old(
                                self,
                            ).spec_neighbors(cs@[2], Cardinality::South);
                            &&& final(self).node(index as int).neighbor(Cardinality::West)
                                == first_of(mw)
                            &&& final(self).node(index as int).neighbor(Cardinality::North)
                                == first_of(mn)
                            &&& final(self).node(index as int).neighbor(Cardinality::East)
                                == first_of(me)
                            &&& final(self).node(index as int).neighbor(Cardinality::South)
                                == first_of(ms)
                            &&& forall|m: int|
                                0 <= m < mw.len() && mw[m] != index && !cs@.contains(mw[m])
                                    ==> final(self).node(#[trigger] mw[m] as int).neighbor(
                                    Cardinality::East,
                                ) == Some(index)
                            &&& forall|m: int|
                                0 <= m < mn.len() && mn[m] != index && !cs@.contains(mn[m])
                                    ==> final(self).node(#[trigger] mn[m] as int).neighbor(
                                    Cardinality::South,
                                ) == Some(index)
                            &&& forall|m: int|
                                0 <= m < me.len() && me[m] != index && !cs@.contains(me[m])
                                    ==> final(self).node(#[trigger] me[m] as int).neighbor(
                                    Cardinality::West,
                                ) == Some(index)
                            &&& forall|m: int|
                                0 <= m < ms.len() && ms[m] != index && !cs@.contains(ms[m])
                                    ==> final(self).node(#[trigger] ms[m] as int).neighbor(
                                    Cardinality::North,
                                ) == Some(index)
                            &&& forall|j: int|
                                0 <= j < old(self).arena().len() && j != index && !cs@.contains(
                                    j as usize,
                                ) && !mw.contains(j as usize) && !mn.contains(j as usize)
                                    && !me.contains(j as usize) && !ms.contains(j as usize)
                                    ==> final(self).arena()[j] == old(self).arena()[j]
                        }
                    }
                    &&& final(self).arena().len() == old(self).arena().len()
                    &&& final(self).live(index as int)
                    &&& final(self).node(index as int).children is None
                    &&& final(self).node(index as int).item == old(self).node(index as int).item
                    &&& final(self).node(index as int).layer == old(self).node(index as int).layer
                    &&& final(self).node(index as int).bounds == old(self).node(index as int).bounds
                    &&& final(self).node(index as int).parent == old(self).node(index as int).parent
                },
            },
    {
        let (parent_layer, children) = match self.get_node(index) {
            Some(n) => {
                match n.get_children_index() {
                    Some(cs) => (n.level(), cs),
                    None => {
                        return None;
                    },
                }
            },
            None => {
                return None;
            },
        };
        proof {
            assert(self.wf_links(index as int));
        }
        let c0 = children[0];
        let c1 = children[1];
        let c2 = children[2];
        let c3 = children[3];
        // Merging is legal only one level up from the frontier: all four
        // children must be leaves.
        if self.get_node(c0).unwrap().has_children() {
            return None;
        }
        if self.get_node(c1).unwrap().has_children() {
            return None;
        }
        if self.get_node(c2).unwrap().has_children() {
            return None;
        }
        if self.get_node(c3).unwrap().has_children() {
            return None;
        }
        let ghost o = *old(self);
        let ghost oi = index as int;
        let ghost ol = o.arena().len() as int;
        let total = self.arena_len();
        proof {
            assert(o.arena().len() == total);
        }

        // Collect, before any mutation, the children's neighbor lists on each
        // border, in border order; the first entry of each becomes the merged
        // node's own pointer for that border.
        let m_w = self.collect_children_neighbors(c0, c2, Cardinality::West);
        let m_n = self.collect_children_neighbors(c0, c1, Cardinality::North);
        let m_e = self.collect_children_neighbors(c3, c1, Cardinality::East);
        let m_s = self.collect_children_neighbors(c3, c2, Cardinality::South);
        let w_cneighbor = if m_w.len() > 0 { Some(m_w[0]) } else { None };
        let n_cneighbor = if m_n.len() > 0 { Some(m_n[0]) } else { None };
        let e_cneighbor = if m_e.len() > 0 { Some(m_e[0]) } else { None };
        let s_cneighbor = if m_s.len() > 0 { Some(m_s[0]) } else { None };

        // Redirect every listed neighbor to the merged node: handing it as
        // both border children makes it the one repoint target.
        self.update_neighbors_to_children(&m_w, index, index, None, Cardinality::West);
        let ghost b1 = *self;
        proof {
            assert forall|j: int| 0 <= j < m_n@.len() implies self.live(
                #[trigger] m_n@[j] as int,
            ) by {
                assert(same_but_neighbors(o.arena()[m_n@[j] as int], b1.arena()[m_n@[j] as int]));
            }
        }
        self.update_neighbors_to_children(&m_n, index, index, None, Cardinality::North);
        let ghost b2 = *self;
        proof {
            assert forall|j: int| 0 <= j < m_e@.len() implies self.live(
                #[trigger] m_e@[j] as int,
            ) by {
                assert(same_but_neighbors(o.arena()[m_e@[j] as int], b1.arena()[m_e@[j] as int]));
                assert(same_but_neighbors(b1.arena()[m_e@[j] as int], b2.arena()[m_e@[j] as int]));
            }
        }
        self.update_neighbors_to_children(&m_e, index, index, None, Cardinality::East);
        let ghost b3 = *self;
        proof {
            assert forall|j: int| 0 <= j < m_s@.len() implies self.live(
                #[trigger] m_s@[j] as int,
            ) by {
                assert(same_but_neighbors(o.arena()[m_s@[j] as int], b1.arena()[m_s@[j] as int]));
                assert(same_but_neighbors(b1.arena()[m_s@[j] as int], b2.arena()[m_s@[j] as int]));
                assert(same_but_neighbors(b2.arena()[m_s@[j] as int], b3.arena()[m_s@[j] as int]));
            }
        }
        self.update_neighbors_to_children(&m_s, index, index, None, Cardinality::South);
        let ghost b4 = *self;

        self.restore_parent(index, [w_cneighbor, n_cneighbor, e_cneighbor, s_cneighbor]);

        let child_layer = parent_layer + 1;
        let cnt = self.layers[child_layer];
        proof {
            assert(o.wf_links(c0 as int) && o.wf_links(c1 as int) && o.wf_links(c2 as int)
                && o.wf_links(c3 as int));
            lemma_count_four(o.arena(), c0 as int, c1 as int, c2 as int, c3 as int, child_layer as int);
            assert(cnt == count_at_layer(o.arena(), child_layer as int));
            assert(cnt >= 4);
        }
        self.layers[child_layer] = cnt - 4;

        let t0 = self.remove_node(c0);
        let t1 = self.remove_node(c1);
        let t2 = self.remove_node(c2);
        let t3 = self.remove_node(c3);

        proof {
            let f = *self;
            assert(children@[0] == c0 && children@[1] == c1 && children@[2] == c2 && children@[3]
                == c3);
            assert forall|j: int|
                0 <= j < ol && j != oi && !children@.contains(j as usize) implies
                same_but_neighbors(o.arena()[j], #[trigger] f.arena()[j]) by {
                assert(j != c0 && j != c1 && j != c2 && j != c3);
            }
            assert forall|m: int|
                0 <= m < m_w@.len() && m_w@[m] != index && !children@.contains(m_w@[m]) implies
                f.node(#[trigger] m_w@[m] as int).neighbor(Cardinality::East) == Some(index) by {
                let j = m_w@[m] as int;
                assert(b1.node(j).neighbor(Cardinality::East) == Some(index));
                assert(b2.node(j).neighbors@[2] == b1.node(j).neighbors@[2]);
                assert(b3.node(j).neighbors@[2] == b2.node(j).neighbors@[2]);
                assert(b4.node(j).neighbors@[2] == b3.node(j).neighbors@[2]);
                assert(f.arena()[j] == b4.arena()[j]);
            }
            assert forall|m: int|
                0 <= m < m_n@.len() && m_n@[m] != index && !children@.contains(m_n@[m]) implies
                f.node(#[trigger] m_n@[m] as int).neighbor(Cardinality::South) == Some(index) by {
                let j = m_n@[m] as int;
                assert(b2.node(j).neighbor(Cardinality::South) == Some(index));
                assert(b3.node(j).neighbors@[3] == b2.node(j).neighbors@[3]);
                assert(b4.node(j).neighbors@[3] == b3.node(j).neighbors@[3]);
                assert(f.arena()[j] == b4.arena()[j]);
            }
            assert forall|m: int|
                0 <= m < m_e@.len() && m_e@[m] != index && !children@.contains(m_e@[m]) implies
                f.node(#[trigger] m_e@[m] as int).neighbor(Cardinality::West) == Some(index) by {
                let j = m_e@[m] as int;
                assert(b3.node(j).neighbor(Cardinality::West) == Some(index));
                assert(b4.node(j).neighbors@[0] == b3.node(j).neighbors@[0]);
                assert(f.arena()[j] == b4.arena()[j]);
            }
            assert forall|m: int|
                0 <= m < m_s@.len() && m_s@[m] != index && !children@.contains(m_s@[m]) implies
                f.node(#[trigger] m_s@[m] as int).neighbor(Cardinality::North) == Some(index) by {
                let j = m_s@[m] as int;
                assert(b4.node(j).neighbor(Cardinality::North) == Some(index));
                assert(f.arena()[j] == b4.arena()[j]);
            }
            assert forall|j: int|
                0 <= j < ol && j != oi && !children@.contains(j as usize) && !m_w@.contains(
                    j as usize,
                ) && !m_n@.contains(j as usize) && !m_e@.contains(j as usize) && !m_s@.contains(
                    j as usize,
                ) implies f.arena()[j] == o.arena()[j] by {
                assert(b1.arena()[j] == o.arena()[j]);
                assert(b2.arena()[j] == b1.arena()[j]);
                assert(b3.arena()[j] == b2.arena()[j]);
                assert(b4.arena()[j] == b3.arena()[j]);
                assert(f.arena()[j] == b4.arena()[j]);
            }
            assert(o.arena().len() <= usize::MAX);
            lemma_pop_preserves_wf(o, f, index);
        }
        Some((t0, t1, t2, t3))
    }

    /// The tree's current maximum populated depth: the deepest layer that
    /// still holds a live node. Layers whose population has dropped to zero
    /// are skipped; the root keeps layer zero populated, so the maximum
    /// always exists.
    pub fn get_max_level(&self) -> (r: usize)
        requires
            self.wf(),
        ensures
            (r as int) < self.layer_counts().len(),
            self.layer_counts()[r as int] > 0,
            forall|d: int| r < d < self.layer_counts().len() ==> self.layer_counts()[d] == 0,
    {
        let mut i = self.layers.len() - 1;
        loop
            invariant
                self.wf(),
                (i as int) < self.layer_counts().len(),
                forall|d: int| i < d < self.layer_counts().len() ==> self.layer_counts()[d] == 0,
            decreases i,
        {
            if self.layers[i] > 0 {
                return i;
            }
            if i == 0 {
                proof {
                    lemma_count_member(self.arena(), self.spec_root() as int, 0);
                    assert(self.layer_counts()[0] == count_at_layer(self.arena(), 0));
                    assert(false);
                }
                return 0;
            }
            i = i - 1;
        }
    }

    /// Locate the leaf whose region contains a point, descending from the
    /// root into whichever child covers the point at each level. Absent
    /// exactly when the point lies outside the root's bounds: the live leaves
    /// tile the root's region, so any contained point reaches a leaf.
    pub fn point_locate(&self, point: (u32, u32)) -> (r: Option<usize>)
        requires
            self.wf(),
        ensures
            r is Some <==> spec_point_in(self.node(self.spec_root() as int).bounds, point),
            self.node(self.spec_root() as int).children is None && spec_point_in(
                self.node(self.spec_root() as int).bounds,
                point,
            ) ==> r == Some(self.spec_root()),
            match r {
                Some(i) => {
                    &&& self.live(i as int)
                    &&& self.node(i as int).children is None
                    &&& spec_point_in(self.node(i as int).bounds, point)
                },
                None => true,
            },
    {
        let mut index = self.get_root();
        let first = self.get_node(index).unwrap();
        if !first.point_in(point) {
            return None;
        }
        loop
            invariant
                self.wf(),
                self.live(index as int),
                spec_point_in(self.node(index as int).bounds, point),
                spec_point_in(self.node(self.spec_root() as int).bounds, point),
                self.node(self.spec_root() as int).children is None ==> index == self.spec_root(),
            decreases self.arena().len() - self.node(index as int).layer,
        {
            let node = self.get_node(index).unwrap();
            let cs = match node.get_children_index() {
                Some(cs) => cs,
                None => {
                    return Some(index);
                },
            };
            proof {
                assert(self.wf_links(index as int));
                lemma_children_cover(self.node(index as int).bounds, point);
            }
            let next = {
                let c0 = self.get_node(cs[0]).unwrap();
                if c0.point_in(point) {
                    cs[0]
                } else {
                    let c1 = self.get_node(cs[1]).unwrap();
                    if c1.point_in(point) {
                        cs[1]
                    } else {
                        let c2 = self.get_node(cs[2]).unwrap();
                        if c2.point_in(point) {
                            cs[2]
                        } else {
                            cs[3]
                        }
                    }
                }
            };
            proof {
                assert(spec_point_in(self.node(next as int).bounds, point));
                assert(self.node(next as int).layer == self.node(index as int).layer + 1);
                assert(self.wf_links(next as int));
            }
            index = next;
        }
    }
}

/// A merge preserves the tree's invariant: with a node's four leaf children
/// vacated, the node itself restored to a leaf, every other node changed at
/// most in its neighbor slots, and the per-layer counts adjusted by four at
/// the children's layer, the resulting tree is well-formed.
#[verifier::rlimit(100)]
pub proof fn lemma_pop_preserves_wf<T>(o: CNQuadtree<T>, f: CNQuadtree<T>, index: usize)
    requires
        o.wf(),
        o.arena().len() <= usize::MAX,
        o.live(index as int),
        o.node(index as int).children is Some,
        forall|q: int| 0 <= q < 4 ==> o.node(
            #[trigger] o.node(index as int).children->Some_0@[q] as int,
        ).children is None,
        f.spec_root() == o.spec_root(),
        f.arena().len() == o.arena().len(),
        forall|q: int| 0 <= q < 4 ==> f.arena()[#[trigger] o.node(
            index as int,
        ).children->Some_0@[q] as int] is None,
        f.live(index as int),
        f.node(index as int).children is None,
        f.node(index as int).layer == o.node(index as int).layer,
        f.node(index as int).bounds == o.node(index as int).bounds,
        f.node(index as int).parent == o.node(index as int).parent,
        forall|j: int|
            0 <= j < o.arena().len() && j != index && !o.node(
                index as int,
            ).children->Some_0@.contains(j as usize) ==> same_but_neighbors(
                o.arena()[j],
                #[trigger] f.arena()[j],
            ),
        f.layer_counts().len() == o.layer_counts().len(),
        forall|d: int| 0 <= d < o.layer_counts().len() && d != o.node(index as int).layer + 1
            ==> #[trigger] f.layer_counts()[d] == o.layer_counts()[d],
        f.layer_counts()[o.node(index as int).layer + 1] == count_at_layer(
            o.arena(),
            o.node(index as int).layer + 1,
        ) - 4,
    ensures
        f.wf(),
{
    let oi = index as int;
    let ol = o.arena().len() as int;
    let cl = o.node(oi).layer + 1;
    let cs = o.node(oi).children->Some_0;
    let root = f.spec_root() as int;
    assert(o.wf_links(oi));
    assert(cs@.contains(cs@[0]) && cs@.contains(cs@[1]) && cs@.contains(cs@[2]) && cs@.contains(
        cs@[3],
    ));
    assert(!cs@.contains(index)) by {
        if cs@.contains(index) {
            assert(o.node(oi).parent == Some(index));
        }
    }
    assert forall|u: usize| #[trigger] cs@.contains(u) implies u == cs@[0] || u == cs@[1] || u
        == cs@[2] || u == cs@[3] by {
        assert(cs@.len() == 4);
        let k = choose|k: int| 0 <= k < cs@.len() && cs@[k] == u;
        assert(k == 0 || k == 1 || k == 2 || k == 3);
    }
    assert(f.live(root) && f.node(root).parent is None && f.node(root).layer == 0) by {
        assert(o.node(cs@[0] as int).parent is Some && o.node(cs@[1] as int).parent is Some
            && o.node(cs@[2] as int).parent is Some && o.node(cs@[3] as int).parent is Some);
        if root != oi {
            assert(!cs@.contains(root as usize));
            assert(same_but_neighbors(o.arena()[root], f.arena()[root]));
        }
    }
    assert forall|i: int| #[trigger] f.live(i) implies f.wf_links(i) by {
        assert(!cs@.contains(i as usize));
        if i == oi {
            match o.node(oi).parent {
                Some(p) => {
                    assert(o.live(p as int));
                    assert(p as int != oi);
                    assert(o.wf_links(p as int));
                    assert(!cs@.contains(p));
                    assert(same_but_neighbors(o.arena()[p as int], f.arena()[p as int]));
                },
                None => {},
            }
        } else {
            assert(same_but_neighbors(o.arena()[i], f.arena()[i]));
            assert(o.live(i));
            assert(o.wf_links(i));
            match o.node(i).children {
                Some(ds) => {
                    assert(f.wf_child(i, ds@[0], Location::NorthWest)) by {
                        let c = ds@[0] as int;
                        assert(!cs@.contains(ds@[0]));
                        if c != oi {
                            assert(same_but_neighbors(o.arena()[c], f.arena()[c]));
                        }
                    }
                    assert(f.wf_child(i, ds@[1], Location::NorthEast)) by {
                        let c = ds@[1] as int;
                        assert(!cs@.contains(ds@[1]));
                        if c != oi {
                            assert(same_but_neighbors(o.arena()[c], f.arena()[c]));
                        }
                    }
                    assert(f.wf_child(i, ds@[2], Location::SouthWest)) by {
                        let c = ds@[2] as int;
                        assert(!cs@.contains(ds@[2]));
                        if c != oi {
                            assert(same_but_neighbors(o.arena()[c], f.arena()[c]));
                        }
                    }
                    assert(f.wf_child(i, ds@[3], Location::SouthEast)) by {
                        let c = ds@[3] as int;
                        assert(!cs@.contains(ds@[3]));
                        if c != oi {
                            assert(same_but_neighbors(o.arena()[c], f.arena()[c]));
                        }
                    }
                },
                None => {},
            }
            match o.node(i).parent {
                Some(p) => {
                    assert(o.live(p as int));
                    assert(o.wf_links(p as int));
                    assert(p as int != oi);
                    assert(!cs@.contains(p));
                    assert(same_but_neighbors(o.arena()[p as int], f.arena()[p as int]));
                },
                None => {},
            }
        }
    }
    assert forall|d: int| 0 <= d < f.layer_counts().len() implies f.layer_counts()[d]
        == count_at_layer(f.arena(), d) by {
        let a = o.arena();
        let c0 = cs@[0] as int;
        let c1 = cs@[1] as int;
        let c2 = cs@[2] as int;
        let c3 = cs@[3] as int;
        let m1 = a.update(c0, None);
        let m2 = m1.update(c1, None);
        let m3 = m2.update(c2, None);
        let m4 = m3.update(c3, None);
        lemma_count_update(a, c0, None, d);
        lemma_count_update(m1, c1, None, d);
        lemma_count_update(m2, c2, None, d);
        lemma_count_update(m3, c3, None, d);
        assert(m1[c1] == a[c1] && m2[c2] == a[c2] && m3[c3] == a[c3]);
        assert forall|j: int| 0 <= j < ol implies layer_occupancy(#[trigger] f.arena()[j], d)
            == layer_occupancy(m4[j], d) by {
            if j == c0 || j == c1 || j == c2 || j == c3 {
            } else if j == oi {
                assert(m4[j] == a[j]);
            } else {
                assert(!cs@.contains(j as usize));
                assert(m4[j] == a[j]);
                assert(same_but_neighbors(o.arena()[j], f.arena()[j]));
            }
        }
        lemma_count_congruent(f.arena(), m4, d);
        if d != cl {
            assert(f.layer_counts()[d] == o.layer_counts()[d]);
        }
    }
    assert(f.wf());
}

/// A split preserves the tree's invariant: with four fresh, well-linked
/// children appended, the split node sealed as their parent, every other node
/// changed at most in its neighbor slots, and the per-layer counts adjusted
/// by four at the children's layer, the resulting tree is well-formed.
#[verifier::rlimit(100)]
pub proof fn lemma_subdivide_preserves_wf<T>(
    o: CNQuadtree<T>,
    f: CNQuadtree<T>,
    index: usize,
    ks: [usize; 4],
)
    requires
        o.wf(),
        o.live(index as int),
        o.node(index as int).children is None,
        f.spec_root() == o.spec_root(),
        f.arena().len() == o.arena().len() + 4,
        ks@[0] as int == o.arena().len(),
        ks@[1] as int == o.arena().len() + 1,
        ks@[2] as int == o.arena().len() + 2,
        ks@[3] as int == o.arena().len() + 3,
        forall|q: int|
            0 <= q < 4 ==> {
                &&& f.live(#[trigger] ks@[q] as int)
                &&& f.node(ks@[q] as int).parent == Some(index)
                &&& f.node(ks@[q] as int).layer == o.node(index as int).layer + 1
                &&& f.node(ks@[q] as int).children is None
            },
        f.node(ks@[0] as int).bounds == child_bounds(
            o.node(index as int).bounds,
            Location::NorthWest,
        ),
        f.node(ks@[1] as int).bounds == child_bounds(
            o.node(index as int).bounds,
            Location::NorthEast,
        ),
        f.node(ks@[2] as int).bounds == child_bounds(
            o.node(index as int).bounds,
            Location::SouthWest,
        ),
        f.node(ks@[3] as int).bounds == child_bounds(
            o.node(index as int).bounds,
            Location::SouthEast,
        ),
        f.live(index as int),
        f.node(index as int).children == Some(ks),
        f.node(index as int).layer == o.node(index as int).layer,
        f.node(index as int).bounds == o.node(index as int).bounds,
        f.node(index as int).parent == o.node(index as int).parent,
        forall|j: int| 0 <= j < o.arena().len() && j != index ==> same_but_neighbors(
            o.arena()[j],
            #[trigger] f.arena()[j],
        ),
        f.layer_counts().len() == (if o.node(index as int).layer + 1 < o.layer_counts().len() {
            o.layer_counts().len() as int
        } else {
            o.node(index as int).layer + 2
        }),
        forall|d: int| 0 <= d < o.layer_counts().len() && d != o.node(index as int).layer + 1
            ==> #[trigger] f.layer_counts()[d] == o.layer_counts()[d],
        f.layer_counts()[o.node(index as int).layer + 1] == count_at_layer(
            o.arena(),
            o.node(index as int).layer + 1,
        ) + 4,
    ensures
        f.wf(),
{
    let oi = index as int;
    let ol = o.arena().len() as int;
    let cl = o.node(oi).layer + 1;
    let root = f.spec_root() as int;
    assert(o.wf_links(oi));
    assert(cl <= o.layer_counts().len());
    assert(f.live(root) && f.node(root).parent is None && f.node(root).layer == 0) by {
        if root != oi {
            assert(same_but_neighbors(o.arena()[root], f.arena()[root]));
        }
    }
    // links at every live node
    assert forall|i: int| #[trigger] f.live(i) implies f.wf_links(i) by {
        if i == oi {
            assert(o.wf_links(oi));
            assert(f.wf_child(oi, ks@[0], Location::NorthWest));
            assert(f.wf_child(oi, ks@[1], Location::NorthEast));
            assert(f.wf_child(oi, ks@[2], Location::SouthWest));
            assert(f.wf_child(oi, ks@[3], Location::SouthEast));
            match o.node(oi).parent {
                Some(p) => {
                    assert(o.live(p as int));
                    assert(p as int != oi);
                    assert(same_but_neighbors(o.arena()[p as int], f.arena()[p as int]));
                },
                None => {},
            }
        } else if i >= ol {
            assert(i == ks@[0] || i == ks@[1] || i == ks@[2] || i == ks@[3]);
            assert(f.node(i).children is None);
            assert(f.node(i).parent == Some(index));
        } else {
            assert(o.live(i));
            assert(o.wf_links(i));
            assert(same_but_neighbors(o.arena()[i], f.arena()[i]));
            match o.node(i).children {
                Some(cs) => {
                    assert(f.wf_child(i, cs@[0], Location::NorthWest)) by {
                        let c = cs@[0] as int;
                        if c != oi {
                            assert(same_but_neighbors(o.arena()[c], f.arena()[c]));
                        }
                    }
                    assert(f.wf_child(i, cs@[1], Location::NorthEast)) by {
                        let c = cs@[1] as int;
                        if c != oi {
                            assert(same_but_neighbors(o.arena()[c], f.arena()[c]));
                        }
                    }
                    assert(f.wf_child(i, cs@[2], Location::SouthWest)) by {
                        let c = cs@[2] as int;
                        if c != oi {
                            assert(same_but_neighbors(o.arena()[c], f.arena()[c]));
                        }
                    }
                    assert(f.wf_child(i, cs@[3], Location::SouthEast)) by {
                        let c = cs@[3] as int;
                        if c != oi {
                            assert(same_but_neighbors(o.arena()[c], f.arena()[c]));
                        }
                    }
                },
                None => {},
            }
            match o.node(i).parent {
                Some(p) => {
                    assert(o.live(p as int));
                    assert(p as int != oi);
                    assert(same_but_neighbors(o.arena()[p as int], f.arena()[p as int]));
                },
                None => {},
            }
        }
    }
    // per-layer counts
    assert forall|d: int| 0 <= d < f.layer_counts().len() implies f.layer_counts()[d]
        == count_at_layer(f.arena(), d) by {
        lemma_count_tail4(f.arena(), d);
        let front = f.arena().take(ol);
        assert(front.len() == ol);
        assert forall|j: int| 0 <= j < ol implies layer_occupancy(#[trigger] front[j], d)
            == layer_occupancy(o.arena()[j], d) by {
            assert(front[j] == f.arena()[j]);
            if j == oi {
                assert(f.arena()[j] is Some && f.node(j).layer == o.node(j).layer);
            } else {
                assert(same_but_neighbors(o.arena()[j], f.arena()[j]));
            }
        }
        lemma_count_congruent(front, o.arena(), d);
        if d == cl {
            assert(layer_occupancy(f.arena()[ol], d) == 1);
            assert(layer_occupancy(f.arena()[ol + 1], d) == 1);
            assert(layer_occupancy(f.arena()[ol + 2], d) == 1);
            assert(layer_occupancy(f.arena()[ol + 3], d) == 1);
        } else {
            assert(layer_occupancy(f.arena()[ol], d) == 0);
            assert(layer_occupancy(f.arena()[ol + 1], d) == 0);
            assert(layer_occupancy(f.arena()[ol + 2], d) == 0);
            assert(layer_occupancy(f.arena()[ol + 3], d) == 0);
            assert(d < o.layer_counts().len());
            assert(f.layer_counts()[d] == o.layer_counts()[d]);
            assert(o.layer_counts()[d] == count_at_layer(o.arena(), d));
        }
    }
    assert(f.wf());
}

} // verus!
