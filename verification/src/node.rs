use vstd::prelude::*;

use crate::location::{Cardinality, Location};

verus! {

/// Midpoint of two coordinates, rounding down.
pub open spec fn mid(a: u32, b: u32) -> u32 {
    (((a as int) + (b as int)) / 2) as u32
}

/// True when a point lies in a rectangle `(min x, min y, max x, max y)`,
/// half-open on both axes: `min <= coordinate < max`.
pub open spec fn spec_point_in(bounds: (u32, u32, u32, u32), point: (u32, u32)) -> bool {
    &&& bounds.0 <= point.0 < bounds.2
    &&& bounds.1 <= point.1 < bounds.3
}

/// The bounds of the child occupying a given quadrant when a node's bounds
/// are split at the midpoint of each axis.
pub open spec fn child_bounds(b: (u32, u32, u32, u32), loc: Location) -> (u32, u32, u32, u32) {
    let mx = mid(b.0, b.2);
    let my = mid(b.1, b.3);
    match loc {
        Location::NorthWest => (b.0, b.1, mx, my),
        Location::NorthEast => (mx, b.1, b.2, my),
        Location::SouthWest => (b.0, my, mx, b.3),
        Location::SouthEast => (mx, my, b.2, b.3),
    }
}

/// The midpoint is exact (the sum of two coordinates halved never leaves the
/// coordinate range) and lies between its endpoints when they are ordered.
pub proof fn lemma_mid_between(a: u32, b: u32)
    ensures
        mid(a, b) as int == ((a as int) + (b as int)) / 2,
        a <= b ==> a <= mid(a, b) <= b,
{
    let s = (a as int) + (b as int);
    assert(0 <= s / 2 <= u32::MAX) by {
        assert(s / 2 >= 0);
        assert(s <= 2 * (u32::MAX as int));
        assert(s / 2 <= u32::MAX);
    }
    if a <= b {
        assert(2 * (a as int) <= s);
        assert(a as int <= s / 2);
        assert(s <= 2 * (b as int));
        assert(s / 2 <= b as int);
    }
}

/// Splitting covers the parent exactly: a point lies in a rectangle's bounds
/// if and only if it lies in the bounds of one of the four quadrant children.
pub proof fn lemma_children_cover(b: (u32, u32, u32, u32), p: (u32, u32))
    requires
        b.0 <= b.2,
        b.1 <= b.3,
    ensures
        spec_point_in(b, p) <==> {
            ||| spec_point_in(child_bounds(b, Location::NorthWest), p)
            ||| spec_point_in(child_bounds(b, Location::NorthEast), p)
            ||| spec_point_in(child_bounds(b, Location::SouthWest), p)
            ||| spec_point_in(child_bounds(b, Location::SouthEast), p)
        },
{
    lemma_mid_between(b.0, b.2);
    lemma_mid_between(b.1, b.3);
}

/// Splitting leaves no overlap: no point lies in the bounds of two distinct
/// quadrant children.
pub proof fn lemma_children_disjoint(b: (u32, u32, u32, u32), p: (u32, u32), l1: Location, l2: Location)
    requires
        l1 != l2,
    ensures
        !(spec_point_in(child_bounds(b, l1), p) && spec_point_in(child_bounds(b, l2), p)),
{
}

/// A quadtree node: a rectangular region with a payload, its depth below the
/// root, and arena indices for its parent, its cardinal neighbors and its
/// children.
pub struct CNNode<T> {
    /// The node's payload, owned exclusively by the node.
    pub item: T,
    /// Depth below the root; the root itself is at layer zero.
    pub layer: usize,
    /// Region covered by the node: `(min x, min y, max x, max y)`.
    pub bounds: (u32, u32, u32, u32),
    /// The parent's arena index; absent only for the root.
    pub parent: Option<usize>,
    /// Cardinal neighbors in the following order: West, North, East, South.
    /// A neighbor is None if the node borders the edge of the tree on that
    /// side; only leaves carry meaningful neighbor pointers.
    pub neighbors: [Option<usize>; 4],
    /// Children in the following order: NorthWest, NorthEast, SouthWest,
    /// SouthEast; either all four are present or the node is a leaf.
    pub children: Option<[usize; 4]>,
}

impl<T> CNNode<T> {
    /// The neighbor slot for a direction.
    pub open spec fn neighbor(self, direction: Cardinality) -> Option<usize> {
        self.neighbors@[direction.as_int()]
    }

    /// The child slot for a quadrant location, for a node that has children.
    pub open spec fn child(self, loc: Location) -> usize
        recommends
            self.children is Some,
    {
        self.children->Some_0@[loc.as_int()]
    }

    /// Returns the parent node index of a node if it exists.
    pub fn get_parent_index(&self) -> (r: Option<usize>)
        ensures
            r == self.parent,
    {
        self.parent
    }

    /// Returns true if the node has a parent.
    pub fn has_parent(&self) -> (r: bool)
        ensures
            r == (self.parent is Some),
    {
        self.get_parent_index().is_some()
    }

    /// Return an array of child indices if it exists.
    pub fn get_children_index(&self) -> (r: Option<[usize; 4]>)
        ensures
            r == self.children,
    {
        self.children
    }

    /// Return a child index at the specified location if it exists.
    pub fn get_child_index(&self, location: Location) -> (r: Option<usize>)
        ensures
            match r {
                Some(c) => self.children is Some && c == self.child(location),
                None => self.children is None,
            },
    {
        match self.children {
            Some(children) => Some(children[location.as_index()]),
            None => None,
        }
    }

    /// Returns true if the node has children.
    pub fn has_children(&self) -> (r: bool)
        ensures
            r == (self.children is Some),
    {
        self.get_children_index().is_some()
    }

    /// Returns true if the node is a leaf.
    pub fn is_leaf(&self) -> (r: bool)
        ensures
            r == (self.children is None),
    {
        !self.has_children()
    }

    /// Returns a shared reference to the node's item.
    pub fn get_item(&self) -> (r: &T)
        ensures
            *r == self.item,
    {
        &self.item
    }

    /// Returns a unique reference to the node's item.
    pub fn get_item_mut(&mut self) -> (r: &mut T)
        ensures
            *r == old(self).item,
            final(self).item == *final(r),
            final(self).layer == old(self).layer,
            final(self).bounds == old(self).bounds,
            final(self).parent == old(self).parent,
            final(self).neighbors == old(self).neighbors,
            final(self).children == old(self).children,
    {
        &mut self.item
    }

    /// Consumes the node and returns its item. Make sure that the node no
    /// longer has any children and no neighbors pointing to it.
    pub fn pop(self) -> (r: T)
        ensures
            r == self.item,
    {
        self.item
    }

    /// Returns the node's level with respect to the tree's root node (level 0).
    pub fn level(&self) -> (r: usize)
        ensures
            r == self.layer,
    {
        self.layer
    }

    /// Returns the four cardinal neighbor indices of the node, in the
    /// following order: West, North, East, South. An index may be none if the
    /// node is a border node.
    pub fn get_cardinal_neighbors_index(&self) -> (r: [Option<usize>; 4])
        ensures
            r == self.neighbors,
    {
        self.neighbors
    }

    /// Returns the cardinal neighbor index at the specified direction of a
    /// node. The index is none if the node is a border node in that direction.
    pub fn get_cardinal_neighbor_index(&self, direction: Cardinality) -> (r: Option<usize>)
        ensures
            r == self.neighbor(direction),
    {
        self.neighbors[direction.as_index()]
    }

    /// Returns true if the node has a neighbor in the given direction.
    pub fn has_neighbor(&self, direction: Cardinality) -> (r: bool)
        ensures
            r == (self.neighbor(direction) is Some),
    {
        self.get_cardinal_neighbor_index(direction).is_some()
    }

    /// Replace the neighbor slot for one direction.
    pub fn update_neighbor(&mut self, new_neighbor: Option<usize>, direction: Cardinality)
        ensures
            final(self).neighbors@ == old(self).neighbors@.update(direction.as_int(), new_neighbor),
            final(self).item == old(self).item,
            final(self).layer == old(self).layer,
            final(self).bounds == old(self).bounds,
            final(self).parent == old(self).parent,
            final(self).children == old(self).children,
    {
        self.neighbors[direction.as_index()] = new_neighbor;
    }

    /// Replace all four neighbor slots at once, in West, North, East, South
    /// order.
    pub fn update_neighbors(&mut self, new_neighbors: [Option<usize>; 4])
        ensures
            final(self).neighbors == new_neighbors,
            final(self).item == old(self).item,
            final(self).layer == old(self).layer,
            final(self).bounds == old(self).bounds,
            final(self).parent == old(self).parent,
            final(self).children == old(self).children,
    {
        self.neighbors = new_neighbors;
    }

    /// Replace the children slot.
    pub fn update_children(&mut self, new_children: Option<[usize; 4]>)
        ensures
            final(self).children == new_children,
            final(self).item == old(self).item,
            final(self).layer == old(self).layer,
            final(self).bounds == old(self).bounds,
            final(self).parent == old(self).parent,
            final(self).neighbors == old(self).neighbors,
    {
        self.children = new_children;
    }

    /// Returns the node's bounds: `(min x, min y, max x, max y)`.
    pub fn get_bounds(&self) -> (r: (u32, u32, u32, u32))
        ensures
            r == self.bounds,
    {
        self.bounds
    }

    /// Point-containment test, half-open on both axes.
    pub fn point_in(&self, point: (u32, u32)) -> (r: bool)
        ensures
            r == spec_point_in(self.bounds, point),
    {
        let bounds = self.get_bounds();
        (bounds.0 <= point.0 && point.0 < bounds.2) && (bounds.1 <= point.1 && point.1 < bounds.3)
    }

    /// A fresh leaf node with no neighbors.
    pub(crate) fn new(item: T, layer: usize, bounds: (u32, u32, u32, u32), parent: Option<usize>) -> (r: CNNode<T>)
        ensures
            r.item == item,
            r.layer == layer,
            r.bounds == bounds,
            r.parent == parent,
            r.neighbors@ =~= seq![None::<usize>, None::<usize>, None::<usize>, None::<usize>],
            r.children is None,
    {
        CNNode {
            item,
            layer,
            bounds,
            parent,
            neighbors: [None, None, None, None],
            children: None,
        }
    }
}

/// Two nodes are considered equal when they cover the same region; under the
/// tree's invariants no two live nodes share bounds.
impl<T> PartialEq for CNNode<T> {
    fn eq(&self, other: &CNNode<T>) -> (r: bool) {
        self.bounds.0 == other.bounds.0 && self.bounds.1 == other.bounds.1
            && self.bounds.2 == other.bounds.2 && self.bounds.3 == other.bounds.3
    }
}

impl<T> vstd::std_specs::cmp::PartialEqSpecImpl for CNNode<T> {
    open spec fn obeys_eq_spec() -> bool {
        true
    }

    open spec fn eq_spec(&self, other: &CNNode<T>) -> bool {
        self.bounds == other.bounds
    }
}

} // verus!
