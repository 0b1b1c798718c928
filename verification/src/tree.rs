use vstd::prelude::*;

use crate::location::Cardinality;
use crate::slottree::CNQuadtree;

verus! {

/// One pass of the border walk's binary carry, propagating downward from
/// position `i`: a counter that reached two empties into the next-shallower
/// position, like a carry in binary addition of border shares.
pub open spec fn carry_counters(cs: Seq<usize>, i: int) -> Seq<usize>
    decreases i,
{
    if i <= 0 {
        cs
    } else {
        let cs2 = if cs[i] >= 2 {
            cs.update(i, 0usize).update(i - 1, ((cs[i - 1] + 1) as usize))
        } else {
            cs
        };
        carry_counters(cs2, i - 1)
    }
}

/// The walk's counters after visiting one node at relative depth `rel`:
/// extended with zeros as needed, incremented at `rel`, then carried.
pub open spec fn bump_counters(cs: Seq<usize>, rel: int) -> Seq<usize> {
    let padded = if cs.len() > rel {
        cs
    } else {
        cs + Seq::new((rel + 1 - cs.len()) as nat, |k: int| 0usize)
    };
    carry_counters(padded.update(rel, ((padded[rel] + 1) as usize)), rel)
}

/// The border walk of the cross-level neighbor finder, from the current
/// position with the given counters: add the current node's border share at
/// its relative depth below the child; once the shares have carried up to a
/// full child border (the counter at depth zero is hit), one further
/// succeeding-neighbor pointer is the answer, else the walk steps along that
/// pointer. Absent when a pointer along the walk is absent or dead, or the
/// fuel runs out.
pub open spec fn spec_find_walk<T>(
    t: CNQuadtree<T>,
    cur: usize,
    counters: Seq<usize>,
    child_layer: int,
    direction: Cardinality,
    fuel: nat,
) -> Option<usize>
    decreases fuel,
{
    if fuel == 0 || !t.live(cur as int) {
        None
    } else {
        let n = t.node(cur as int);
        let rel: int = if n.layer >= child_layer {
            n.layer - child_layer
        } else {
            0
        };
        let cs = bump_counters(counters, rel);
        if cs[0] >= 1 {
            n.neighbor(direction.spec_next_neighbor())
        } else {
            match n.neighbor(direction.spec_next_neighbor()) {
                Some(nx) => if t.live(nx as int) {
                    spec_find_walk(t, nx, cs, child_layer, direction, (fuel - 1) as nat)
                } else {
                    None
                },
                None => None,
            }
        }
    }
}

/// What the cross-level neighbor finder returns: absent for a dead start,
/// the inherited neighbor itself when it is shallower than the child (it then
/// covers the child's whole border), else the border walk's answer with a
/// fresh counter and fuel for every arena slot.
pub open spec fn spec_find_neighbor<T>(
    t: CNQuadtree<T>,
    child_layer: int,
    direction: Cardinality,
    inherited_neighbor: usize,
) -> Option<usize> {
    if !t.live(inherited_neighbor as int) {
        None
    } else if (t.node(inherited_neighbor as int).layer as int) < child_layer {
        Some(inherited_neighbor)
    } else {
        spec_find_walk(
            t,
            inherited_neighbor,
            seq![0usize],
            child_layer,
            direction,
            t.arena().len(),
        )
    }
}

/// Locate, for the child of a splitting node that sits at the far end of a
/// border, its first neighbor in the given direction, starting from the
/// neighbor inherited from the splitting node (the one at the near end of the
/// border). When the inherited neighbor is shallower than the child it covers
/// the whole border and is itself the answer. Otherwise the walk steps along
/// succeeding neighbor pointers, adding each visited node's border share
/// (one part in two to the power of its depth below the child) in a binary
/// carry counter; when the shares sum to the child's full border width, one
/// further step reaches the far child's first neighbor. Returns absent when a
/// pointer along the walk is absent or dead.
pub fn find_cardinal_neighbor<T>(
    tree: &CNQuadtree<T>,
    child_layer: usize,
    direction: Cardinality,
    inherited_neighbor: usize,
) -> (r: Option<usize>)
    requires
        tree.wf(),
    ensures
        r == spec_find_neighbor(*tree, child_layer as int, direction, inherited_neighbor),
        !tree.live(inherited_neighbor as int) ==> r is None,
        tree.live(inherited_neighbor as int) && tree.node(inherited_neighbor as int).layer
            < child_layer ==> r == Some(inherited_neighbor),
{
    let first = match tree.get_node(inherited_neighbor) {
        Some(n) => n,
        None => {
            return None;
        },
    };
    if first.level() < child_layer {
        return Some(inherited_neighbor);
    }
    let mut counters: Vec<usize> = Vec::new();
    counters.push(0);
    let mut cur_idx = inherited_neighbor;
    let mut fuel: usize = tree.arena_len();
    let ghost target = spec_find_neighbor(
        *tree,
        child_layer as int,
        direction,
        inherited_neighbor,
    );
    proof {
        assert(counters@ =~= seq![0usize]);
    }
    loop
        invariant
            tree.wf(),
            tree.live(cur_idx as int),
            tree.arena().len() <= usize::MAX,
            tree.live(inherited_neighbor as int),
            tree.node(inherited_neighbor as int).layer >= child_layer,
            counters@.len() >= 1,
            forall|j: int| 0 <= j < counters@.len() ==> #[trigger] counters@[j] <= 1,
            counters@[0] == 0,
            target == spec_find_neighbor(
                *tree,
                child_layer as int,
                direction,
                inherited_neighbor,
            ),
            target == spec_find_walk(
                *tree,
                cur_idx,
                counters@,
                child_layer as int,
                direction,
                fuel as nat,
            ),
        decreases fuel,
    {
        if fuel == 0 {
            return None;
        }
        fuel = fuel - 1;
        let cur_node = match tree.get_node(cur_idx) {
            Some(n) => n,
            None => {
                return None;
            },
        };
        let lvl = cur_node.level();
        let rel = if lvl >= child_layer {
            lvl - child_layer
        } else {
            0
        };
        let ghost cs0 = counters@;
        proof {
            assert(tree.wf_links(cur_idx as int));
            assert((lvl as int) < tree.layer_counts().len());
            assert(rel < usize::MAX);
        }
        while counters.len() <= rel
            invariant
                counters@.len() >= 1,
                rel < usize::MAX,
                cs0.len() <= counters@.len(),
                counters@.len() <= rel + 1 || counters@.len() == cs0.len(),
                counters@ =~= cs0 + Seq::new((counters@.len() - cs0.len()) as nat, |k: int| 0usize),
                forall|j: int| 0 <= j < counters@.len() ==> #[trigger] counters@[j] <= 1,
                counters@[0] == 0,
            decreases rel + 1 - counters@.len(),
        {
            counters.push(0);
            proof {
                assert(counters@ =~= cs0 + Seq::new(
                    (counters@.len() - cs0.len()) as nat,
                    |k: int| 0usize,
                ));
            }
        }
        let ghost padded = if cs0.len() > rel {
            cs0
        } else {
            cs0 + Seq::new((rel + 1 - cs0.len()) as nat, |k: int| 0usize)
        };
        proof {
            assert(counters@ =~= padded);
        }
        let c = counters[rel];
        counters[rel] = c + 1;
        let ghost bump_target = bump_counters(cs0, rel as int);
        proof {
            assert(counters@ =~= padded.update(rel as int, ((padded[rel as int] + 1) as usize)));
            assert(carry_counters(counters@, rel as int) == bump_target);
        }
        let mut i = rel;
        while i >= 1
            invariant
                counters@.len() >= 1,
                i < counters@.len(),
                forall|j: int| 0 <= j < counters@.len() && j != i ==> #[trigger] counters@[j] <= 1,
                counters@[i as int] <= 2,
                carry_counters(counters@, i as int) == bump_target,
            decreases i,
        {
            let ghost prev_cs = counters@;
            if counters[i] >= 2 {
                counters[i] = 0;
                let b = counters[i - 1];
                counters[i - 1] = b + 1;
                proof {
                    assert(counters@ =~= prev_cs.update(i as int, 0usize).update(
                        i as int - 1,
                        ((prev_cs[i as int - 1] + 1) as usize),
                    ));
                }
            }
            proof {
                assert(carry_counters(prev_cs, i as int) == carry_counters(
                    counters@,
                    i as int - 1,
                ));
            }
            i = i - 1;
        }
        proof {
            assert(carry_counters(counters@, 0) == counters@);
            assert(counters@ == bump_target);
        }
        if counters[0] >= 1 {
            return cur_node.get_cardinal_neighbor_index(direction.next_neighbor());
        }
        let nx = match cur_node.get_cardinal_neighbor_index(direction.next_neighbor()) {
            Some(n) => n,
            None => {
                return None;
            },
        };
        match tree.get_node(nx) {
            Some(_) => {
                cur_idx = nx;
            },
            None => {
                return None;
            },
        };
    }
}

/// Error type for quadtree subdivision.
/// `items` are the items passed to the subdivision call, handed back
/// unconsumed so that nothing is lost on failure, in NorthWest, NorthEast,
/// SouthWest, SouthEast order.
#[derive(Debug)]
pub struct SubdivideError<T> {
    pub items: (T, T, T, T),
    pub source: SubdivideErrorEnum,
}

/// Enum error type for quadtree subdivision.
#[derive(Debug, Copy, Clone, PartialEq, Eq, Structural)]
pub enum SubdivideErrorEnum {
    /// No live node lives at the given index.
    InvalidIndex,
    /// The node at the given index already has children.
    AlreadySubdivided,
}

} // verus!
