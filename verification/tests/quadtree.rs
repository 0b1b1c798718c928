use cn_quadtree::location::{Cardinality, Location};
use cn_quadtree::slottree::CNQuadtree;
use cn_quadtree::tree::{find_cardinal_neighbor, SubdivideErrorEnum};

#[test]
fn basic_subdivide() {
    let mut tree = CNQuadtree::new("root".to_string(), (0, 0, 100, 100));
    let root = tree.get_root();

    let child_items = (
        "nw".to_string(),
        "ne".to_string(),
        "sw".to_string(),
        "se".to_string(),
    );

    let children = tree.subdivide(root, child_items.clone());
    assert!(children.is_ok());
    let ks = children.unwrap();
    assert_eq!(tree.get_node(ks[0]).unwrap().get_item(), &child_items.0);
    assert_eq!(tree.get_node(ks[1]).unwrap().get_item(), &child_items.1);
    assert_eq!(tree.get_node(ks[2]).unwrap().get_item(), &child_items.2);
    assert_eq!(tree.get_node(ks[3]).unwrap().get_item(), &child_items.3);
}

#[test]
fn point_locate() {}

#[test]
fn split_children_tile_the_root() {
    let mut tree = CNQuadtree::new("root", (0, 0, 100, 100));
    let root = tree.get_root();
    let ks = tree.subdivide(root, ("nw", "ne", "sw", "se")).unwrap();
    assert_eq!(tree.get_node(ks[0]).unwrap().get_bounds(), (0, 0, 50, 50));
    assert_eq!(tree.get_node(ks[1]).unwrap().get_bounds(), (50, 0, 100, 50));
    assert_eq!(tree.get_node(ks[2]).unwrap().get_bounds(), (0, 50, 50, 100));
    assert_eq!(tree.get_node(ks[3]).unwrap().get_bounds(), (50, 50, 100, 100));
    for k in ks {
        assert_eq!(tree.get_node(k).unwrap().level(), 1);
        assert_eq!(tree.get_node(k).unwrap().get_parent_index(), Some(root));
    }
}

#[test]
fn deep_split_scenario_and_neighbor_order() {
    let mut tree = CNQuadtree::new("root", (0, 0, 100, 100));
    let root = tree.get_root();
    let ks = tree.subdivide(root, ("nw", "ne", "sw", "se")).unwrap();
    let gs = tree.subdivide(ks[0], ("g0", "g1", "g2", "g3")).unwrap();
    assert_eq!(tree.get_node(gs[0]).unwrap().get_bounds(), (0, 0, 25, 25));
    assert_eq!(tree.get_node(gs[1]).unwrap().get_bounds(), (25, 0, 50, 25));
    assert_eq!(tree.get_node(gs[2]).unwrap().get_bounds(), (0, 25, 25, 50));
    assert_eq!(tree.get_node(gs[3]).unwrap().get_bounds(), (25, 25, 50, 50));
    // The NE quadrant's western border is shared with NW's two eastern
    // grandchildren, listed top to bottom.
    assert_eq!(tree.get_neighbors(ks[1], Cardinality::West), Some(vec![gs[1], gs[3]]));
}

#[test]
fn neighbor_symmetry_on_reachable_pairs() {
    let mut tree = CNQuadtree::new("root", (0, 0, 100, 100));
    let root = tree.get_root();
    let ks = tree.subdivide(root, ("nw", "ne", "sw", "se")).unwrap();
    let gs = tree.subdivide(ks[0], ("g0", "g1", "g2", "g3")).unwrap();
    // For each node B listed east of A, A is listed west of B, and the other
    // way round.
    let all = [ks[1], ks[2], ks[3], gs[0], gs[1], gs[2], gs[3]];
    for a in all {
        for b in tree.get_neighbors(a, Cardinality::East).unwrap() {
            assert!(tree.get_neighbors(b, Cardinality::West).unwrap().contains(&a));
        }
        for b in tree.get_neighbors(a, Cardinality::West).unwrap() {
            assert!(tree.get_neighbors(b, Cardinality::East).unwrap().contains(&a));
        }
        for b in tree.get_neighbors(a, Cardinality::North).unwrap() {
            assert!(tree.get_neighbors(b, Cardinality::South).unwrap().contains(&a));
        }
        for b in tree.get_neighbors(a, Cardinality::South).unwrap() {
            assert!(tree.get_neighbors(b, Cardinality::North).unwrap().contains(&a));
        }
    }
}

#[test]
fn split_then_merge_round_trip() {
    let mut tree = CNQuadtree::new("root", (0, 0, 100, 100));
    let root = tree.get_root();
    let ks = tree.subdivide(root, ("nw", "ne", "sw", "se")).unwrap();
    let before = tree.get_node(ks[0]).unwrap().get_cardinal_neighbors_index();
    let ne_west_before = tree
        .get_node(ks[1])
        .unwrap()
        .get_cardinal_neighbor_index(Cardinality::West);

    let gs = tree.subdivide(ks[0], ("g0", "g1", "g2", "g3")).unwrap();
    let popped = tree.pop_children(ks[0]).unwrap();
    assert_eq!(popped, ("g0", "g1", "g2", "g3"));

    // The merged node is a leaf again with its pre-split neighbor pointers,
    // and its former children are gone from the arena.
    let merged = tree.get_node(ks[0]).unwrap();
    assert!(merged.is_leaf());
    assert_eq!(merged.get_cardinal_neighbors_index(), before);
    let ne_west_after = tree
        .get_node(ks[1])
        .unwrap()
        .get_cardinal_neighbor_index(Cardinality::West);
    assert_eq!(ne_west_after, ne_west_before);
    for g in gs {
        assert!(tree.get_node(g).is_none());
    }
}

#[test]
fn subdividing_twice_fails_and_changes_nothing() {
    let mut tree = CNQuadtree::new("root", (0, 0, 100, 100));
    let root = tree.get_root();
    let ks = tree.subdivide(root, ("nw", "ne", "sw", "se")).unwrap();
    let err = tree.subdivide(root, ("a", "b", "c", "d")).unwrap_err();
    assert!(matches!(err.source, SubdivideErrorEnum::AlreadySubdivided));
    assert_eq!(err.items, ("a", "b", "c", "d"));
    // Nothing moved: same children, same payloads, same neighbor pointers.
    assert_eq!(tree.get_node(root).unwrap().get_children_index(), Some(ks));
    assert_eq!(tree.get_node(ks[0]).unwrap().get_item(), &"nw");
    assert_eq!(
        tree.get_node(ks[0]).unwrap().get_cardinal_neighbor_index(Cardinality::East),
        Some(ks[1])
    );
}

#[test]
fn subdividing_an_invalid_index_fails() {
    let mut tree = CNQuadtree::new("root", (0, 0, 100, 100));
    let err = tree.subdivide(9999, ("a", "b", "c", "d")).unwrap_err();
    assert!(matches!(err.source, SubdivideErrorEnum::InvalidIndex));
    assert_eq!(err.items, ("a", "b", "c", "d"));
}

#[test]
fn merge_with_non_leaf_children_is_refused() {
    let mut tree = CNQuadtree::new("root", (0, 0, 100, 100));
    let root = tree.get_root();
    let ks = tree.subdivide(root, ("nw", "ne", "sw", "se")).unwrap();
    let gs = tree.subdivide(ks[0], ("g0", "g1", "g2", "g3")).unwrap();
    // NW is no longer a leaf, so the root's children cannot be merged.
    assert!(tree.pop_children(root).is_none());
    // Nothing was mutated.
    assert_eq!(tree.get_node(root).unwrap().get_children_index(), Some(ks));
    assert!(tree.get_node(ks[0]).unwrap().has_children());
    for g in gs {
        assert!(tree.get_node(g).is_some());
    }
    // Merging a leaf is refused too.
    assert!(tree.pop_children(ks[1]).is_none());
}

#[test]
fn point_locate_finds_the_covering_leaf() {
    let mut tree = CNQuadtree::new("root", (0, 0, 100, 100));
    let root = tree.get_root();
    assert_eq!(tree.point_locate((10, 10)), Some(root));
    let ks = tree.subdivide(root, ("nw", "ne", "sw", "se")).unwrap();
    let gs = tree.subdivide(ks[0], ("g0", "g1", "g2", "g3")).unwrap();
    assert_eq!(tree.point_locate((10, 10)), Some(gs[0]));
    assert_eq!(tree.point_locate((30, 10)), Some(gs[1]));
    assert_eq!(tree.point_locate((10, 30)), Some(gs[2]));
    assert_eq!(tree.point_locate((30, 30)), Some(gs[3]));
    assert_eq!(tree.point_locate((75, 20)), Some(ks[1]));
    // Intervals are half-open: the shared corner belongs to the south-east.
    assert_eq!(tree.point_locate((50, 50)), Some(ks[3]));
    assert_eq!(tree.point_locate((25, 25)), Some(gs[3]));
    // Outside the root's bounds nothing is found.
    assert_eq!(tree.point_locate((100, 50)), None);
    assert_eq!(tree.point_locate((200, 10)), None);
}

#[test]
fn border_nodes_have_empty_neighbor_lists() {
    let mut tree = CNQuadtree::new("root", (0, 0, 100, 100));
    let root = tree.get_root();
    // A valid border node gets an empty present list; an invalid index gets
    // an absent result.
    assert_eq!(tree.get_neighbors(root, Cardinality::West), Some(vec![]));
    assert_eq!(tree.get_neighbors(9999, Cardinality::West), None);
    let ks = tree.subdivide(root, ("nw", "ne", "sw", "se")).unwrap();
    assert_eq!(tree.get_neighbors(ks[0], Cardinality::West), Some(vec![]));
    assert_eq!(tree.get_neighbors(ks[0], Cardinality::East), Some(vec![ks[1]]));
}

#[test]
fn location_among_siblings_names_the_quadrant() {
    let mut tree = CNQuadtree::new("root", (0, 0, 100, 100));
    let root = tree.get_root();
    let ks = tree.subdivide(root, ("nw", "ne", "sw", "se")).unwrap();
    assert_eq!(tree.location_among_siblings(root), None);
    assert_eq!(tree.location_among_siblings(9999), None);
    assert_eq!(tree.location_among_siblings(ks[0]), Some(Location::NorthWest));
    assert_eq!(tree.location_among_siblings(ks[1]), Some(Location::NorthEast));
    assert_eq!(tree.location_among_siblings(ks[2]), Some(Location::SouthWest));
    assert_eq!(tree.location_among_siblings(ks[3]), Some(Location::SouthEast));
}

#[test]
fn shallow_inherited_neighbor_is_its_own_lookup() {
    let mut tree = CNQuadtree::new("root", (0, 0, 100, 100));
    let root = tree.get_root();
    let ks = tree.subdivide(root, ("nw", "ne", "sw", "se")).unwrap();
    // NE sits at layer one; for a child at layer two it covers the whole
    // border, so the border walk returns it unchanged.
    assert_eq!(find_cardinal_neighbor(&tree, 2, Cardinality::East, ks[1]), Some(ks[1]));
    assert_eq!(find_cardinal_neighbor(&tree, 2, Cardinality::East, 9999), None);
}

#[test]
fn payloads_can_be_edited_in_place() {
    let mut tree = CNQuadtree::new(String::from("root"), (0, 0, 100, 100));
    let root = tree.get_root();
    *tree.get_node_mut(root).unwrap().get_item_mut() = String::from("renamed");
    assert_eq!(tree.get_node(root).unwrap().get_item().as_str(), "renamed");
    assert!(tree.get_node_mut(9999).is_none());
}

#[test]
fn max_level_follows_splits_and_merges() {
    let mut tree = CNQuadtree::new("root", (0, 0, 100, 100));
    let root = tree.get_root();
    assert_eq!(tree.get_max_level(), 0);
    let ks = tree.subdivide(root, ("nw", "ne", "sw", "se")).unwrap();
    assert_eq!(tree.get_max_level(), 1);
    tree.subdivide(ks[0], ("g0", "g1", "g2", "g3")).unwrap();
    assert_eq!(tree.get_max_level(), 2);
    tree.pop_children(ks[0]).unwrap();
    assert_eq!(tree.get_max_level(), 1);
}

#[test]
fn node_accessors_and_bounds_equality() {
    let mut tree = CNQuadtree::new("root", (0, 0, 100, 100));
    let root = tree.get_root();
    let ks = tree.subdivide(root, ("nw", "ne", "sw", "se")).unwrap();
    let nw = tree.get_node(ks[0]).unwrap();
    assert!(nw.has_parent());
    assert!(nw.is_leaf());
    assert!(!nw.has_neighbor(Cardinality::West));
    assert!(nw.has_neighbor(Cardinality::East));
    assert!(nw.point_in((0, 0)));
    assert!(!nw.point_in((50, 0)));
    let root_node = tree.get_node(root).unwrap();
    assert_eq!(root_node.get_child_index(Location::SouthWest), Some(ks[2]));
    // Nodes compare by their bounds.
    assert!(tree.get_node(ks[0]).unwrap() == tree.get_node(ks[0]).unwrap());
    assert!(tree.get_node(ks[0]).unwrap() != tree.get_node(ks[1]).unwrap());
}
