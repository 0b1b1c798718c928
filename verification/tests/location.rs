use cn_quadtree::location::{Cardinality, Location};

#[test]
fn test_cardinality_opposite() {
    let directions = [
        Cardinality::West,
        Cardinality::North,
        Cardinality::East,
        Cardinality::South,
    ];
    let opposites = [
        Cardinality::East,
        Cardinality::South,
        Cardinality::West,
        Cardinality::North,
    ];

    for (dir, opp) in directions.into_iter().zip(opposites) {
        assert_eq!(dir.opposite(), opp);
    }
}

#[test]
fn test_cardinality_succeeding_neighbor() {
    let directions = [
        Cardinality::West,
        Cardinality::North,
        Cardinality::East,
        Cardinality::South,
    ];
    let succeeding_neighbors = [
        Cardinality::South,
        Cardinality::East,
        Cardinality::North,
        Cardinality::West,
    ];

    for (dir, next_neighbor) in directions.into_iter().zip(succeeding_neighbors) {
        assert_eq!(dir.next_neighbor(), next_neighbor);
    }
}

#[test]
fn location_round_trips_through_its_index() {
    let locations = [
        Location::NorthWest,
        Location::NorthEast,
        Location::SouthWest,
        Location::SouthEast,
    ];
    for (i, loc) in locations.into_iter().enumerate() {
        assert_eq!(loc.as_index(), i);
        assert_eq!(Location::from_index(i), Some(loc));
    }
    assert_eq!(Location::from_index(4), None);
}

#[test]
fn cardinality_round_trips_through_its_index() {
    let directions = [
        Cardinality::West,
        Cardinality::North,
        Cardinality::East,
        Cardinality::South,
    ];
    for (i, dir) in directions.into_iter().enumerate() {
        assert_eq!(dir.as_index(), i);
        assert_eq!(Cardinality::from_index(i), Some(dir));
    }
    assert_eq!(Cardinality::from_index(4), None);
}

#[test]
fn opposite_is_an_involution() {
    for dir in [
        Cardinality::West,
        Cardinality::North,
        Cardinality::East,
        Cardinality::South,
    ] {
        assert_eq!(dir.opposite().opposite(), dir);
    }
}

#[test]
fn next_neighbor_forms_a_four_cycle() {
    for dir in [
        Cardinality::West,
        Cardinality::North,
        Cardinality::East,
        Cardinality::South,
    ] {
        let once = dir.next_neighbor();
        let four = once.next_neighbor().next_neighbor().next_neighbor();
        assert_eq!(four, dir);
    }
}
