use snow_routes::data::{closest, squared_distance, Distance, Location, Node, RoadGraphNodes};

fn nodes() -> RoadGraphNodes {
    RoadGraphNodes {
        nodes: vec![
            Node { id: 10, coordinates: (0, 0) },
            Node { id: 20, coordinates: (10, 0) },
            Node { id: 30, coordinates: (0, 10) },
            Node { id: 40, coordinates: (10, 0) },
        ],
    }
}

#[test]
fn distance_is_the_squared_straight_line() {
    assert_eq!((0, 0).distance(&(3, 4)), 25);
    assert_eq!((3, 4).distance(&(0, 0)), 25);
    assert_eq!((-1, -1).distance(&(-1, -1)), 0);
    assert_eq!(squared_distance((1, 2), (4, 6)), 25);
}

#[test]
fn distance_of_the_farthest_points_fits() {
    let d = (i32::MIN, i32::MIN).distance(&(i32::MAX, i32::MAX));
    let side = (u32::MAX as u128) * (u32::MAX as u128);
    assert_eq!(d, 2 * side);
}

#[test]
fn closest_is_the_first_of_the_nearest() {
    let points = vec![(5, 5), (1, 0), (0, 1), (9, 9)];
    assert_eq!(closest(&points, (0, 0)), 1);
    assert_eq!(closest(&points, (9, 8)), 3);
    assert_eq!(closest(&points, (5, 5)), 0);
    assert_eq!(closest(&vec![(7, 7)], (0, 0)), 0);
}

#[test]
fn locate_node_is_itself() {
    assert_eq!(nodes().locate(&Location::Node(30)), Some(30));
    assert_eq!(nodes().locate(&Location::Node(99)), Some(99));
    assert_eq!(RoadGraphNodes { nodes: vec![] }.locate(&Location::Node(1)), Some(1));
}

#[test]
fn locate_coordinates_is_the_nearest_node() {
    assert_eq!(nodes().locate(&Location::Coordinates(1, 1)), Some(10));
    assert_eq!(nodes().locate(&Location::Coordinates(1, 8)), Some(30));
    // Two nodes at the same place: the first wins.
    assert_eq!(nodes().locate(&Location::Coordinates(9, 1)), Some(20));
    // As near to one node as to another: the first wins.
    assert_eq!(nodes().locate(&Location::Coordinates(5, 0)), Some(10));
}

#[test]
fn locate_coordinates_without_nodes_is_absent() {
    assert_eq!(RoadGraphNodes { nodes: vec![] }.locate(&Location::Coordinates(1, 1)), None);
}
