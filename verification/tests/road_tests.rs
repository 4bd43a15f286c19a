use snow_routes::data::Node;
use snow_routes::road::{Positioned, RoadEdge, RoadNode, Weighted};

fn edge(p1: u64, p2: u64) -> RoadEdge {
    RoadEdge { p1, p2, discriminator: Some(4), directed: false, length: 9, iidx: 0 }
}

#[test]
fn dupe_has_the_next_index_and_is_a_new_similar_edge() {
    let e = edge(1, 2);
    let d = e.dupe();
    assert_eq!(d.iidx, e.iidx + 1);
    assert_eq!(d.p1, e.p1);
    assert_eq!(d.p2, e.p2);
    assert_eq!(d.discriminator, e.discriminator);
    assert_eq!(d.directed, e.directed);
    assert_eq!(d.length, e.length);
    assert!(e.similar(&d));
    assert!(d.similar(&e));
    assert!(e.duped(&d));
    assert!(d.duped(&e));
    assert!(e != d);
    assert!(!(e == d));
    let dd = d.dupe();
    assert_eq!(dd.iidx, 2);
    assert!(e.duped(&dd));
}

#[test]
fn an_edge_is_no_duplicate_of_itself() {
    let e = edge(1, 2);
    assert!(e.similar(&e));
    assert!(!e.duped(&e));
    assert!(e == e);
}

#[test]
fn equality_ignores_length_and_direction() {
    let e = edge(1, 2);
    let f = RoadEdge { length: 1, directed: true, ..e };
    assert!(e == f);
    assert!(e != RoadEdge { discriminator: None, ..e });
    assert!(e != RoadEdge { p1: 2, p2: 1, ..e });
    assert!(e != RoadEdge { iidx: 3, ..e });
}

#[test]
fn similarity_of_two_way_edges_ignores_the_order_of_the_ends() {
    let e = edge(1, 2);
    let swapped = RoadEdge { p1: 2, p2: 1, iidx: 1, ..e };
    assert!(e.similar(&swapped));
    assert!(e.duped(&swapped));
    let one_way = RoadEdge { directed: true, ..swapped };
    assert!(!e.similar(&one_way));
    assert!(!one_way.similar(&e));
    assert!(!e.similar(&RoadEdge { discriminator: Some(5), ..e }));
    assert!(!e.similar(&RoadEdge { p2: 3, ..e }));
}

#[test]
fn road_edge_weight_is_its_length() {
    assert_eq!(edge(1, 2).weight(), 9);
}

#[test]
fn road_node_from_node() {
    let n = RoadNode::from(Node { id: 5, coordinates: (3, -4) });
    assert_eq!(n.id(), 5);
    assert_eq!(n.pos(), (3, -4));
    assert_eq!(n.coordinates, (3, -4));
}
