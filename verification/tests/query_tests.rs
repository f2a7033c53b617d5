use pnawir::builder::build_sync_reachability_graph;
use pnawir::graph::{GraphEdge, SyncEdge, SyncMarking};
use pnawir::marking::{Marking, PlaceCount};
use pnawir::parse::parse;
use pnawir::transform::{check_raw_input, transform};

#[test]
fn edge_constructors_store_their_fields() {
    let e = GraphEdge::new(3, 7);
    assert_eq!(e.transition_id, 3);
    assert_eq!(e.graph_marking_id, 7);
    let s = SyncEdge::new(1, 2);
    assert_eq!(s.transition_id, 1);
    assert_eq!(s.sync_marking_id, 2);
    let p = PlaceCount::new(5, 6);
    assert_eq!(p.place_id, 5);
    assert_eq!(p.count, 6);
}

fn small_graph() -> pnawir::graph::Graph {
    let raw = parse("{\ns1: a1, b1 -> a2, b2\n}\nmodA { a1(1), a2 }\nmodB { b1(1), b2 }\n")
        .expect("parse");
    assert!(check_raw_input(&raw));
    let net = transform(raw).expect("transform");
    build_sync_reachability_graph(&net).expect("build")
}

#[test]
fn contains_sync_node_finds_by_segment_ids() {
    let graph = small_graph();
    let probe = SyncMarking {
        segment_ids: vec![1, 1],
        edges: vec![],
    };
    assert_eq!(graph.contains_sync_node(probe), Some(1));
    let absent = SyncMarking {
        segment_ids: vec![0, 1],
        edges: vec![],
    };
    assert_eq!(graph.contains_sync_node(absent), None);
}

#[test]
fn contains_segment_matches_by_marking_multiset() {
    let graph = small_graph();
    // segment 1 of module 0 holds the single marking a2(1)
    let probe = &graph.segment_storage[0].segments[1].segment;
    assert_eq!(graph.contains_segment(probe, 0), Some(1));
}

#[test]
fn search_equal_marking_returns_the_markings_id() {
    let graph = small_graph();
    let seg = &graph.segment_storage[0].segments[1].segment;
    let target = Marking {
        place_counts: vec![PlaceCount::new(1, 1)],
    };
    assert_eq!(seg.search_equal_marking(&target), Some(seg.markings[0].id));
    let absent = Marking {
        place_counts: vec![PlaceCount::new(0, 1)],
    };
    assert_eq!(seg.search_equal_marking(&absent), None);
}
