use pnawir::builder::build_sync_reachability_graph;
use pnawir::graph::Graph;
use pnawir::net::ModularPetrinet;
use pnawir::parse::parse;
use pnawir::transform::{check_raw_input, transform};

fn build(text: &str) -> (ModularPetrinet, Graph) {
    let raw = parse(text).expect("parse");
    assert!(check_raw_input(&raw));
    let net = transform(raw).expect("transform");
    let graph = build_sync_reachability_graph(&net).expect("build");
    (net, graph)
}

#[test]
fn singleton_module_no_interface_transitions() {
    let (net, graph) = build("{\nt: p1 -> p2\n}\nm1 { p1(1), p2 }\n");
    assert_eq!(net.intern_transition_start, 0);
    assert_eq!(graph.sync_graph.len(), 1);
    assert_eq!(graph.sync_graph[0].segment_ids, vec![0]);
    assert_eq!(graph.sync_graph[0].edges.len(), 0);
    let store = &graph.segment_storage[0];
    assert_eq!(store.segments.len(), 1);
    let seg = &store.segments[0].segment;
    assert_eq!(seg.markings.len(), 2);
    // marking 0: p1(1); marking 1: p2(1)
    assert_eq!(seg.markings[0].marking.count(0), 1);
    assert_eq!(seg.markings[0].marking.count(1), 0);
    assert_eq!(seg.markings[1].marking.count(0), 0);
    assert_eq!(seg.markings[1].marking.count(1), 1);
    // one internal edge labeled t (id 0) from marking 0 to marking 1
    assert_eq!(seg.markings[0].edges.len(), 1);
    assert_eq!(seg.markings[0].edges[0].transition_id, 0);
    assert_eq!(seg.markings[0].edges[0].graph_marking_id, 1);
    assert_eq!(seg.markings[1].edges.len(), 0);
    assert_eq!(store.next_marking_id, 2);
}

#[test]
fn self_disabling_transition_fires_once() {
    let (_net, graph) = build("{\nt: p1(2) -> p2\n}\nm1 { p1(2), p2 }\n");
    let seg = &graph.segment_storage[0].segments[0].segment;
    assert_eq!(seg.markings.len(), 2);
    assert_eq!(seg.markings[0].marking.count(0), 2);
    assert_eq!(seg.markings[1].marking.count(0), 0);
    assert_eq!(seg.markings[1].marking.count(1), 1);
    assert_eq!(seg.markings[0].edges.len(), 1);
    // after firing, nothing is enabled any more
    assert_eq!(seg.markings[1].edges.len(), 0);
}

#[test]
fn two_modules_one_interface_transition() {
    let (net, graph) = build(
        "{\ns1: a1, b1 -> a2, b2\n}\nmodA { a1(1), a2 }\nmodB { b1(1), b2 }\n",
    );
    assert_eq!(net.intern_transition_start, 1);
    assert_eq!(net.interface_t_overview.len(), 1);
    assert_eq!(net.interface_t_overview[0], vec![0u16, 1u16]);
    assert_eq!(graph.sync_graph.len(), 2);
    assert_eq!(graph.sync_graph[0].edges.len(), 1);
    assert_eq!(graph.sync_graph[0].edges[0].transition_id, 0);
    assert_eq!(graph.sync_graph[0].edges[0].sync_marking_id, 1);
    assert_eq!(graph.sync_graph[1].edges.len(), 0);
    for m in 0..2 {
        let store = &graph.segment_storage[m];
        assert_eq!(store.segments.len(), 2);
        assert_eq!(store.segments[0].segment.markings.len(), 1);
        assert_eq!(store.segments[1].segment.markings.len(), 1);
    }
    assert_eq!(graph.sync_graph[1].segment_ids, vec![1, 1]);
}

#[test]
fn interface_transition_enabled_in_one_module_only() {
    let (_net, graph) = build(
        "{\ns1: a1, b1 -> a2, b2\n}\nmodA { a1(1), a2 }\nmodB { b1, b2 }\n",
    );
    assert_eq!(graph.sync_graph.len(), 1);
    assert_eq!(graph.sync_graph[0].edges.len(), 0);
}

#[test]
fn successor_segment_folded_onto_equivalent() {
    let (_net, graph) = build(
        "{\ns1: a1, b1 -> a2, b2\ns2: a2, b2 -> a1, b1\n}\nmodA { a1(1), a2 }\nmodB { b1(1), b2 }\n",
    );
    // Firing s2 from the second sync node leads back to the original local
    // markings: the candidate segments fold onto segment 0 and the sync
    // node folds onto node 0.
    assert_eq!(graph.sync_graph.len(), 2);
    assert_eq!(graph.segment_storage[0].segments.len(), 2);
    assert_eq!(graph.segment_storage[1].segments.len(), 2);
    assert_eq!(graph.sync_graph[1].edges.len(), 1);
    assert_eq!(graph.sync_graph[1].edges[0].sync_marking_id, 0);
}

#[test]
fn sync_level_self_loop() {
    let (_net, graph) = build(
        "{\ns1: a1, b1 -> a1, b1\n}\nmodA { a1(1) }\nmodB { b1(1) }\n",
    );
    assert_eq!(graph.sync_graph.len(), 1);
    assert_eq!(graph.sync_graph[0].edges.len(), 1);
    assert_eq!(graph.sync_graph[0].edges[0].transition_id, 0);
    assert_eq!(graph.sync_graph[0].edges[0].sync_marking_id, 0);
    // the ledger entry of the source segment was replaced by an empty one
    for m in 0..2 {
        let stored = &graph.segment_storage[m].segments[0];
        assert_eq!(stored.ledger.len(), 1);
        assert_eq!(stored.ledger[0].transition_id, 0);
        assert_eq!(stored.ledger[0].links.len(), 0);
    }
}

#[test]
fn ledger_links_fired_marking_to_seed() {
    let (_net, graph) = build(
        "{\ns1: a1, b1 -> a2, b2\n}\nmodA { a1(1), a2 }\nmodB { b1(1), b2 }\n",
    );
    let stored = &graph.segment_storage[0].segments[0];
    assert_eq!(stored.ledger.len(), 1);
    assert_eq!(stored.ledger[0].transition_id, 0);
    assert_eq!(stored.ledger[0].links, vec![(0, 1)]);
}

#[test]
fn internal_chain_is_explored_depth_first_into_one_segment() {
    let (_net, graph) = build(
        "{\nt1: p1 -> p2\nt2: p2 -> p3\n}\nm1 { p1(1), p2, p3 }\n",
    );
    let seg = &graph.segment_storage[0].segments[0].segment;
    assert_eq!(seg.markings.len(), 3);
    assert_eq!(graph.sync_graph.len(), 1);
}

#[test]
fn undeclared_place_is_a_reference_error() {
    let raw = parse("{\nt: p1 -> qq\n}\nm1 { p1(1) }\n").expect("parse");
    assert!(check_raw_input(&raw));
    match transform(raw) {
        Ok(_) => panic!("expected the reference error"),
        Err(name) => assert_eq!(name, "qq"),
    }
}

#[test]
fn zero_weight_arc_is_rejected_by_the_input_check() {
    let raw = parse("{\nt: p1(0) -> p2\n}\nm1 { p1(1), p2 }\n").expect("parse");
    assert!(!check_raw_input(&raw));
}

#[test]
fn duplicate_place_name_is_rejected_by_the_input_check() {
    let raw = parse("{\nt: p1 -> p2\n}\nm1 { p1(1), p2 }\nm2 { p1 }\n").expect("parse");
    assert!(!check_raw_input(&raw));
}
