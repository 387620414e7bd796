use quizx::graph::{GraphLike, VType};
use quizx::hash_graph::Graph;
use rust_web::make_rg::{make_rg, make_rg_within, RgError, Subdivision, REWRITE_CAP};

#[test]
fn test_make_rg() {
    // Create a simple graph with two X nodes connected by an edge
    let mut graph = Graph::new();
    let v1 = graph.add_vertex(VType::X);
    let v2 = graph.add_vertex(VType::X);
    graph.add_edge(v1, v2);

    // Debug output
    println!("Original graph: {} vertices, {} edges", graph.num_vertices(), graph.num_edges());
    // Apply RG transformation
    let steps = make_rg(&mut graph).expect("the rewriting ends");
    println!("Transformed graph: {} vertices, {} edges", graph.num_vertices(), graph.num_edges());

    // In RG form, we expect:
    // 1. Original edge v1-v2 is removed
    // 2. A new Z node is added between them
    // 3. The new Z node is connected to both original nodes
    // Since this is a simple graph with just two connected nodes,
    // we expect exactly 2 edges in the transformed graph
    assert_eq!(graph.num_vertices(), 3, "Should have 3 vertices (2 original X nodes + 1 new Z node)");
    assert_eq!(graph.num_edges(), 2, "Should have 2 edges (v1-new_node and v2-new_node)");

    // Verify the new node is of type Z
    let new_node = graph.vertices()
        .find(|&v| v != v1 && v != v2)
        .expect("Should have a new node");

    assert_eq!(graph.vertex_type(new_node), VType::Z, "New node should be of type Z");

    // Verify connections
    assert!(graph.connected(v1, new_node), "v1 should be connected to new node");
    assert!(graph.connected(v2, new_node), "v2 should be connected to new node");
    assert!(!graph.connected(v1, v2));
    assert_eq!(steps, vec![Subdivision { vertex: new_node, from: v1, to: v2 }]);
}

#[test]
fn make_rg_leaves_red_green_graph_alone() {
    let mut graph = Graph::new();
    let b0 = graph.add_vertex(VType::B);
    let z = graph.add_vertex(VType::Z);
    let x = graph.add_vertex(VType::X);
    let b1 = graph.add_vertex(VType::B);
    graph.add_edge(b0, z);
    graph.add_edge(z, x);
    graph.add_edge(x, b1);
    let steps = make_rg(&mut graph).unwrap();
    assert!(steps.is_empty());
    assert_eq!(graph.num_vertices(), 4);
    assert_eq!(graph.num_edges(), 3);
}

#[test]
fn make_rg_never_rewrites_boundaries_or_boxes() {
    let mut graph = Graph::new();
    let b0 = graph.add_vertex(VType::B);
    let b1 = graph.add_vertex(VType::B);
    let h0 = graph.add_vertex(VType::H);
    let h1 = graph.add_vertex(VType::H);
    graph.add_edge(b0, b1);
    graph.add_edge(h0, h1);
    let steps = make_rg(&mut graph).unwrap();
    assert!(steps.is_empty());
    assert!(graph.connected(b0, b1));
    assert!(graph.connected(h0, h1));
    assert_eq!(graph.num_vertices(), 4);
}

#[test]
fn make_rg_joins_new_spider_to_other_neighbours() {
    // z0 - z1 - x2: the edge z0-z1 is replaced by an X spider that is also
    // joined to x2, the other neighbour of z1; that new edge is a clash in
    // turn and is replaced by a Z spider.
    let mut graph = Graph::new();
    let z0 = graph.add_vertex(VType::Z);
    let z1 = graph.add_vertex(VType::Z);
    let x2 = graph.add_vertex(VType::X);
    graph.add_edge(z0, z1);
    graph.add_edge(z1, x2);
    let steps = make_rg_within(&mut graph, 1).unwrap_err();
    assert_eq!(steps, RgError::IterationCap);
    assert_eq!(graph.num_vertices(), 4);
    let w = 3;
    assert_eq!(graph.vertex_type(w), VType::X);
    assert!(graph.connected(w, z0));
    assert!(graph.connected(w, z1));
    assert!(graph.connected(w, x2));
    assert!(graph.connected(z1, x2));
    assert!(!graph.connected(z0, z1));
    assert_eq!(graph.num_edges(), 4);
}

#[test]
fn make_rg_within_reports_the_cap() {
    let mut graph = Graph::new();
    let v1 = graph.add_vertex(VType::X);
    let v2 = graph.add_vertex(VType::X);
    graph.add_edge(v1, v2);
    assert_eq!(make_rg_within(&mut graph, 0), Err(RgError::IterationCap));
    assert_eq!(graph.num_vertices(), 2);
    assert!(graph.connected(v1, v2));
}

#[test]
fn make_rg_takes_the_first_clash_first() {
    // two separate clashes: x0-x1 and z2-z3; the one at the smaller vertex
    // is rewritten first
    let mut graph = Graph::new();
    let x0 = graph.add_vertex(VType::X);
    let x1 = graph.add_vertex(VType::X);
    let z2 = graph.add_vertex(VType::Z);
    let z3 = graph.add_vertex(VType::Z);
    graph.add_edge(z2, z3);
    graph.add_edge(x0, x1);
    let steps = make_rg(&mut graph).unwrap();
    assert_eq!(
        steps,
        vec![
            Subdivision { vertex: 4, from: x0, to: x1 },
            Subdivision { vertex: 5, from: z2, to: z3 },
        ]
    );
    assert_eq!(graph.vertex_type(4), VType::Z);
    assert_eq!(graph.vertex_type(5), VType::X);
    assert_eq!(graph.num_edges(), 4);
}

#[test]
fn make_rg_reports_rewriting_that_does_not_end() {
    // on a chain of three X spiders every rewrite brings a new clash about
    let mut graph = Graph::new();
    let a = graph.add_vertex(VType::X);
    let b = graph.add_vertex(VType::X);
    let c = graph.add_vertex(VType::X);
    graph.add_edge(a, b);
    graph.add_edge(b, c);
    assert_eq!(make_rg(&mut graph), Err(RgError::IterationCap));
    // the graph stays as far as it was rewritten
    assert_eq!(graph.num_vertices(), 3 + REWRITE_CAP);
    assert_eq!(REWRITE_CAP, 1_000);
}

#[test]
fn make_rg_within_stops_when_the_form_is_reached() {
    let mut graph = Graph::new();
    let v1 = graph.add_vertex(VType::Z);
    let v2 = graph.add_vertex(VType::Z);
    graph.add_edge(v1, v2);
    let steps = make_rg_within(&mut graph, 1).unwrap();
    assert_eq!(steps, vec![Subdivision { vertex: 2, from: v1, to: v2 }]);
    assert_eq!(graph.vertex_type(2), VType::X);
    assert_eq!(make_rg_within(&mut graph, 0), Ok(vec![]));
}

#[test]
fn make_rg_refuses_a_graph_with_a_loop() {
    let mut graph = Graph::new();
    let v1 = graph.add_vertex(VType::X);
    let v2 = graph.add_vertex(VType::X);
    graph.add_edge(v1, v2);
    graph.add_edge(v2, v2);
    assert!(!rust_web::make_rg::is_consistent(&graph));
    assert_eq!(make_rg(&mut graph), Err(RgError::InconsistentGraph));
    // the graph is left as it was
    assert_eq!(graph.num_vertices(), 2);
    assert!(graph.connected(v1, v2));
    assert!(graph.connected(v2, v2));
    assert_eq!(
        rust_web::detection_webs::get_detection_webs(&mut graph).unwrap_err(),
        rust_web::detection_webs::WebError::Normalization(RgError::InconsistentGraph)
    );
}

#[test]
fn make_rg_reports_that_no_index_is_left() {
    let mut graph = Graph::new();
    let low = graph.add_vertex(VType::X);
    let high = usize::MAX - 1;
    graph
        .add_named_vertex_with_data(
            high,
            quizx::graph::VData { ty: VType::X, ..Default::default() },
        )
        .unwrap();
    graph.add_edge(low, high);
    assert_eq!(graph.vindex(), usize::MAX);
    assert!(rust_web::make_rg::is_consistent(&graph));
    assert_eq!(make_rg(&mut graph), Err(RgError::VertexIdsExhausted));
    assert_eq!(graph.num_vertices(), 2);
    assert!(graph.connected(low, high));
    // without a clash no index is needed
    graph.remove_edge(low, high);
    assert_eq!(make_rg(&mut graph), Ok(vec![]));
}
