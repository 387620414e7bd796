use quizx::graph::{GraphLike, VType};
use quizx::hash_graph::Graph;
use rust_web::detection_webs::{
    count_boundary, get_adjacency_matrix, get_detection_webs, get_pw, ordered_nodes, WebError,
};
use rust_web::make_rg::{find_clash, is_consistent, subdivide_edge, RgError};
use rust_web::pauliweb::Pauli;

fn identity_wire() -> Graph {
    let mut g = Graph::new();
    let input = g.add_vertex(VType::B);
    let spider = g.add_vertex(VType::Z);
    let output = g.add_vertex(VType::B);
    g.add_edge(input, spider);
    g.add_edge(spider, output);
    g.set_inputs(vec![input]);
    g.set_outputs(vec![output]);
    g
}

fn square() -> Graph {
    let mut g = Graph::new();
    let z0 = g.add_vertex(VType::Z);
    let x1 = g.add_vertex(VType::X);
    let z2 = g.add_vertex(VType::Z);
    let x3 = g.add_vertex(VType::X);
    g.add_edge(z0, x1);
    g.add_edge(x1, z2);
    g.add_edge(z2, x3);
    g.add_edge(x3, z0);
    g
}

#[test]
fn identity_wire_has_no_detection_webs() {
    let mut g = identity_wire();
    let webs = get_detection_webs(&mut g).unwrap();
    assert!(webs.is_empty());
    // the graph was in red-green form already
    assert_eq!(g.num_vertices(), 3);
    assert_eq!(g.num_edges(), 2);
}

#[test]
fn square_has_one_web_for_each_colour() {
    let mut g = square();
    let webs = get_detection_webs(&mut g).unwrap();
    assert_eq!(webs.len(), 2);
    // the first selects the Z spiders, the second the X spiders; each has
    // all four edges among its own
    for (a, b) in [(0, 1), (1, 2), (2, 3), (3, 0)] {
        assert_eq!(webs[0].get_edge(a, b), Some(Pauli::Z));
        assert_eq!(webs[1].get_edge(a, b), Some(Pauli::X));
    }
    assert_eq!(webs[0].get_edge(0, 2), None);
    assert_eq!(webs[0].edge_operators.len(), 4);
    assert_eq!(webs[1].edge_operators.len(), 4);
}

#[test]
fn detection_webs_normalize_the_graph_first() {
    // x0 - x1, both between boundaries: the rewrite puts a Z spider between
    let mut g = Graph::new();
    let b0 = g.add_vertex(VType::B);
    let x1 = g.add_vertex(VType::X);
    let x2 = g.add_vertex(VType::X);
    let b3 = g.add_vertex(VType::B);
    g.add_edge(b0, x1);
    g.add_edge(x1, x2);
    g.add_edge(x2, b3);
    let webs = get_detection_webs(&mut g).unwrap();
    assert_eq!(g.num_vertices(), 5);
    assert!(!g.connected(x1, x2));
    assert_eq!(g.vertex_type(4), VType::Z);
    assert!(find_clash(&g).is_none());
    assert!(webs.is_empty());
}

#[test]
fn ordered_nodes_puts_boundaries_first() {
    let mut g = Graph::new();
    let z0 = g.add_vertex(VType::Z);
    let b1 = g.add_vertex(VType::B);
    let x2 = g.add_vertex(VType::X);
    let b3 = g.add_vertex(VType::B);
    let h4 = g.add_vertex(VType::H);
    g.add_edge(b1, z0);
    g.add_edge(z0, x2);
    g.add_edge(x2, b3);
    let (nodes, index) = ordered_nodes(&g);
    assert_eq!(nodes, vec![b1, b3, z0, x2, h4]);
    assert_eq!(index.len(), 5);
    for (place, v) in nodes.iter().enumerate() {
        assert_eq!(index[v], place);
    }
    assert_eq!(count_boundary(&g), 2);
}

#[test]
fn adjacency_matrix_follows_the_node_list() {
    let g = identity_wire();
    let adj = get_adjacency_matrix(&g, &vec![0, 2, 1]);
    assert_eq!(adj.to_u8_vec(), vec![vec![0, 0, 1], vec![0, 0, 1], vec![1, 1, 0]]);
    let other = get_adjacency_matrix(&g, &vec![1, 0]);
    assert_eq!(other.to_u8_vec(), vec![vec![0, 1], vec![1, 0]]);
    assert_eq!(get_adjacency_matrix(&g, &vec![]).rows(), 0);
}

#[test]
fn get_pw_labels_edges_by_spider_colour() {
    // b0 - z1 - x2 - b3: two boundary vertices, so positions 0..4 belong
    // to the boundary and position 4 + p - 2 to place p of the order
    let mut g = Graph::new();
    let b0 = g.add_vertex(VType::B);
    let z1 = g.add_vertex(VType::Z);
    let x2 = g.add_vertex(VType::X);
    let b3 = g.add_vertex(VType::B);
    g.add_edge(b0, z1);
    g.add_edge(z1, x2);
    g.add_edge(x2, b3);
    let (nodes, _) = ordered_nodes(&g);
    assert_eq!(nodes, vec![b0, b3, z1, x2]);

    // only the X spider, at place 3, position 2 + 3
    let only_x = vec![false, false, false, false, false, true];
    let pw = get_pw(&nodes, &only_x, &g).unwrap();
    assert_eq!(pw.get_edge(z1, x2), Some(Pauli::X));
    assert_eq!(pw.get_edge(x2, b3), Some(Pauli::X));
    assert_eq!(pw.get_edge(b0, z1), None);
    assert_eq!(pw.edge_operators.len(), 2);

    // both spiders: the shared edge takes the label of the Z spider
    let both = vec![false, false, false, false, true, true];
    let pw = get_pw(&nodes, &both, &g).unwrap();
    assert_eq!(pw.get_edge(b0, z1), Some(Pauli::Z));
    assert_eq!(pw.get_edge(x2, z1), Some(Pauli::Z));
    assert_eq!(pw.get_edge(b3, x2), Some(Pauli::X));

    // ones at boundary positions select nothing
    let pinned = vec![true, true, true, true, false, false];
    let pw = get_pw(&nodes, &pinned, &g).unwrap();
    assert!(pw.edge_operators.is_empty());
    let pw = get_pw(&nodes, &vec![], &g).unwrap();
    assert!(pw.edge_operators.is_empty());
}

#[test]
fn get_pw_reports_what_is_wrong() {
    let mut g = Graph::new();
    let z0 = g.add_vertex(VType::Z);
    let h1 = g.add_vertex(VType::H);
    g.add_edge(z0, h1);
    // no boundary vertices: position p selects place p
    let nodes = vec![z0, h1, 17];
    assert_eq!(
        get_pw(&nodes, &vec![true, true, false], &g).unwrap_err(),
        WebError::NotASpider { vertex: h1 }
    );
    assert_eq!(
        get_pw(&nodes, &vec![true, false, true], &g).unwrap_err(),
        WebError::MissingVertex { vertex: 17 }
    );
    assert_eq!(
        get_pw(&nodes, &vec![true, false, false, false, true], &g).unwrap_err(),
        WebError::PositionOutOfRange { position: 4 }
    );
    // the first defect is the one reported
    assert_eq!(
        get_pw(&nodes, &vec![false, true, true, true], &g).unwrap_err(),
        WebError::NotASpider { vertex: h1 }
    );
    let pw = get_pw(&nodes, &vec![true, false, false], &g).unwrap();
    assert_eq!(pw.get_edge(h1, z0), Some(Pauli::Z));
}

#[test]
fn detection_webs_report_a_box_that_a_vector_selects() {
    // a square with a Hadamard box in place of one spider
    let mut g = Graph::new();
    let z0 = g.add_vertex(VType::Z);
    let x1 = g.add_vertex(VType::X);
    let z2 = g.add_vertex(VType::Z);
    let h3 = g.add_vertex(VType::H);
    g.add_edge(z0, x1);
    g.add_edge(x1, z2);
    g.add_edge(z2, h3);
    g.add_edge(h3, z0);
    assert_eq!(get_detection_webs(&mut g).unwrap_err(), WebError::NotASpider { vertex: h3 });
}

#[test]
fn graphs_built_through_quizx_are_consistent() {
    assert!(is_consistent(&Graph::new()));
    assert!(is_consistent(&identity_wire()));
    let mut g = square();
    assert!(is_consistent(&g));
    g.remove_vertex(2);
    assert!(is_consistent(&g));
    assert_eq!(g.num_edges(), 2);
}

#[test]
fn subdivide_edge_replaces_the_edge() {
    let mut g = Graph::new();
    let z0 = g.add_vertex(VType::Z);
    let z1 = g.add_vertex(VType::Z);
    let b2 = g.add_vertex(VType::B);
    g.add_edge(z0, z1);
    g.add_edge(z0, b2);
    assert_eq!(find_clash(&g), Some((z0, z1)));
    let w = subdivide_edge(&mut g, z0, z1);
    assert_eq!(w, 3);
    assert_eq!(g.vertex_type(w), VType::X);
    assert!(g.connected(w, z0));
    assert!(g.connected(w, z1));
    assert!(g.connected(w, b2));
    assert!(g.connected(z0, b2));
    assert!(!g.connected(z0, z1));
    assert_eq!(g.num_edges(), 4);
    assert_eq!(g.num_vertices(), 4);
    assert_eq!(find_clash(&g), None);
    assert!(is_consistent(&g));
}

#[test]
fn detection_webs_report_a_graph_that_does_not_normalize() {
    let mut g = Graph::new();
    let a = g.add_vertex(VType::Z);
    let b = g.add_vertex(VType::Z);
    let c = g.add_vertex(VType::Z);
    g.add_edge(a, b);
    g.add_edge(b, c);
    assert_eq!(
        get_detection_webs(&mut g).unwrap_err(),
        WebError::Normalization(RgError::IterationCap)
    );
}
