use rust_web::pauliweb::{Pauli, PauliWeb};

#[test]
fn test_new_pauliweb() {
    let pw = PauliWeb::new();
    assert!(pw.edge_operators.is_empty());
}

#[test]
fn test_set_and_get_edge() {
    let mut pw = PauliWeb::new();
    
    // Test setting and getting an edge
    pw.set_edge(1, 2, Pauli::X);
    assert_eq!(pw.get_edge(1, 2), Some(Pauli::X));
    assert_eq!(pw.get_edge(2, 1), Some(Pauli::X)); // Should work in both directions
    
    // Test updating an edge
    pw.set_edge(1, 2, Pauli::Z);
    assert_eq!(pw.get_edge(1, 2), Some(Pauli::Z));
    
    // Test non-existent edge
    assert_eq!(pw.get_edge(1, 3), None);
}

#[test]
fn test_get_edge_color() {
    let mut pw = PauliWeb::new();
    
    // Test colors for each Pauli operator
    pw.set_edge(1, 2, Pauli::X);
    pw.set_edge(2, 3, Pauli::Y);
    pw.set_edge(3, 4, Pauli::Z);
    
    assert_eq!(pw.get_edge_color(1, 2), Some("green"));
    assert_eq!(pw.get_edge_color(2, 3), Some("blue"));
    assert_eq!(pw.get_edge_color(3, 4), Some("red"));
    assert_eq!(pw.get_edge_color(4, 5), None); // Non-existent edge
}

#[test]
fn test_edge_ordering() {
    let mut pw = PauliWeb::new();
    
    // Test that edge ordering doesn't matter for get/set
    pw.set_edge(2, 1, Pauli::X);
    assert_eq!(pw.get_edge(1, 2), Some(Pauli::X));
    
    // Test that updating with different order works
    pw.set_edge(1, 2, Pauli::Z);
    assert_eq!(pw.get_edge(2, 1), Some(Pauli::Z));
}

#[test]
fn default_web_is_empty() {
    let pw = PauliWeb::default();
    assert!(pw.edge_operators.is_empty());
    assert_eq!(pw.get_edge(0, 0), None);
}

#[test]
fn edges_with_swapped_or_large_endpoints_stay_apart() {
    let mut pw = PauliWeb::new();
    pw.set_edge(1, 2, Pauli::X);
    pw.set_edge(2, 3, Pauli::Y);
    pw.set_edge(usize::MAX, 0, Pauli::Z);
    pw.set_edge(5, 5, Pauli::Y);
    assert_eq!(pw.get_edge(2, 1), Some(Pauli::X));
    assert_eq!(pw.get_edge(3, 2), Some(Pauli::Y));
    assert_eq!(pw.get_edge(0, usize::MAX), Some(Pauli::Z));
    assert_eq!(pw.get_edge(5, 5), Some(Pauli::Y));
    assert_eq!(pw.get_edge(1, 3), None);
    assert_eq!(pw.get_edge(usize::MAX, 1), None);
    assert_eq!(pw.edge_operators.len(), 4);
    assert_eq!(pw.get_edge_color(0, usize::MAX), Some("red"));
}
