use algs4::graph::Graph;

#[test]
fn test_graph() {
    let mut g = Graph::new(10);
    g.add_edge(0, 3);
    g.add_edge(0, 5);
    g.add_edge(4, 5);
    g.add_edge(2, 9);
    g.add_edge(2, 8);
    g.add_edge(3, 7);

    g.add_edge(1, 6);
    g.add_edge(6, 9);
    g.add_edge(5, 8);

    println!("got => \n{}", g.to_dot());

    assert_eq!(10, g.vertices());
    assert_eq!(9, g.edges());
    assert_eq!(3, g.degree(5));

    for w in g.adj(5) {
        assert!(vec![8, 4, 0].contains(w));
    }
}

#[test]
fn new_graph_has_no_edges() {
    let g = Graph::new(3);
    assert_eq!(g.vertices(), 3);
    assert_eq!(g.edges(), 0);
    assert_eq!(g.degree(2), 0);
    assert!(g.validate_vertex(2));
    assert!(!g.validate_vertex(3));
    assert_eq!(g.to_dot(), "graph G {\n  0;\n  1;\n  2;\n}\n");
}

#[test]
fn dot_lists_each_edge_from_both_ends() {
    let mut g = Graph::new(12);
    g.add_edge(0, 11);
    g.add_edge(3, 3);
    assert_eq!(g.degree(3), 2);
    assert_eq!(g.adj(0), &vec![11]);
    assert_eq!(g.adj(11), &vec![0]);
    let dot = g.to_dot();
    assert!(dot.starts_with("graph G {\n  0;\n  1;\n"));
    assert!(dot.contains("  11;\n"));
    assert!(dot.ends_with("  0 -- 11;\n  3 -- 3;\n  3 -- 3;\n  11 -- 0;\n}\n"));
}
