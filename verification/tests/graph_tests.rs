use rustygraphs::errors::GraphError;
use rustygraphs::graphs::graph::{Graph, Node};

fn s(text: &str) -> Node {
    Node::Str(text.to_string())
}

#[test]
fn new_graph_is_empty() {
    let g = Graph::new();
    assert_eq!(g.nodes_len(), 0);
    assert_eq!(g.name().as_str(), "");
    assert!(g.edges().is_empty());
    assert!(!g.has_node(&s("Maths")));
}

#[test]
fn idempotent_insertion() {
    let mut g = Graph::new();
    let h1 = g.add_node(s("Maths"));
    let h2 = g.add_node(s("Maths"));
    assert_eq!(h1, 0);
    assert_eq!(h2, h1);
    assert_eq!(g.nodes_len(), 1);
    assert!(g.has_node(&s("Maths")));
}

#[test]
fn insertion_deduplicates_by_value_and_tag() {
    let mut g = Graph::new();
    let h1 = g.add_node(Node::Int(1));
    let h2 = g.add_node(s("1"));
    let h3 = g.add_node(Node::Int(1));
    assert_eq!(h1, 0);
    assert_eq!(h2, 1);
    assert_eq!(h3, h1);
    assert_eq!(g.nodes_len(), 2);
}

#[test]
fn add_nodes_multiple_returns_handles_in_order() {
    let mut g = Graph::new();
    let hs = g.add_nodes_multiple(vec![s("A"), s("B"), s("A"), s("C")]);
    assert_eq!(hs, vec![0, 1, 0, 2]);
    assert_eq!(g.nodes_len(), 3);
}

#[test]
fn idempotent_edge_addition() {
    let mut g = Graph::new();
    g.add_edge(&s("A"), &s("B"));
    g.add_edge(&s("A"), &s("B"));
    g.add_edge(&s("B"), &s("A"));
    assert_eq!(g.edges().len(), 1);
    assert_eq!(g.nodes_len(), 2);
}

#[test]
fn edge_symmetry() {
    let mut g = Graph::new();
    g.add_edge(&s("A"), &s("B"));
    assert!(g.has_edge(&s("A"), &s("B")));
    assert!(g.has_edge(&s("B"), &s("A")));
    assert!(!g.has_edge(&s("A"), &s("C")));
}

#[test]
fn edge_addition_inserts_missing_endpoints() {
    let mut g = Graph::new();
    g.add_edge(&s("A"), &s("B"));
    assert!(g.has_node(&s("A")));
    assert!(g.has_node(&s("B")));
    assert_eq!(g.get_index(&s("A")), 0);
    assert_eq!(g.get_index(&s("B")), 1);
}

#[test]
fn removal_cascade() {
    let mut g = Graph::new();
    g.add_edge(&s("A"), &s("B"));
    g.add_edge(&s("A"), &s("C"));
    let removed = g.remove_node(&s("A")).unwrap();
    assert_eq!(removed, s("A"));
    assert!(!g.has_node(&s("A")));
    assert!(!g.has_edge(&s("A"), &s("B")));
    assert!(!g.has_edge(&s("B"), &s("A")));
    assert!(!g.has_edge(&s("A"), &s("C")));
    assert!(g.edges().is_empty());
    assert!(g.has_node(&s("B")));
    assert!(g.has_node(&s("C")));
}

#[test]
fn compaction_rewrites_moved_handle() {
    // removing handle 0 moves the last node into slot 0; the edge between
    // the two survivors must survive the rewrite of the moved handle
    let mut g = Graph::new();
    g.add_nodes_multiple(vec![s("A"), s("B"), s("C")]);
    g.add_edge(&s("A"), &s("C"));
    g.add_edge(&s("B"), &s("C"));
    g.remove_node(&s("A")).unwrap();
    assert!(g.has_edge(&s("B"), &s("C")));
    assert!(g.has_edge(&s("C"), &s("B")));
    assert_eq!(g.edges().len(), 1);
    assert_eq!(g.nodes_len(), 2);
}

#[test]
fn no_orphan_references_after_mixed_operations() {
    let mut g = Graph::new();
    g.add_nodes_multiple(vec![s("A"), s("B"), s("C"), s("D")]);
    g.add_edge(&s("A"), &s("B"));
    g.add_edge(&s("B"), &s("C"));
    g.add_edge(&s("C"), &s("D"));
    g.add_edge(&s("D"), &s("A"));
    g.remove_node(&s("B")).unwrap();
    g.add_edge(&s("E"), &s("C"));
    g.remove_node(&s("D")).unwrap();
    for (a, b) in g.edges() {
        assert!(a < g.nodes_len());
        assert!(b < g.nodes_len());
    }
}

#[test]
fn edge_enumeration_exactness() {
    let mut g = Graph::new();
    g.add_edge(&s("A"), &s("B"));
    g.add_edge(&s("C"), &s("B"));
    g.add_edge(&s("A"), &s("C"));
    let es = g.edges();
    assert_eq!(es.len(), 3);
    for i in 0..es.len() {
        let (a, b) = es[i];
        assert!(a <= b);
        for j in 0..es.len() {
            if i != j {
                assert_ne!(es[i], es[j]);
                assert_ne!((a, b), (es[j].1, es[j].0));
            }
        }
    }
}

#[test]
fn enumeration_ignores_endpoint_insertion_order() {
    let mut g1 = Graph::new();
    g1.add_edge(&s("A"), &s("B"));
    let mut g2 = Graph::new();
    g2.add_edge(&s("B"), &s("A"));
    assert_eq!(g1.edges().len(), 1);
    assert_eq!(g2.edges().len(), 1);
}

#[test]
fn concrete_scenario() {
    let mut g = Graph::new();
    let hs = g.add_nodes_multiple(vec![s("Maths"), s("Physics"), s("Chemistry")]);
    assert_eq!(hs, vec![0, 1, 2]);
    g.add_edge(&s("Maths"), &s("Physics"));
    g.add_edge(&s("Physics"), &s("Chemistry"));
    assert!(g.has_edge(&s("Maths"), &s("Physics")));
    assert!(!g.has_edge(&s("Maths"), &s("Chemistry")));
    assert_eq!(g.edges().len(), 2);
    let removed = g.remove_node(&s("Physics")).unwrap();
    assert_eq!(removed, s("Physics"));
    assert!(!g.has_edge(&s("Maths"), &s("Physics")));
    assert!(!g.has_edge(&s("Physics"), &s("Chemistry")));
    assert!(!g.has_node(&s("Physics")));
    assert!(g.has_node(&s("Maths")));
    assert!(g.has_node(&s("Chemistry")));
    assert!(!g.has_edge(&s("Maths"), &s("Chemistry")));
    assert!(g.edges().is_empty());
}

#[test]
fn not_found_scenario() {
    let mut g = Graph::new();
    g.add_nodes_multiple(vec![s("A"), s("B")]);
    g.add_edge(&s("A"), &s("B"));
    let nodes_before: Vec<Node> = (0..g.nodes_len()).map(|h| g.node_at(h)).collect();
    let edges_before = g.edges();
    let name_before = g.name().clone();
    let r = g.remove_node(&s("Missing"));
    assert_eq!(r, Err(GraphError::NodeNotFound));
    let nodes_after: Vec<Node> = (0..g.nodes_len()).map(|h| g.node_at(h)).collect();
    assert_eq!(nodes_after, nodes_before);
    assert_eq!(g.edges(), edges_before);
    assert_eq!(g.name(), &name_before);
}

#[test]
fn remove_last_inserted_node() {
    let mut g = Graph::new();
    g.add_nodes_multiple(vec![s("A"), s("B")]);
    g.add_edge(&s("A"), &s("B"));
    g.remove_node(&s("B")).unwrap();
    assert_eq!(g.nodes_len(), 1);
    assert!(g.has_node(&s("A")));
    assert!(g.edges().is_empty());
}

#[test]
fn remove_only_node() {
    let mut g = Graph::new();
    g.add_node(s("A"));
    let removed = g.remove_node(&s("A")).unwrap();
    assert_eq!(removed, s("A"));
    assert_eq!(g.nodes_len(), 0);
    assert!(g.edges().is_empty());
}

#[test]
fn self_loop_recorded_once() {
    let mut g = Graph::new();
    g.add_edge(&s("A"), &s("A"));
    assert!(g.has_edge(&s("A"), &s("A")));
    let es = g.edges();
    assert_eq!(es, vec![(0, 0)]);
    g.add_edge(&s("A"), &s("A"));
    assert_eq!(g.edges().len(), 1);
    g.remove_node(&s("A")).unwrap();
    assert_eq!(g.nodes_len(), 0);
    assert!(g.edges().is_empty());
}

#[test]
fn set_node_attr_on_present_node() {
    let mut g = Graph::new();
    g.add_node(s("A"));
    let r = g.set_node_attr(&s("A"), vec![("colour".to_string(), "red".to_string())]);
    assert_eq!(r, Ok(()));
}

#[test]
fn set_node_attr_on_missing_node() {
    let mut g = Graph::new();
    let r = g.set_node_attr(&s("A"), vec![]);
    assert_eq!(r, Err(GraphError::NodeNotFound));
}

#[test]
fn existing_node_returns_stored_value() {
    let mut g = Graph::new();
    g.add_node(Node::Int(7));
    assert_eq!(g.existing_node(&Node::Int(7)), &Node::Int(7));
    assert_eq!(g.last_node(), &Node::Int(7));
    assert_eq!(g.node_at(0), Node::Int(7));
}

#[test]
fn extract_node_formats_labels() {
    let g = Graph::new();
    assert_eq!(g.extract_node(s("Maths")).as_str(), "Maths");
    assert_eq!(g.extract_node(Node::Int(0)).as_str(), "0");
    assert_eq!(g.extract_node(Node::Int(9)).as_str(), "9");
    assert_eq!(g.extract_node(Node::Int(9007)).as_str(), "9007");
    assert_eq!(g.extract_node(Node::Int(-42)).as_str(), "-42");
    assert_eq!(
        g.extract_node(Node::Int(i64::MIN)).as_str(),
        "-9223372036854775808"
    );
}

#[test]
fn display_string_lists_nodes_then_edges() {
    let mut g = Graph::new();
    g.add_edge(&s("A"), &s("B"));
    assert_eq!(g.to_display_string().as_str(), "{ Nodes: A, B, \nEdges: 0--1, }");
}

#[test]
fn display_string_of_empty_graph() {
    let g = Graph::new();
    assert_eq!(g.to_display_string().as_str(), "{ Nodes: \nEdges: }");
}
