use okf::graph::{EdgeKind, GraphEdge, GraphModel, GraphNode, NodeKind};

fn node(key: &str) -> GraphNode {
    GraphNode { key: key.to_string(), label: key.to_string(), kind: NodeKind::Concept, id: None, degree: 0 }
}

fn edge(from: usize, to: usize) -> GraphEdge {
    GraphEdge { from, to, kind: EdgeKind::Link }
}

fn chain() -> GraphModel {
    GraphModel { nodes: vec![node("a"), node("b"), node("c"), node("d")], edges: vec![edge(0, 1), edge(2, 1), edge(2, 3)] }
}

#[test]
fn the_neighborhood_takes_edges_both_ways() {
    let g = chain();
    assert_eq!(g.neighborhood(0, 0), vec![true, false, false, false]);
    assert_eq!(g.neighborhood(0, 1), vec![true, true, false, false]);
    assert_eq!(g.neighborhood(0, 2), vec![true, true, true, false]);
    assert_eq!(g.neighborhood(0, 3), vec![true, true, true, true]);
    assert_eq!(g.neighborhood(9, 3), vec![false, false, false, false]);
}

#[test]
fn an_edge_past_the_nodes_that_the_walk_never_reaches_is_harmless() {
    let mut g = chain();
    g.edges.push(edge(3, 99));
    assert_eq!(g.neighborhood(0, 2), vec![true, true, true, false]);
    assert_eq!(g.neighborhood(3, 0), vec![false, false, false, true]);
}
