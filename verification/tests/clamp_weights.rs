use petgraph::stable_graph::StableGraph;
use redpiler::compile_graph::{
    Annotations, CompileGraph, CompileLink, CompileNode, LinkType, NodeState, NodeType,
};
use redpiler::options::CompilerOptions;
use redpiler::passes::clamp_weights::{carries_signal, ClampWeights};

fn wire() -> CompileNode {
    CompileNode {
        ty: NodeType::Wire,
        block: None,
        state: NodeState { powered: false, repeater_locked: false, output_strength: 0 },
        is_input: false,
        is_output: false,
        annotations: Annotations {},
    }
}

fn link(ss: u8) -> CompileLink {
    CompileLink { ty: LinkType::Default, ss }
}

fn weights(graph: &CompileGraph) -> Vec<u8> {
    graph.edge_indices().map(|edge| graph[edge].ss).collect()
}

#[test]
fn links_without_signal_are_removed() {
    let mut graph: CompileGraph = StableGraph::default();
    let a = graph.add_node(wire());
    let b = graph.add_node(wire());
    let kept = graph.add_edge(a, b, link(0));
    graph.add_edge(a, b, link(15));
    let last = graph.add_edge(b, a, link(14));
    graph.add_edge(b, b, link(200));
    ClampWeights.run_pass(&mut graph);
    assert_eq!(weights(&graph), vec![0, 14]);
    assert_eq!(graph.node_count(), 2);
    assert_eq!(graph.edge_endpoints(kept), Some((a, b)));
    assert_eq!(graph.edge_endpoints(last), Some((b, a)));
}

#[test]
fn clamping_again_changes_nothing() {
    let mut graph: CompileGraph = StableGraph::default();
    let a = graph.add_node(wire());
    let b = graph.add_node(wire());
    for ss in 10..20 {
        graph.add_edge(a, b, link(ss));
    }
    ClampWeights.run_pass(&mut graph);
    let once = weights(&graph);
    assert_eq!(once, vec![10, 11, 12, 13, 14]);
    ClampWeights.run_pass(&mut graph);
    assert_eq!(weights(&graph), once);
}

#[test]
fn only_losses_below_fifteen_carry_a_signal() {
    assert!(carries_signal(&link(14)));
    assert!(!carries_signal(&link(15)));
}

#[test]
fn clamping_is_mandatory() {
    assert!(ClampWeights.should_run(&CompilerOptions { export_dot_graph: false }));
    assert!(ClampWeights.should_run(&CompilerOptions { export_dot_graph: true }));
    assert_eq!(ClampWeights.status_message(), "Clamping weights");
}
