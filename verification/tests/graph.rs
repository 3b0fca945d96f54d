use audio_engine::data_types::{PlaybackContext, TypeInfo};
use audio_engine::graph::buffers::InputBinding;
use audio_engine::graph::error::GraphError;
use audio_engine::graph::node_id::NodeID;
use audio_engine::graph::{Graph, InputSource};
use audio_engine::node::builtin::{AudioOutputNode, SAMPLE_SIZE};
use audio_engine::node::{Node, NodePorts};

/// The ports of a node whose inputs and outputs all have a type.
fn ports(inputs: Vec<TypeInfo>, outputs: Vec<TypeInfo>) -> NodePorts {
    NodePorts::new(inputs.into_iter().map(Some).collect(), outputs.into_iter().map(Some).collect())
}

fn small() -> TypeInfo {
    TypeInfo::new(4, 4)
}

fn sample() -> TypeInfo {
    TypeInfo::new(SAMPLE_SIZE, 4)
}

/// An input node with one small output, and the audio output node.
fn new_graph() -> Graph<NodePorts> {
    Graph::new(ports(vec![], vec![small()]), ports(vec![sample()], vec![]))
}

fn ctx(buffer_size: usize) -> PlaybackContext {
    PlaybackContext { sample_rate: 48000, buffer_size, channels: 2 }
}

#[test]
fn new_graph_has_input_and_output_nodes() {
    let graph = new_graph();
    assert_eq!(graph.get_input_id(), NodeID(0));
    assert_eq!(graph.get_output_id(), NodeID(1));
    assert_eq!(graph.get_node_map().len(), 2);
    assert!(graph.get_node(&NodeID(0)).is_some());
    assert!(graph.get_node(&NodeID(1)).is_some());
    assert!(graph.get_node(&NodeID(2)).is_none());
    assert!(graph.get_all_edges().is_empty());
    assert_eq!(graph.get_node(&NodeID(1)).unwrap().get_input_type(0), Some(&sample()));
}

#[test]
fn nodes_are_refreshed_when_added() {
    let graph = Graph::new(AudioOutputNode::new(), AudioOutputNode::new());
    assert_eq!(graph.get_node(&NodeID(1)).unwrap().get_input_type(0), Some(&sample()));
}

#[test]
fn ports_keep_their_types_when_added() {
    let mut graph = new_graph();
    let a = graph.add_node(NodePorts::new(vec![None, Some(small())], vec![Some(sample())]));
    let node = graph.get_node(&a).unwrap();
    assert_eq!(node.get_input_len(), 2);
    assert_eq!(node.get_input_type(0), None);
    assert_eq!(node.get_input_type(1), Some(&small()));
    assert_eq!(node.get_input_type(2), None);
    assert_eq!(node.get_output_type(0), Some(&sample()));
    assert_eq!(node.get_output_len(), 1);
}

#[test]
fn added_nodes_get_fresh_ids() {
    let mut graph = new_graph();
    let a = graph.add_node(ports(vec![small()], vec![small()]));
    let b = graph.add_node(ports(vec![small()], vec![small()]));
    assert_eq!(a, NodeID(2));
    assert_eq!(b, NodeID(3));
    assert_eq!(graph.get_node_map().len(), 4);
}

#[test]
fn add_node_with_id_replaces_the_node() {
    let mut graph = new_graph();
    graph.add_node_with_id(NodeID(7), ports(vec![], vec![]));
    graph.add_node_with_id(NodeID(7), ports(vec![small()], vec![]));
    assert_eq!(graph.get_node_map().len(), 3);
    assert_eq!(graph.get_node(&NodeID(7)).unwrap().get_input_len(), 1);
    graph.set_next_node_id(8);
    assert_eq!(graph.add_node(ports(vec![], vec![])), NodeID(8));
}

#[test]
fn add_edge_checks_the_output_then_the_input_then_the_types() {
    let mut graph = new_graph();
    let a = graph.add_node(ports(vec![small()], vec![sample()]));
    assert_eq!(graph.add_edge((NodeID(9), 0), (a, 0)), Err(GraphError::OutputTypeUnavailable(NodeID(9), 0)));
    assert_eq!(graph.add_edge((NodeID(0), 1), (a, 0)), Err(GraphError::OutputTypeUnavailable(NodeID(0), 1)));
    assert_eq!(graph.add_edge((NodeID(0), 0), (a, 1)), Err(GraphError::InputTypeUnavailable(a, 1)));
    assert_eq!(
        graph.add_edge((NodeID(0), 0), (NodeID(1), 0)),
        Err(GraphError::NodeTypeMismatch((NodeID(0), 0, NodeID(1), 0)))
    );
    assert!(graph.get_all_edges().is_empty());
    assert_eq!(graph.add_edge((NodeID(0), 0), (a, 0)), Ok(()));
    assert_eq!(graph.add_edge((a, 0), (NodeID(1), 0)), Ok(()));
    let mut edges = graph.get_all_edges();
    edges.sort();
    assert_eq!(edges, vec![(NodeID(0), 0, a, 0), (a, 0, NodeID(1), 0)]);
    assert_eq!(graph.get_input_source(&(a, 0)), Some(InputSource::Edge(NodeID(0), 0)));
}

#[test]
fn add_edge_overwrites_the_source_of_the_input() {
    let mut graph = new_graph();
    let a = graph.add_node(ports(vec![], vec![small()]));
    let b = graph.add_node(ports(vec![small()], vec![]));
    assert_eq!(graph.add_edge((NodeID(0), 0), (b, 0)), Ok(()));
    assert_eq!(graph.add_edge((a, 0), (b, 0)), Ok(()));
    assert_eq!(graph.get_all_edges(), vec![(a, 0, b, 0)]);
}

#[test]
fn remove_edge_undoes_add_edge() {
    let mut graph = new_graph();
    let a = graph.add_node(ports(vec![small()], vec![]));
    let before = graph.get_input_sources().clone();
    assert_eq!(graph.add_edge((NodeID(0), 0), (a, 0)), Ok(()));
    graph.remove_edge(&(a, 0));
    assert_eq!(graph.get_input_sources(), &before);
    assert_eq!(graph.get_input_source(&(a, 0)), None);
}

#[test]
fn remove_node_removes_its_edges() {
    let mut graph = new_graph();
    let a = graph.add_node(ports(vec![small()], vec![sample()]));
    let b = graph.add_node(ports(vec![small()], vec![]));
    assert_eq!(graph.add_edge((NodeID(0), 0), (a, 0)), Ok(()));
    assert_eq!(graph.add_edge((a, 0), (NodeID(1), 0)), Ok(()));
    assert_eq!(graph.add_edge((NodeID(0), 0), (b, 0)), Ok(()));
    graph.remove_node(&a);
    assert!(graph.get_node(&a).is_none());
    assert_eq!(graph.get_all_edges(), vec![(NodeID(0), 0, b, 0)]);
}

#[test]
fn sort_puts_every_node_after_its_sources() {
    let mut graph = new_graph();
    let a = graph.add_node(ports(vec![small()], vec![small()]));
    let b = graph.add_node(ports(vec![small()], vec![small()]));
    let c = graph.add_node(ports(vec![small()], vec![sample()]));
    // c reads b, b reads a, a reads the input node, the output reads c
    assert_eq!(graph.add_edge((c, 0), (NodeID(1), 0)), Ok(()));
    assert_eq!(graph.add_edge((b, 0), (c, 0)), Ok(()));
    assert_eq!(graph.add_edge((a, 0), (b, 0)), Ok(()));
    assert_eq!(graph.add_edge((NodeID(0), 0), (a, 0)), Ok(()));
    assert_eq!(graph.sort_graph(), Ok(()));
    assert_eq!(graph.get_sorted_nodes(), &vec![a, b, c]);
}

#[test]
fn sort_keeps_unconnected_nodes() {
    let mut graph = new_graph();
    let a = graph.add_node(ports(vec![], vec![]));
    assert_eq!(graph.sort_graph(), Ok(()));
    assert_eq!(graph.get_sorted_nodes(), &vec![a]);
}

#[test]
fn sort_reports_a_cycle() {
    let mut graph = new_graph();
    let a = graph.add_node(ports(vec![small()], vec![small()]));
    let b = graph.add_node(ports(vec![small()], vec![small()]));
    assert_eq!(graph.add_edge((a, 0), (b, 0)), Ok(()));
    assert_eq!(graph.add_edge((b, 0), (a, 0)), Ok(()));
    match graph.sort_graph() {
        Err(GraphError::NodeCycle(n)) => assert!(n == a || n == b),
        other => panic!("expected a cycle, got {:?}", other),
    }
    assert!(graph.get_sorted_nodes().is_empty());
}

#[test]
fn prepare_plans_every_buffer() {
    let mut graph = new_graph();
    let a = graph.add_node(ports(vec![small(), small()], vec![sample()]));
    assert_eq!(graph.add_edge((NodeID(0), 0), (a, 0)), Ok(()));
    assert_eq!(graph.add_edge((a, 0), (NodeID(1), 0)), Ok(()));
    graph.set_input_source((a, 1), InputSource::Keyframe);
    let plan = graph.prepare(&ctx(8)).unwrap();
    let mut outputs = plan.output_buffers.clone();
    outputs.sort();
    assert_eq!(outputs, vec![((NodeID(0), 0), 32), ((a, 0), SAMPLE_SIZE * 8)]);
    // The largest input buffer is the one of the output node
    assert_eq!(plan.zero_buffer_size, SAMPLE_SIZE * 8);
    assert_eq!(
        plan.node_inputs,
        vec![
            (a, vec![InputBinding::Output(NodeID(0), 0), InputBinding::Keyframe(32)]),
            (NodeID(1), vec![InputBinding::Output(a, 0)]),
        ]
    );
}

#[test]
fn prepare_binds_unconnected_inputs_to_zeros() {
    let mut graph = Graph::new(
        ports(vec![], vec![]),
        ports(vec![TypeInfo::new(1, 1)], vec![]),
    );
    let plan = graph.prepare(&ctx(2)).unwrap();
    assert!(plan.output_buffers.is_empty());
    // The zero buffer holds at least 4 bytes
    assert_eq!(plan.zero_buffer_size, 4);
    assert_eq!(plan.node_inputs, vec![(NodeID(1), vec![InputBinding::Zero])]);
}

#[test]
fn prepare_reports_an_edge_from_an_output_without_buffer() {
    let mut graph = new_graph();
    let a = graph.add_node(ports(vec![small()], vec![]));
    // The output node runs last, so nothing may read from it
    graph.add_edge_unchecked((NodeID(1), 0), (a, 0));
    assert_eq!(graph.prepare(&ctx(8)).err(), Some(GraphError::OutputBufferNotFound(NodeID(1), 0)));
}

#[test]
fn prepare_reports_an_input_without_type() {
    let mut graph = new_graph();
    let a = graph.add_node(NodePorts::new(vec![Some(small()), None], vec![]));
    assert_eq!(graph.prepare(&ctx(8)).err(), Some(GraphError::InputTypeUnavailable(a, 1)));
}

#[test]
fn prepare_reports_a_cycle_first() {
    let mut graph = new_graph();
    let a = graph.add_node(ports(vec![small()], vec![small()]));
    graph.add_edge_unchecked((a, 0), (a, 0));
    assert_eq!(graph.prepare(&ctx(8)).err(), Some(GraphError::NodeCycle(a)));
}

#[test]
fn prepare_reports_an_output_without_type() {
    let mut graph = new_graph();
    let a = graph.add_node(NodePorts::new(vec![], vec![Some(small()), None]));
    assert_eq!(graph.prepare(&ctx(8)).err(), Some(GraphError::OutputTypeUnavailable(a, 1)));
}

#[test]
fn the_output_node_gets_no_output_buffers() {
    let mut graph = Graph::new(
        ports(vec![], vec![small()]),
        ports(vec![small()], vec![small()]),
    );
    assert_eq!(graph.add_edge((NodeID(0), 0), (NodeID(1), 0)), Ok(()));
    let plan = graph.prepare(&ctx(4)).unwrap();
    assert_eq!(plan.output_buffers, vec![((NodeID(0), 0), 16)]);
    assert_eq!(plan.node_inputs, vec![(NodeID(1), vec![InputBinding::Output(NodeID(0), 0)])]);
    assert_eq!(plan.zero_buffer_size, 16);
}

#[test]
fn inputs_read_outputs_written_earlier_in_the_block() {
    let mut graph = new_graph();
    let a = graph.add_node(ports(vec![small()], vec![small()]));
    let b = graph.add_node(ports(vec![small(), small()], vec![small()]));
    let c = graph.add_node(ports(vec![small(), small()], vec![sample()]));
    assert_eq!(graph.add_edge((c, 0), (NodeID(1), 0)), Ok(()));
    assert_eq!(graph.add_edge((b, 0), (c, 0)), Ok(()));
    assert_eq!(graph.add_edge((a, 0), (c, 1)), Ok(()));
    assert_eq!(graph.add_edge((a, 0), (b, 0)), Ok(()));
    assert_eq!(graph.add_edge((NodeID(0), 0), (b, 1)), Ok(()));
    assert_eq!(graph.add_edge((NodeID(0), 0), (a, 0)), Ok(()));
    let plan = graph.prepare(&ctx(16)).unwrap();
    let order = graph.get_sorted_nodes().clone();
    assert_eq!(order, vec![a, b, c]);
    for (j, (_, bindings)) in plan.node_inputs.iter().enumerate() {
        for binding in bindings {
            if let InputBinding::Output(from, _) = binding {
                assert!(*from == NodeID(0) || order[..j].contains(from));
            }
        }
    }
}

#[test]
fn node_map_can_be_changed_in_place() {
    let mut graph = new_graph();
    let a = graph.add_node(ports(vec![], vec![]));
    for (id, node) in graph.get_node_map_mut().iter_mut() {
        if *id == a {
            *node = ports(vec![small(), small()], vec![]);
        }
    }
    assert_eq!(graph.get_node(&a).unwrap().get_input_len(), 2);
    assert_eq!(graph.get_node_map().len(), 3);
}

#[test]
fn add_node_never_takes_an_id_in_use() {
    let mut graph = new_graph();
    graph.set_next_node_id(0);
    let a = graph.add_node(ports(vec![], vec![]));
    // Ids 0 and 1 belong to the input and output nodes
    assert_eq!(a, NodeID(2));
    assert_eq!(graph.get_node_map().len(), 3);
    assert_eq!(graph.get_node(&NodeID(0)).unwrap().get_output_len(), 1);
    graph.add_node_with_id(NodeID(3), ports(vec![], vec![]));
    assert_eq!(graph.add_node(ports(vec![], vec![])), NodeID(4));
}

#[test]
fn prepare_reports_a_cycle_before_any_missing_input() {
    let mut graph = new_graph();
    let a = graph.add_node(ports(vec![small()], vec![small()]));
    let b = graph.add_node(ports(vec![small()], vec![small()]));
    assert_eq!(graph.add_edge((a, 0), (b, 0)), Ok(()));
    assert_eq!(graph.add_edge((b, 0), (a, 0)), Ok(()));
    // An edge from a buffered output into an input slot that b does not have
    graph.add_edge_unchecked((a, 0), (b, 5));
    match graph.prepare(&ctx(8)).err() {
        Some(GraphError::NodeCycle(n)) => assert!(n == a || n == b),
        other => panic!("expected a cycle, got {:?}", other),
    }
}

#[test]
fn prepare_reports_a_cycle_before_any_oversized_buffer() {
    let mut graph = new_graph();
    let a = graph.add_node(ports(vec![TypeInfo::new(usize::MAX, 1)], vec![TypeInfo::new(usize::MAX, 1)]));
    graph.add_edge_unchecked((a, 0), (a, 0));
    assert_eq!(graph.prepare(&ctx(8)).err(), Some(GraphError::NodeCycle(a)));
}
