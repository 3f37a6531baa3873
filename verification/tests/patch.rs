use symbios_audio::float::F32;
use symbios_audio::node::NodeKind;
use symbios_audio::patch::{
    is_before, topo_sort, Connection, GraphError, GraphNode, NodeGraph, NodeId,
};

fn v(x: f32) -> F32 {
    F32::of(x.to_bits())
}

fn n(x: F32) -> f32 {
    f32::from_bits(x.bits)
}


fn silence(id: u32) -> GraphNode {
    GraphNode { id: NodeId(id), kind: NodeKind::Silence, inputs: Vec::new() }
}

fn silence_with(id: u32, inputs: &[(&str, Connection)]) -> GraphNode {
    let mut node = silence(id);
    for (port, conn) in inputs {
        node = node.with_input(port, *conn);
    }
    node
}

fn from(id: u32) -> Connection {
    Connection::from_node(NodeId(id))
}

#[test]
fn topo_sort_single_node() {
    let g = NodeGraph { nodes: vec![silence(0)], output: NodeId(0) };
    let order = topo_sort(&g).unwrap();
    assert_eq!(order, vec![NodeId(0)]);
}

#[test]
fn topo_sort_linear_chain() {
    let g = NodeGraph {
        nodes: vec![
            silence(0),
            silence_with(1, &[("in", from(0))]),
            silence_with(2, &[("in", from(1))]),
        ],
        output: NodeId(2),
    };
    let order = topo_sort(&g).unwrap();
    assert_eq!(order, vec![NodeId(0), NodeId(1), NodeId(2)]);
}

#[test]
fn topo_sort_diamond() {
    let g = NodeGraph {
        nodes: vec![
            silence(0),
            silence_with(1, &[("in", from(0))]),
            silence_with(2, &[("in", from(0))]),
            silence_with(3, &[("a", from(1)), ("b", from(2))]),
        ],
        output: NodeId(3),
    };
    let order = topo_sort(&g).unwrap();
    assert_eq!(order, vec![NodeId(0), NodeId(1), NodeId(2), NodeId(3)]);
}

#[test]
fn topo_sort_detects_cycle() {
    let g = NodeGraph {
        nodes: vec![silence_with(0, &[("in", from(1))]), silence_with(1, &[("in", from(0))])],
        output: NodeId(0),
    };
    assert_eq!(topo_sort(&g), Err(GraphError::Cycle));
}

#[test]
fn topo_sort_detects_unknown_node() {
    let g = NodeGraph { nodes: vec![silence_with(0, &[("in", from(99))])], output: NodeId(0) };
    assert_eq!(topo_sort(&g), Err(GraphError::UnknownNode(NodeId(99))));
}

#[test]
fn topo_sort_detects_missing_output() {
    let g = NodeGraph { nodes: vec![silence(0)], output: NodeId(5) };
    assert_eq!(topo_sort(&g), Err(GraphError::MissingOutput(NodeId(5))));
}

#[test]
fn topo_sort_detects_duplicate_id() {
    let g = NodeGraph { nodes: vec![silence(0), silence(0)], output: NodeId(0) };
    assert_eq!(topo_sort(&g), Err(GraphError::DuplicateId(NodeId(0))));
}

#[test]
fn multiple_connections_per_port_are_retained() {
    let node = GraphNode::default()
        .with_input("in", from(0))
        .with_input("in", Connection::constant(v(0.5)));
    assert_eq!(node.inputs.len(), 1);
    assert_eq!(node.inputs[0].name, "in");
    assert_eq!(node.inputs[0].connections.len(), 2);
    let back = node.clone();
    assert_eq!(back.inputs[0].connections.len(), 2);
    assert_eq!(back, node);
}

#[test]
fn the_lowest_ready_node_goes_first_wherever_it_stands() {
    let g = NodeGraph {
        nodes: vec![
            silence_with(9, &[("a", from(7)), ("b", from(3))]),
            silence(7),
            silence_with(5, &[("in", from(3))]),
            silence(3),
        ],
        output: NodeId(9),
    };
    // Node 5 waits for node 3 alone, and is lower than node 7.
    let order = topo_sort(&g).unwrap();
    assert_eq!(order, vec![NodeId(3), NodeId(5), NodeId(7), NodeId(9)]);

    let g = NodeGraph {
        nodes: vec![silence(0), silence(5), silence_with(1, &[("in", from(0))])],
        output: NodeId(5),
    };
    assert_eq!(topo_sort(&g).unwrap(), vec![NodeId(0), NodeId(1), NodeId(5)]);
}

#[test]
fn a_node_may_read_one_source_more_than_once() {
    let g = NodeGraph {
        nodes: vec![silence_with(1, &[("a", from(4)), ("a", from(4)), ("b", from(4))]), silence(4)],
        output: NodeId(1),
    };
    assert_eq!(topo_sort(&g).unwrap(), vec![NodeId(4), NodeId(1)]);
}

#[test]
fn a_node_that_reads_itself_is_a_cycle() {
    let g = NodeGraph { nodes: vec![silence_with(2, &[("in", from(2))])], output: NodeId(2) };
    assert_eq!(topo_sort(&g), Err(GraphError::Cycle));
}

#[test]
fn a_cycle_outside_the_output_is_still_a_cycle() {
    let g = NodeGraph {
        nodes: vec![
            silence(0),
            silence_with(1, &[("in", from(2))]),
            silence_with(2, &[("in", from(1))]),
        ],
        output: NodeId(0),
    };
    assert_eq!(topo_sort(&g), Err(GraphError::Cycle));
}

#[test]
fn ports_stay_in_the_order_of_their_names() {
    let node = silence(0)
        .with_input("gate", Connection::constant(v(1.0)))
        .with_input("amplitude", Connection::constant(v(2.0)))
        .with_input("in", from(3))
        .with_input("gate", Connection::modulation(NodeId(4), v(0.5)));
    let names: Vec<&str> = node.inputs.iter().map(|p| p.name.as_str()).collect();
    assert_eq!(names, vec!["amplitude", "gate", "in"]);
    assert_eq!(
        node.inputs[1].connections,
        vec![
            Connection::Constant { value: v(1.0) },
            Connection::Node { id: NodeId(4), amount: v(0.5) },
        ]
    );
    for (a, b) in [("", "a"), ("a", "ab"), ("ab", "b"), ("z", "é"), ("é", "☃"), ("b", "ab")] {
        assert_eq!(is_before(a, b), a < b);
        assert_eq!(is_before(b, a), b < a);
        assert!(!is_before(a, a));
    }
}

#[test]
fn errors_come_in_their_order() {
    // A repeated id is found first, a missing output next, and an unknown
    // source before a cycle.
    let g = NodeGraph {
        nodes: vec![silence_with(0, &[("in", from(8))]), silence(0)],
        output: NodeId(5),
    };
    assert_eq!(topo_sort(&g), Err(GraphError::DuplicateId(NodeId(0))));
    let g = NodeGraph { nodes: vec![silence_with(0, &[("in", from(8))])], output: NodeId(5) };
    assert_eq!(topo_sort(&g), Err(GraphError::MissingOutput(NodeId(5))));
    let g = NodeGraph {
        nodes: vec![silence_with(0, &[("in", from(0)), ("on", from(8))])],
        output: NodeId(0),
    };
    assert_eq!(topo_sort(&g), Err(GraphError::UnknownNode(NodeId(8))));
}

#[test]
fn the_order_depends_on_ids_and_edges_alone() {
    let a = NodeGraph {
        nodes: vec![
            silence_with(4, &[("in", from(2)), ("gain", from(9))]),
            silence(2),
            silence_with(9, &[("in", from(2))]),
        ],
        output: NodeId(4),
    };
    let b = NodeGraph {
        nodes: vec![
            silence_with(9, &[("a", from(2)), ("b", from(2))]),
            silence_with(4, &[("x", Connection::constant(v(3.0))), ("y", from(9)), ("z", from(2))]),
            silence(2),
        ],
        output: NodeId(4),
    };
    assert_eq!(topo_sort(&a).unwrap(), vec![NodeId(2), NodeId(9), NodeId(4)]);
    assert_eq!(topo_sort(&a), topo_sort(&b));
}
