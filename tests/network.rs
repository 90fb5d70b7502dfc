use compgraph::network::{Edge, Network, NetworkError};
use compgraph::node::{Node, Operation};

fn value(network: &Network<f64>, idx: usize) -> f64 {
    *network.value_at(idx).unwrap()
}

#[test]
fn test_arithmetic() {
    let mut network = Network::new();

    let idx_a = network.add_node(Node::new(1.0));
    let idx_b = network.add_node(Node::new(2.0));
    let (a, b) = (value(&network, idx_a), value(&network, idx_b));
    let idx_c = network.add(idx_a, idx_b, a + b).unwrap();
    let idx_d = network.multiply(idx_a, idx_b, a * b).unwrap();
    let idx_e = network.subtract(idx_a, idx_b, a - b).unwrap();
    let idx_f = network.divide(idx_a, idx_b, a / b).unwrap();
    let idx_g = network.tanh(idx_a, a.tanh()).unwrap();

    assert_eq!(network.nodes()[idx_c].value, 3.0);
    assert_eq!(network.nodes()[idx_d].value, 2.0);
    assert_eq!(network.nodes()[idx_e].value, -1.0);
    assert_eq!(network.nodes()[idx_f].value, 0.5);
    assert_eq!(network.nodes()[idx_g].value, 0.7615941559557649);
}

#[test]
fn test_topological_ordering() {
    let mut network = Network::new();

    let idx_a = network.add_node(Node::new(1.0)); // 0
    let idx_b = network.add_node(Node::new(2.0)); // 1
    let idx_c = network.add(idx_a, idx_b, 3.0).unwrap(); // 2
    let idx_d = network.add_node(Node::new(3.0)); // 3
    let idx_e = network.multiply(idx_c, idx_d, 9.0).unwrap(); // 4
    let idx_f = network.tanh(idx_e, 9.0f64.tanh()).unwrap(); // 5

    let topo_order = network.topological_sort();
    assert_eq!(topo_order, vec![idx_f, idx_e, idx_c, idx_a, idx_b, idx_d]);
}

#[test]
fn test_adjacency_storage() {
    let mut network = Network::new();

    let idx_a = network.add_node(Node::new(1.0)); // 0
    let idx_b = network.add_node(Node::new(2.0)); // 1
    let idx_c = network.add_node(Node::new(3.0)); // 2

    let idx_d = network.add(idx_a, idx_b, 3.0).unwrap(); // 3
    let idx_e = network.add(idx_d, idx_c, 6.0).unwrap(); // 4
    let _idx_f = network.multiply(idx_a, idx_e, 6.0).unwrap(); // 5

    network.build_adjacency_storage();

    assert_eq!(
        network.successors().clone().unwrap(),
        vec![vec![3, 5], vec![3], vec![4], vec![4], vec![5], vec![]]
    );
    assert_eq!(
        network.predecessors().clone().unwrap(),
        vec![vec![], vec![], vec![], vec![0, 1], vec![3, 2], vec![0, 4]]
    );
}

#[test]
fn arithmetic_scenario_indices() {
    let mut network = Network::new();
    let a = network.add_node(Node::new_with_label(1.0, "a".to_string()));
    let b = network.add_node(Node::new_with_label(2.0, "b".to_string()));
    assert_eq!((a, b), (0, 1));
    let c = network.add(a, b, 3.0).unwrap();
    assert_eq!(c, 2);
    let d = network.multiply(a, b, 2.0).unwrap();
    assert_eq!(d, 3);
    assert_eq!(network.nodes().len(), 4);
    assert_eq!(network.edges().len(), 4);
    assert_eq!(network.nodes()[c].operation, Some(Operation::Add));
    assert_eq!(network.nodes()[d].operation, Some(Operation::Multiply));
    assert_eq!(network.nodes()[c].label, None);
    assert_eq!(network.nodes()[c].gradient, 0.0);
}

#[test]
fn operations_append_node_and_edges() {
    let mut network = Network::new();
    let a = network.add_node(Node::new(4.0));
    let b = network.add_node(Node::new(2.0));
    let c = network.subtract(a, b, 2.0).unwrap();
    assert_eq!(network.nodes().len(), 3);
    assert_eq!(c, network.nodes().len() - 1);
    assert_eq!(network.edges(), &vec![Edge { from: a, to: c }, Edge { from: b, to: c }]);
    let d = network.tanh(c, 2.0f64.tanh()).unwrap();
    assert_eq!(d, 3);
    assert_eq!(network.edges().len(), 3);
    assert_eq!(network.edges()[2], Edge { from: c, to: d });
    assert_eq!(network.nodes()[d].operation, Some(Operation::Tanh));
}

#[test]
fn divide_by_zero_is_not_an_error() {
    let mut network = Network::new();
    let a = network.add_node(Node::new(1.0));
    let b = network.add_node(Node::new(0.0));
    let q = value(&network, a) / value(&network, b);
    let c = network.divide(a, b, q).unwrap();
    assert!(network.nodes()[c].value.is_infinite());
    assert_eq!(network.nodes()[c].operation, Some(Operation::Divide));
}

#[test]
fn out_of_range_index_is_reported_and_changes_nothing() {
    let mut network = Network::new();
    let a = network.add_node(Node::new(1.0));
    assert_eq!(network.add(a, 5, 0.0), Err(NetworkError::IndexOutOfRange(5)));
    assert_eq!(network.multiply(7, a, 0.0), Err(NetworkError::IndexOutOfRange(7)));
    assert_eq!(network.subtract(8, 9, 0.0), Err(NetworkError::IndexOutOfRange(8)));
    assert_eq!(network.divide(a, 1, 0.0), Err(NetworkError::IndexOutOfRange(1)));
    assert_eq!(network.tanh(3, 0.0), Err(NetworkError::IndexOutOfRange(3)));
    assert_eq!(network.binary_op(Operation::Add, 2, a, 0.0), Err(NetworkError::IndexOutOfRange(2)));
    assert_eq!(network.value_at(1), Err(NetworkError::IndexOutOfRange(1)));
    assert_eq!(network.set_node_label(4, "x".to_string()), Err(NetworkError::IndexOutOfRange(4)));
    assert_eq!(network.nodes().len(), 1);
    assert!(network.edges().is_empty());
    let b = network.add(a, a, 2.0).unwrap();
    assert_eq!(b, 1);
}

#[test]
fn topological_sort_is_deterministic() {
    let build = || {
        let mut network = Network::new();
        let a = network.add_node(Node::new(1.0));
        let b = network.add_node(Node::new(2.0));
        let c = network.add(a, b, 3.0).unwrap();
        let d = network.add_node(Node::new(3.0));
        let e = network.multiply(c, d, 9.0).unwrap();
        network.tanh(e, 1.0).unwrap();
        network
    };
    let first = build();
    let second = build();
    assert_eq!(first.topological_sort(), first.topological_sort());
    assert_eq!(first.topological_sort(), second.topological_sort());
}

#[test]
fn topological_sort_of_leaves_is_ascending() {
    let mut network = Network::new();
    for v in 0..4 {
        network.add_node(Node::new(v as f64));
    }
    assert_eq!(network.topological_sort(), vec![0, 1, 2, 3]);
    let empty: Network<f64> = Network::new();
    assert!(empty.topological_sort().is_empty());
}

#[test]
fn adjacency_round_trip_on_every_edge() {
    let mut network = Network::new();
    let a = network.add_node(Node::new(1.0));
    let b = network.add_node(Node::new(2.0));
    let c = network.multiply(a, b, 2.0).unwrap();
    let d = network.tanh(c, 0.5).unwrap();
    let _e = network.add(d, a, 1.5).unwrap();
    network.build_adjacency_storage();
    let succ = network.successors().clone().unwrap();
    let pred = network.predecessors().clone().unwrap();
    let mut count = 0;
    for edge in network.edges() {
        assert!(succ[edge.from].contains(&edge.to));
        assert!(pred[edge.to].contains(&edge.from));
    }
    for (u, row) in succ.iter().enumerate() {
        count += row.len();
        for v in row {
            assert!(network.edges().contains(&Edge { from: u, to: *v }));
        }
    }
    assert_eq!(count, network.edges().len());
}

#[test]
fn adjacency_is_absent_until_built_and_then_stale() {
    let mut network = Network::new();
    assert!(network.successors().is_none());
    assert!(network.predecessors().is_none());
    let a = network.add_node(Node::new(1.0));
    network.build_adjacency_storage();
    assert_eq!(network.successors().clone().unwrap(), vec![Vec::<usize>::new()]);
    let b = network.tanh(a, 0.5).unwrap();
    assert_eq!(network.successors().clone().unwrap(), vec![Vec::<usize>::new()]);
    network.build_adjacency_storage();
    assert_eq!(network.successors().clone().unwrap(), vec![vec![b], vec![]]);
    assert_eq!(network.predecessors().clone().unwrap(), vec![vec![], vec![a]]);
}

#[test]
fn set_node_label_updates_only_that_node() {
    let mut network = Network::new();
    let a = network.add_node(Node::new(1.0));
    let b = network.add_node(Node::new(2.0));
    network.set_node_label(b, "b".to_string()).unwrap();
    assert_eq!(network.nodes()[b].label, Some("b".to_string()));
    assert_eq!(network.nodes()[b].value, 2.0);
    assert_eq!(network.nodes()[a].label, None);
}
