use compgraph::node::{Node, Operation};

#[test]
fn new() {
    let node = Node::new(1.0);

    assert_eq!(node.value, 1.0);
    assert_eq!(node.operation, None);
    assert_eq!(node.label, None);
}

#[test]
fn new_with_label() {
    let node = Node::new_with_label(1.0, "Test Node".to_string());

    assert_eq!(node.value, 1.0);
    assert_eq!(node.operation, None);
    assert_eq!(node.label, Some("Test Node".to_string()));
}

#[test]
fn new_with_operation() {
    let node = Node::new_with_operation(1.0, Operation::Add);

    assert_eq!(node.value, 1.0);
    assert_eq!(node.operation, Some(Operation::Add));
    assert_eq!(node.label, None);
}

#[test]
fn set_label() {
    let mut node = Node::new(1.0);

    node.set_label("Test Node".to_string());

    assert_eq!(node.label, Some("Test Node".to_string()));
}

#[test]
fn gradient_starts_at_zero() {
    let node = Node::new_with_operation(-3.5, Operation::Divide);
    assert_eq!(node.gradient, 0.0);
    let mut node = Node::new_with_label(2.0, "x".to_string());
    node.set_label("y".to_string());
    assert_eq!(node.value, 2.0);
    assert_eq!(node.gradient, 0.0);
}

#[test]
fn operation_symbols() {
    assert_eq!(Operation::Add.as_str(), "+");
    assert_eq!(Operation::Subtract.as_str(), "-");
    assert_eq!(Operation::Multiply.as_str(), "*");
    assert_eq!(Operation::Divide.as_str(), "/");
    assert_eq!(Operation::Tanh.as_str(), "tanh");
}
