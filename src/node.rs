use vstd::prelude::*;

verus! {

/// How a derived node was produced from its operands.
#[derive(Clone, Copy, Debug, PartialEq, Eq, Structural)]
pub enum Operation {
    Add,
    Subtract,
    Multiply,
    Divide,
    Tanh,
}

/// The symbol that names an operation in a rendered graph.
pub open spec fn op_symbol(op: Operation) -> Seq<char> {
    match op {
        Operation::Add => seq!['+'],
        Operation::Subtract => seq!['-'],
        Operation::Multiply => seq!['*'],
        Operation::Divide => seq!['/'],
        Operation::Tanh => seq!['t', 'a', 'n', 'h'],
    }
}

impl Operation {
    pub fn as_str(&self) -> (r: &'static str)
        ensures
            r@ == op_symbol(*self),
    {
        proof {
            reveal_strlit("+");
            reveal_strlit("-");
            reveal_strlit("*");
            reveal_strlit("/");
            reveal_strlit("tanh");
        }
        match *self {
            Operation::Add => "+",
            Operation::Subtract => "-",
            Operation::Multiply => "*",
            Operation::Divide => "/",
            Operation::Tanh => "tanh",
        }
    }
}

/// A single scalar computation unit of a network.
///
/// `V` is the scalar type; the gradient is reserved and stays at `V::default()`.
#[derive(Debug, PartialEq)]
pub struct Node<V> {
    pub value: V,
    pub gradient: V,
    pub operation: Option<Operation>,
    pub label: Option<String>,
}

impl<V: Default> Node<V> {
    /// A leaf node: no operation, no label.
    pub fn new(value: V) -> (r: Self)
        ensures
            r.value == value,
            call_ensures(V::default, (), r.gradient),
            r.operation is None,
            r.label is None,
    {
        Node { value, gradient: V::default(), operation: None, label: None }
    }

    /// A leaf node carrying a label.
    pub fn new_with_label(value: V, label: String) -> (r: Self)
        ensures
            r.value == value,
            call_ensures(V::default, (), r.gradient),
            r.operation is None,
            r.label == Some(label),
    {
        Node { value, gradient: V::default(), operation: None, label: Some(label) }
    }

    /// A derived node: `value` is the result of `operation` on its operands.
    pub fn new_with_operation(value: V, operation: Operation) -> (r: Self)
        ensures
            r.value == value,
            call_ensures(V::default, (), r.gradient),
            r.operation == Some(operation),
            r.label is None,
    {
        Node { value, gradient: V::default(), operation: Some(operation), label: None }
    }
}

impl<V> Node<V> {
    /// Overwrites the label; nothing else changes.
    pub fn set_label(&mut self, label: String)
        ensures
            final(self).label == Some(label),
            final(self).value == old(self).value,
            final(self).gradient == old(self).gradient,
            final(self).operation == old(self).operation,
    {
        self.label = Some(label);
    }
}

} // verus!
