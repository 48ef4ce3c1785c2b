//! The nodes of the computation graph and what makes a graph well formed.

use vstd::prelude::*;

verus! {

/// The tag under which a node is shown: the forward operation that made it.
#[derive(Clone, Copy, Debug, PartialEq, Eq, Structural)]
pub enum Op {
    Add,
    Mul,
    Tanh,
    Exp,
}

/// The rule by which a node hands its gradient on to its operands.
#[derive(Clone, Copy, Debug, PartialEq, Eq, Structural)]
pub enum Rule {
    Add,
    Mul,
    Div,
    Pow,
    Exp,
    Tanh,
    Neg,
}

/// A handle to a node: its position on the tape, which is its identity.
#[derive(Clone, Copy, Debug, PartialEq, Eq, Structural)]
pub struct Value(pub usize);

/// What a node holds.
#[derive(Debug)]
pub struct ValueInfo {
    /// The node's identity: its position on the tape.
    pub id: usize,
    /// A name for the reader; it has no effect on any computation.
    pub label: String,
    /// The node's value.
    pub data: u64,
    /// The gradient accumulated so far.
    pub grad: u64,
    /// The operands, in the order in which the operation took them.
    pub prev: Vec<Value>,
    /// The backward rule; a leaf has none.
    pub _backward: Option<Rule>,
    /// The operation's tag; a leaf, a quotient, a power and a negation have none.
    pub op: Option<Op>,
}

impl Rule {
    /// The number of operands that the operation takes.
    pub open spec fn arity(self) -> nat {
        match self {
            Rule::Add | Rule::Mul | Rule::Div | Rule::Pow => 2,
            Rule::Exp | Rule::Tanh | Rule::Neg => 1,
        }
    }

    /// The number of leading operands that receive a gradient. The exponent of
    /// a power receives none.
    pub open spec fn receivers(self) -> nat {
        match self {
            Rule::Add | Rule::Mul | Rule::Div => 2,
            Rule::Pow | Rule::Exp | Rule::Tanh | Rule::Neg => 1,
        }
    }

    /// The tag of a node that the operation makes.
    pub open spec fn tag(self) -> Option<Op> {
        match self {
            Rule::Add => Some(Op::Add),
            Rule::Mul => Some(Op::Mul),
            Rule::Exp => Some(Op::Exp),
            Rule::Tanh => Some(Op::Tanh),
            Rule::Div | Rule::Pow | Rule::Neg => None,
        }
    }

    /// Whether the operation takes two operands (else it takes one).
    pub fn is_binary(self) -> (b: bool)
        ensures
            b == (self.arity() == 2),
            !b == (self.arity() == 1),
    {
        match self {
            Rule::Add | Rule::Mul | Rule::Div | Rule::Pow => true,
            Rule::Exp | Rule::Tanh | Rule::Neg => false,
        }
    }

    /// Whether both operands receive a gradient (else only the first).
    pub fn hands_to_both(self) -> (b: bool)
        ensures
            b == (self.receivers() == 2),
            !b == (self.receivers() == 1),
    {
        match self {
            Rule::Add | Rule::Mul | Rule::Div => true,
            Rule::Pow | Rule::Exp | Rule::Tanh | Rule::Neg => false,
        }
    }

    /// The tag of a node that the operation makes.
    pub fn op(self) -> (t: Option<Op>)
        ensures
            t == self.tag(),
    {
        match self {
            Rule::Add => Some(Op::Add),
            Rule::Mul => Some(Op::Mul),
            Rule::Exp => Some(Op::Exp),
            Rule::Tanh => Some(Op::Tanh),
            Rule::Div | Rule::Pow | Rule::Neg => None,
        }
    }
}

/// The node at position `i` is sound: it knows its own position, its operands
/// stand before it, and their number and its tag are those of its rule.
pub open spec fn node_ok(nodes: Seq<ValueInfo>, i: int) -> bool {
    let n = nodes[i];
    &&& n.id == i
    &&& forall|j: int| 0 <= j < n.prev@.len() ==> 0 <= (#[trigger] n.prev@[j]).0 < i
    &&& match n._backward {
        None => n.prev@.len() == 0 && n.op.is_none(),
        Some(r) => n.prev@.len() == r.arity() && n.op == r.tag(),
    }
}

/// `v` is a leaf of the graph: a node without a backward rule.
pub open spec fn is_leaf(nodes: Seq<ValueInfo>, v: Value) -> bool {
    v.0 < nodes.len() && nodes[v.0 as int]._backward.is_none()
}

/// Every node is sound. Operands stand before their consumers, so the graph
/// has no cycle.
pub open spec fn well_formed(nodes: Seq<ValueInfo>) -> bool {
    forall|i: int| 0 <= i < nodes.len() ==> #[trigger] node_ok(nodes, i)
}

/// `after` begins with the nodes of `before`, unchanged.
pub open spec fn kept(before: Seq<ValueInfo>, after: Seq<ValueInfo>) -> bool {
    before.len() <= after.len() && forall|i: int|
        0 <= i < before.len() ==> #[trigger] after[i] == before[i]
}

/// The gradients of all nodes, by position.
pub open spec fn grads(nodes: Seq<ValueInfo>) -> Seq<u64> {
    Seq::new(nodes.len(), |i: int| nodes[i].grad)
}

/// `after` holds the nodes of `before` with nothing changed but gradients.
pub open spec fn same_graph(before: Seq<ValueInfo>, after: Seq<ValueInfo>) -> bool {
    &&& after.len() == before.len()
    &&& forall|i: int|
        0 <= i < before.len() ==> {
            &&& (#[trigger] after[i]).id == before[i].id
            &&& after[i].label == before[i].label
            &&& after[i].data == before[i].data
            &&& after[i].prev == before[i].prev
            &&& after[i]._backward == before[i]._backward
            &&& after[i].op == before[i].op
            // By the definition of `grads`; said here so that what is known of
            // the list is known of the node.
            &&& after[i].grad == grads(after)[i]
        }
}

} // verus!
