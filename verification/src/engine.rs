//! The tape of nodes, the forward operations that extend it, and the
//! backward pass over it.

use vstd::prelude::*;
use crate::kernel::{gives, total, Prim, NEG_ONE, ONE, ZERO};
use crate::node::{
    grads, kept, node_ok, same_graph, well_formed, Op, Rule, Value, ValueInfo,
};
use crate::laws::pass_changes_only_dependencies;
use crate::pass::{lemma_fired_frame, lemma_fired_same_graph};
use crate::order::{
    backward_order, depends_on, is_operand, lemma_backward_order_within, visit, visit_operands,
    within,
};
use crate::rules::{
    accumulated, continued, contributed, fired, forward, local, operand_data, swept,
};

verus! {

/// The nodes of one computation graph, in the order of their creation, and
/// the kernel that does its arithmetic.
pub struct Tape<K> {
    nodes: Vec<ValueInfo>,
    kernel: K,
}

impl<K> View for Tape<K> {
    type V = Seq<ValueInfo>;

    closed spec fn view(&self) -> Seq<ValueInfo> {
        self.nodes@
    }
}

impl<K: Fn(Prim) -> u64> Tape<K> {
    /// The kernel of the tape.
    pub closed spec fn kernel(&self) -> K {
        self.kernel
    }

    /// The graph is well formed and the kernel accepts every primitive.
    pub open spec fn wf(&self) -> bool {
        well_formed(self@) && total(self.kernel())
    }

    /// `v` is a node of this tape.
    pub open spec fn has(&self, v: Value) -> bool {
        v.0 < self@.len()
    }

    /// An empty tape whose arithmetic `kernel` does.
    pub fn new(kernel: K) -> (t: Self)
        requires
            total(kernel),
        ensures
            t.wf(),
            t@.len() == 0,
            t.kernel() == kernel,
    {
        Tape { nodes: Vec::new(), kernel }
    }

    /// The number of nodes.
    pub fn len(&self) -> (n: usize)
        ensures
            n == self@.len(),
    {
        self.nodes.len()
    }

    /// Whether `v` is a node of this tape.
    pub fn contains(&self, v: Value) -> (b: bool)
        ensures
            b == self.has(v),
    {
        v.0 < self.nodes.len()
    }
}

/// The operands of a node that the operation `rule` makes of `a` and `b`.
pub open spec fn operands_of(rule: Rule, a: Value, b: Value) -> Seq<Value> {
    if rule.arity() == 2 {
        seq![a, b]
    } else {
        seq![a]
    }
}

/// `n` is the node that the operation `rule` makes of the nodes `a` and `b`
/// of `nodes` under the name `label`: it is to stand behind them, its value is
/// that of the operation on the values of its operands, and its gradient is
/// `0.0`.
pub open spec fn made_by<K: Fn(Prim) -> u64>(
    k: K,
    nodes: Seq<ValueInfo>,
    n: ValueInfo,
    rule: Rule,
    a: Value,
    b: Value,
    label: Seq<char>,
) -> bool {
    &&& n.id == nodes.len()
    &&& n.label@ == label
    &&& forward(k, rule, nodes[a.0 as int].data, nodes[b.0 as int].data, n.data)
    &&& n.grad == ZERO
    &&& n.prev@ == operands_of(rule, a, b)
    &&& n._backward == Some(rule)
    &&& n.op == rule.tag()
}

/// `after` is `before` with one node more, `out`, which the operation `rule`
/// has made of `a` and `b` under the name `label`. The nodes of `before` are
/// untouched.
pub open spec fn derived<K: Fn(Prim) -> u64>(
    before: Tape<K>,
    after: Tape<K>,
    rule: Rule,
    a: Value,
    b: Value,
    label: Seq<char>,
    out: Value,
) -> bool {
    &&& after.wf()
    &&& after.kernel() == before.kernel()
    &&& after@.len() == before@.len() + 1
    &&& kept(before@, after@)
    &&& out.0 == before@.len()
    &&& made_by(before.kernel(), before@, after@[out.0 as int], rule, a, b, label)
}

impl<K: Fn(Prim) -> u64> Tape<K> {
    /// The value of the operation `rule` on operands with the values `x` and
    /// `y`, as the kernel computes it.
    fn eval(&self, rule: Rule, x: u64, y: u64) -> (out: u64)
        requires
            total(self.kernel()),
        ensures
            forward(self.kernel(), rule, x, y, out),
    {
        let out = match rule {
            Rule::Add => (self.kernel)(Prim::Add(x, y)),
            Rule::Mul => (self.kernel)(Prim::Mul(x, y)),
            Rule::Div => {
                let r = (self.kernel)(Prim::Recip(y));
                let q = (self.kernel)(Prim::Mul(x, r));
                assert(gives(self.kernel(), Prim::Recip(y), r));
                q
            },
            Rule::Pow => (self.kernel)(Prim::Powf(x, y)),
            Rule::Exp => (self.kernel)(Prim::Exp(x)),
            Rule::Tanh => (self.kernel)(Prim::Tanh(x)),
            Rule::Neg => (self.kernel)(Prim::Neg(x)),
        };
        out
    }

    /// Appends the node that the operation `rule` makes of `a` and, where the
    /// operation takes two operands, `b`.
    fn derive(&mut self, rule: Rule, a: Value, b: Value, label: String) -> (out: Value)
        requires
            old(self).wf(),
            old(self).has(a),
            old(self).has(b),
        ensures
            derived(*old(self), *final(self), rule, a, b, label@, out),
    {
        let x = self.nodes[a.0].data;
        let y = self.nodes[b.0].data;
        let data = self.eval(rule, x, y);
        let mut prev: Vec<Value> = Vec::new();
        prev.push(a);
        if rule.is_binary() {
            prev.push(b);
        }
        let id = self.nodes.len();
        self.nodes.push(
            ValueInfo { id, label, data, grad: ZERO, prev, _backward: Some(rule), op: rule.op() },
        );
        proof {
            assert(final(self)@[id as int].prev@ =~= operands_of(rule, a, b));
            assert forall|i: int| 0 <= i < self@.len() implies #[trigger] node_ok(self@, i) by {
                if i < old(self)@.len() {
                    assert(node_ok(old(self)@, i));
                }
            }
        }
        Value(id)
    }
}

/// `visited` marks exactly the nodes on `stack`.
pub open spec fn marks(visited: Seq<bool>, stack: Seq<Value>) -> bool {
    forall|m: usize|
        m < visited.len() ==> (visited[m as int] <==> #[trigger] stack.contains(Value(m)))
}

impl<K: Fn(Prim) -> u64> Tape<K> {
    /// Visits `v`: where it is not yet on `stack`, visits its operands in their
    /// order and then puts `v` on `stack`.
    fn build_topo(&self, v: Value, stack: &mut Vec<Value>, visited: &mut Vec<bool>)
        requires
            well_formed(self@),
            self.has(v),
            old(visited)@.len() == self@.len(),
            marks(old(visited)@, old(stack)@),
        ensures
            final(stack)@ == visit(self@, v, old(stack)@),
            final(visited)@.len() == self@.len(),
            marks(final(visited)@, final(stack)@),
        decreases v.0,
    {
        if visited[v.0] {
            return ;
        }
        assert(node_ok(self@, v.0 as int));
        let n = self.nodes[v.0].prev.len();
        let mut j: usize = 0;
        while j < n
            invariant
                well_formed(self@),
                self.has(v),
                n == self@[v.0 as int].prev@.len(),
                0 <= j <= n,
                visited@.len() == self@.len(),
                marks(visited@, stack@),
                visit_operands(self@, v, j as int, stack@) == visit_operands(
                    self@,
                    v,
                    0,
                    old(stack)@,
                ),
            decreases n - j,
        {
            assert(node_ok(self@, v.0 as int));
            let p = self.nodes[v.0].prev[j];
            self.build_topo(p, stack, visited);
            j += 1;
        }
        let ghost before = stack@;
        visited.set(v.0, true);
        stack.push(v);
        proof {
            assert forall|m: usize| m < visited@.len() implies (visited@[m as int]
                <==> #[trigger] stack@.contains(Value(m))) by {
                if m == v.0 {
                    assert(stack@[before.len() as int] == v);
                } else if before.contains(Value(m)) {
                    let i = choose|i: int| 0 <= i < before.len() && before[i] == Value(m);
                    assert(stack@[i] == Value(m));
                } else if stack@.contains(Value(m)) {
                    let i = choose|i: int| 0 <= i < stack@.len() && stack@[i] == Value(m);
                    assert(i < before.len());
                    assert(before[i] == Value(m));
                }
            }
        }
    }
}

impl<K: Fn(Prim) -> u64> Tape<K> {
    /// The derivative of the value `out` of the operation `rule` with respect
    /// to its operand at position `pos`, where the operands have the values
    /// `x` and `y`.
    fn local(&self, rule: Rule, pos: usize, x: u64, y: u64, out: u64) -> (f: u64)
        requires
            total(self.kernel()),
        ensures
            local(self.kernel(), rule, pos as int, x, y, out, f),
    {
        match rule {
            Rule::Add => ONE,
            Rule::Mul => if pos == 0 {
                y
            } else {
                x
            },
            Rule::Div => if pos == 0 {
                (self.kernel)(Prim::Recip(y))
            } else {
                let s = (self.kernel)(Prim::Mul(y, y));
                let r = (self.kernel)(Prim::Recip(s));
                let q = (self.kernel)(Prim::Mul(x, r));
                let f = (self.kernel)(Prim::Neg(q));
                assert(gives(self.kernel(), Prim::Recip(s), r) && gives(
                    self.kernel(),
                    Prim::Neg(q),
                    f,
                ));
                f
            },
            Rule::Pow => {
                let e = (self.kernel)(Prim::Sub(y, ONE));
                let p = (self.kernel)(Prim::Powf(x, e));
                let f = (self.kernel)(Prim::Mul(y, p));
                assert(gives(self.kernel(), Prim::Powf(x, e), p));
                f
            },
            Rule::Exp => out,
            Rule::Tanh => {
                let s = (self.kernel)(Prim::Mul(out, out));
                let f = (self.kernel)(Prim::Sub(ONE, s));
                assert(gives(self.kernel(), Prim::Mul(out, out), s));
                f
            },
            Rule::Neg => NEG_ONE,
        }
    }

    /// The gradient `acc` of the operand at position `pos` after a node with
    /// the gradient `grad` has handed on its share.
    fn contribute(
        &self,
        rule: Rule,
        pos: usize,
        x: u64,
        y: u64,
        out: u64,
        grad: u64,
        acc: u64,
    ) -> (r: u64)
        requires
            total(self.kernel()),
        ensures
            contributed(self.kernel(), rule, pos as int, x, y, out, grad, acc, r),
    {
        let f = self.local(rule, pos, x, y, out);
        let t = (self.kernel)(Prim::Mul(f, grad));
        let r = (self.kernel)(Prim::Add(acc, t));
        assert(gives(self.kernel(), Prim::Mul(f, grad), t));
        assert(accumulated(self.kernel(), f, grad, acc, r));
        assert(local(self.kernel(), rule, pos as int, x, y, out, f));
        r
    }
}

impl Value {
    /// A new leaf with the value `value` and the name `label`: no operands, no
    /// rule, gradient `0.0`. The nodes already on the tape are untouched.
    pub fn new<K: Fn(Prim) -> u64>(value: u64, label: &str, g: &mut Tape<K>) -> (out: Value)
        requires
            old(g).wf(),
        ensures
            final(g).wf(),
            final(g).kernel() == old(g).kernel(),
            final(g)@.len() == old(g)@.len() + 1,
            kept(old(g)@, final(g)@),
            out.0 == old(g)@.len(),
            final(g)@[out.0 as int].id == out.0,
            final(g)@[out.0 as int].label@ == label@,
            final(g)@[out.0 as int].data == value,
            final(g)@[out.0 as int].grad == ZERO,
            final(g)@[out.0 as int].prev@ == Seq::<Value>::empty(),
            final(g)@[out.0 as int]._backward == None::<Rule>,
            final(g)@[out.0 as int].op == None::<Op>,
    {
        let id = g.nodes.len();
        g.nodes.push(
            ValueInfo {
                id,
                label: label.to_string(),
                data: value,
                grad: ZERO,
                prev: Vec::new(),
                _backward: None,
                op: None,
            },
        );
        proof {
            assert forall|i: int| 0 <= i < g@.len() implies #[trigger] node_ok(g@, i) by {
                if i < old(g)@.len() {
                    assert(node_ok(old(g)@, i));
                }
            }
        }
        Value(id)
    }

    /// What the node holds.
    pub fn borrow<'a, K: Fn(Prim) -> u64>(&self, g: &'a Tape<K>) -> (info: &'a ValueInfo)
        requires
            g.has(*self),
        ensures
            *info == g@[self.0 as int],
    {
        &g.nodes[self.0]
    }

    /// Renames the node.
    pub fn set_label<K: Fn(Prim) -> u64>(&self, label: &str, g: &mut Tape<K>)
        requires
            old(g).wf(),
            old(g).has(*self),
        ensures
            final(g).wf(),
            final(g).kernel() == old(g).kernel(),
            final(g)@.len() == old(g)@.len(),
            forall|i: int|
                0 <= i < old(g)@.len() && i != self.0 ==> final(g)@[i] == old(g)@[i],
            final(g)@[self.0 as int].label@ == label@,
            final(g)@[self.0 as int].id == old(g)@[self.0 as int].id,
            final(g)@[self.0 as int].data == old(g)@[self.0 as int].data,
            final(g)@[self.0 as int].grad == old(g)@[self.0 as int].grad,
            final(g)@[self.0 as int].prev == old(g)@[self.0 as int].prev,
            final(g)@[self.0 as int]._backward == old(g)@[self.0 as int]._backward,
            final(g)@[self.0 as int].op == old(g)@[self.0 as int].op,
    {
        g.nodes[self.0].label = label.to_string();
        proof {
            assert forall|i: int| 0 <= i < g@.len() implies #[trigger] node_ok(g@, i) by {
                assert(node_ok(old(g)@, i));
            }
        }
    }

    /// Overwrites the node's gradient; nothing else changes.
    pub fn set_grad<K: Fn(Prim) -> u64>(&self, grad: u64, g: &mut Tape<K>)
        requires
            old(g).wf(),
            old(g).has(*self),
        ensures
            final(g).wf(),
            final(g).kernel() == old(g).kernel(),
            same_graph(old(g)@, final(g)@),
            grads(final(g)@) == grads(old(g)@).update(self.0 as int, grad),
    {
        g.nodes[self.0].grad = grad;
        proof {
            assert(grads(g@) =~= grads(old(g)@).update(self.0 as int, grad));
            assert forall|i: int| 0 <= i < g@.len() implies #[trigger] node_ok(g@, i) by {
                assert(node_ok(old(g)@, i));
            }
        }
    }

    /// Overwrites the node's value; nothing else changes. The values of the
    /// nodes that were made of this one stay as they were computed.
    pub fn set_data<K: Fn(Prim) -> u64>(&self, data: u64, g: &mut Tape<K>)
        requires
            old(g).wf(),
            old(g).has(*self),
        ensures
            final(g).wf(),
            final(g).kernel() == old(g).kernel(),
            final(g)@.len() == old(g)@.len(),
            forall|i: int|
                0 <= i < old(g)@.len() && i != self.0 ==> final(g)@[i] == old(g)@[i],
            final(g)@[self.0 as int].data == data,
            final(g)@[self.0 as int].id == old(g)@[self.0 as int].id,
            final(g)@[self.0 as int].label == old(g)@[self.0 as int].label,
            final(g)@[self.0 as int].grad == old(g)@[self.0 as int].grad,
            final(g)@[self.0 as int].prev == old(g)@[self.0 as int].prev,
            final(g)@[self.0 as int]._backward == old(g)@[self.0 as int]._backward,
            final(g)@[self.0 as int].op == old(g)@[self.0 as int].op,
    {
        g.nodes[self.0].data = data;
        proof {
            assert forall|i: int| 0 <= i < g@.len() implies #[trigger] node_ok(g@, i) by {
                assert(node_ok(old(g)@, i));
            }
        }
    }

    /// The sum of this node and `other`, as a new node named `label`.
    pub fn add<K: Fn(Prim) -> u64>(&self, other: &Value, label: &str, g: &mut Tape<K>) -> (out:
        Value)
        requires
            old(g).wf(),
            old(g).has(*self),
            old(g).has(*other),
        ensures
            derived(*old(g), *final(g), Rule::Add, *self, *other, label@, out),
    {
        g.derive(Rule::Add, *self, *other, label.to_string())
    }

    /// The product of this node and `other`, as a new node named `label`.
    pub fn mul<K: Fn(Prim) -> u64>(&self, other: &Value, label: &str, g: &mut Tape<K>) -> (out:
        Value)
        requires
            old(g).wf(),
            old(g).has(*self),
            old(g).has(*other),
        ensures
            derived(*old(g), *final(g), Rule::Mul, *self, *other, label@, out),
    {
        g.derive(Rule::Mul, *self, *other, label.to_string())
    }

    /// The quotient of this node by `other`, as a new node named `label`: this
    /// node's value times the reciprocal of the value of `other`.
    pub fn div<K: Fn(Prim) -> u64>(&self, other: &Value, label: &str, g: &mut Tape<K>) -> (out:
        Value)
        requires
            old(g).wf(),
            old(g).has(*self),
            old(g).has(*other),
        ensures
            derived(*old(g), *final(g), Rule::Div, *self, *other, label@, out),
    {
        g.derive(Rule::Div, *self, *other, label.to_string())
    }

    /// This node raised to the power `other`, as a new node named `label`.
    pub fn _pow<K: Fn(Prim) -> u64>(&self, other: &Value, label: &str, g: &mut Tape<K>) -> (out:
        Value)
        requires
            old(g).wf(),
            old(g).has(*self),
            old(g).has(*other),
        ensures
            derived(*old(g), *final(g), Rule::Pow, *self, *other, label@, out),
    {
        g.derive(Rule::Pow, *self, *other, label.to_string())
    }

    /// The exponential of this node, as a new node named `label`.
    pub fn _exp<K: Fn(Prim) -> u64>(&self, label: &str, g: &mut Tape<K>) -> (out: Value)
        requires
            old(g).wf(),
            old(g).has(*self),
        ensures
            derived(*old(g), *final(g), Rule::Exp, *self, *self, label@, out),
    {
        g.derive(Rule::Exp, *self, *self, label.to_string())
    }

    /// The hyperbolic tangent of this node, as a new node named `label`.
    pub fn _tanh<K: Fn(Prim) -> u64>(&self, label: &str, g: &mut Tape<K>) -> (out: Value)
        requires
            old(g).wf(),
            old(g).has(*self),
        ensures
            derived(*old(g), *final(g), Rule::Tanh, *self, *self, label@, out),
    {
        g.derive(Rule::Tanh, *self, *self, label.to_string())
    }

    /// The negation of this node, as a new node that takes over its name.
    pub fn neg<K: Fn(Prim) -> u64>(&self, g: &mut Tape<K>) -> (out: Value)
        requires
            old(g).wf(),
            old(g).has(*self),
        ensures
            derived(
                *old(g),
                *final(g),
                Rule::Neg,
                *self,
                *self,
                old(g)@[self.0 as int].label@,
                out,
            ),
    {
        let label = g.nodes[self.0].label.clone();
        g.derive(Rule::Neg, *self, *self, label)
    }

    /// The difference of this node and `other`: the sum of this node and the
    /// negation of `other`. The tape grows by the negation and then by the
    /// sum, which has no name.
    pub fn sub<K: Fn(Prim) -> u64>(&self, other: &Value, g: &mut Tape<K>) -> (out: Value)
        requires
            old(g).wf(),
            old(g).has(*self),
            old(g).has(*other),
        ensures
            final(g).wf(),
            final(g).kernel() == old(g).kernel(),
            final(g)@.len() == old(g)@.len() + 2,
            kept(old(g)@, final(g)@),
            out.0 == old(g)@.len() + 1,
            made_by(
                old(g).kernel(),
                old(g)@,
                final(g)@[out.0 - 1],
                Rule::Neg,
                *other,
                *other,
                old(g)@[other.0 as int].label@,
            ),
            made_by(
                old(g).kernel(),
                final(g)@.take(out.0 as int),
                final(g)@[out.0 as int],
                Rule::Add,
                *self,
                Value((out.0 - 1) as usize),
                ""@,
            ),
    {
        let minus = other.neg(g);
        let ghost mid = g@;
        let out = self.add(&minus, "", g);
        proof {
            assert(final(g)@.take(out.0 as int) =~= mid);
        }
        out
    }

    /// The order of a backward pass from this node: the nodes that it depends
    /// on, itself first, each before its operands.
    pub fn backward_order<K: Fn(Prim) -> u64>(&self, g: &Tape<K>) -> (order: Vec<Value>)
        requires
            g.wf(),
            g.has(*self),
        ensures
            order@ == backward_order(g@, *self),
    {
        let mut visited: Vec<bool> = Vec::new();
        let mut i: usize = 0;
        while i < g.nodes.len()
            invariant
                i <= g@.len(),
                visited@.len() == i,
                forall|m: int| 0 <= m < i ==> !visited@[m],
            decreases g@.len() - i,
        {
            visited.push(false);
            i += 1;
        }
        let mut stack: Vec<Value> = Vec::new();
        g.build_topo(*self, &mut stack, &mut visited);
        let mut order: Vec<Value> = Vec::new();
        let mut j: usize = stack.len();
        while j > 0
            invariant
                j <= stack@.len(),
                order@.len() == stack@.len() - j,
                forall|m: int| 0 <= m < order@.len() ==> order@[m] == stack@[stack@.len() - 1 - m],
            decreases j,
        {
            j -= 1;
            order.push(stack[j]);
        }
        assert(order@ =~= stack@.reverse());
        order
    }

    /// Applies the node's backward rule once: each receiving operand, in
    /// order, takes its share of this node's gradient on top of the gradient
    /// that it has. A leaf changes nothing.
    pub fn propagate<K: Fn(Prim) -> u64>(&self, g: &mut Tape<K>)
        requires
            old(g).wf(),
            old(g).has(*self),
        ensures
            final(g).wf(),
            final(g).kernel() == old(g).kernel(),
            same_graph(old(g)@, final(g)@),
            fired(old(g).kernel(), old(g)@, *self, grads(old(g)@), grads(final(g)@)),
            forall|i: int|
                0 <= i < old(g)@.len() && !is_operand(old(g)@, *self, Value(i as usize)) ==> (
                #[trigger] final(g)@[i]).grad == old(g)@[i].grad,
    {
        self.fire(g);
        proof {
            lemma_fired_frame(g.kernel(), old(g)@, *self, grads(old(g)@), grads(g@));
            assert forall|i: int|
                0 <= i < old(g)@.len() && !is_operand(
                    old(g)@,
                    *self,
                    Value(i as usize),
                ) implies (#[trigger] g@[i]).grad == old(g)@[i].grad by {
                assert(grads(g@)[i] == grads(old(g)@)[i]);
            }
        }
    }

    /// Applies the node's backward rule once, as `propagate` says.
    fn fire<K: Fn(Prim) -> u64>(&self, g: &mut Tape<K>)
        requires
            old(g).wf(),
            old(g).has(*self),
        ensures
            final(g).wf(),
            final(g).kernel() == old(g).kernel(),
            same_graph(old(g)@, final(g)@),
            fired(old(g).kernel(), old(g)@, *self, grads(old(g)@), grads(final(g)@)),
    {
        proof {
            assert(node_ok(g@, self.0 as int));
            assert(grads(g@) =~= grads(old(g)@));
        }
        let rule = match g.nodes[self.0]._backward {
            None => {
                return ;
            },
            Some(rule) => rule,
        };
        let out = g.nodes[self.0].data;
        let grad = g.nodes[self.0].grad;
        let a = g.nodes[self.0].prev[0];
        let x = g.nodes[a.0].data;
        let both = rule.is_binary();
        let b = if both {
            g.nodes[self.0].prev[1]
        } else {
            a
        };
        let y = if both {
            g.nodes[b.0].data
        } else {
            0
        };
        let ghost pre = grads(g@);
        proof {
            assert(x == operand_data(old(g)@, *self, 0));
            assert(y == operand_data(old(g)@, *self, 1));
            assert(grad == pre[self.0 as int]);
        }
        let r = g.contribute(rule, 0, x, y, out, grad, g.nodes[a.0].grad);
        a.set_grad(r, g);
        if rule.hands_to_both() {
            let s = g.contribute(rule, 1, x, y, out, grad, g.nodes[b.0].grad);
            b.set_grad(s, g);
            proof {
                assert(grads(g@) == pre.update(a.0 as int, r).update(b.0 as int, s));
                assert(contributed(g.kernel(), rule, 0, x, y, out, grad, pre[a.0 as int], r));
                assert(contributed(
                    g.kernel(),
                    rule,
                    1,
                    x,
                    y,
                    out,
                    grad,
                    pre.update(a.0 as int, r)[b.0 as int],
                    s,
                ));
            }
        } else {
            proof {
                assert(grads(g@) == pre.update(a.0 as int, r));
                assert(contributed(g.kernel(), rule, 0, x, y, out, grad, pre[a.0 as int], r));
            }
        }
    }

    /// The backward pass from this node. Its gradient is set to `1.0`; then
    /// the nodes that it depends on apply their backward rules, each before
    /// its operands. Gradients found on the tape are added to, not replaced.
    pub fn backward<K: Fn(Prim) -> u64>(&self, g: &mut Tape<K>)
        requires
            old(g).wf(),
            old(g).has(*self),
        ensures
            final(g).wf(),
            final(g).kernel() == old(g).kernel(),
            same_graph(old(g)@, final(g)@),
            swept(old(g).kernel(), old(g)@, *self, grads(final(g)@)),
            final(g)@[self.0 as int].grad == ONE,
            forall|i: int|
                0 <= i < old(g)@.len() && !depends_on(old(g)@, *self, Value(i as usize)) ==> (
                #[trigger] final(g)@[i]).grad == old(g)@[i].grad,
    {
        let order = self.backward_order(g);
        self.set_grad(ONE, g);
        let ghost seeded = grads(g@);
        let mut i: usize = 0;
        proof {
            lemma_backward_order_within(old(g)@, *self);
        }
        while i < order.len()
            invariant
                i <= order@.len(),
                order@ == backward_order(old(g)@, *self),
                within(old(g)@, order@),
                old(g).wf(),
                g.wf(),
                g.kernel() == old(g).kernel(),
                same_graph(old(g)@, g@),
                continued(old(g).kernel(), old(g)@, order@, 0, i as int, seeded, grads(g@)),
            decreases order@.len() - i,
        {
            let ghost mid = grads(g@);
            let ghost now = g@;
            order[i].propagate(g);
            proof {
                lemma_fired_same_graph(g.kernel(), old(g)@, now, order@[i as int], mid, grads(g@));
                assert(same_graph(old(g)@, g@));
                assert(fired(old(g).kernel(), old(g)@, order@[i + 1 - 1], mid, grads(g@)));
                assert(continued(
                    old(g).kernel(),
                    old(g)@,
                    order@,
                    0,
                    i + 1,
                    seeded,
                    grads(g@),
                ));
            }
            i += 1;
        }
        proof {
            pass_changes_only_dependencies(g.kernel(), old(g)@, *self, grads(g@));
            assert forall|i: int|
                0 <= i < old(g)@.len() && !depends_on(
                    old(g)@,
                    *self,
                    Value(i as usize),
                ) implies (#[trigger] g@[i]).grad == old(g)@[i].grad by {
                assert(grads(g@)[i] == old(g)@[i].grad);
            }
        }
    }
}

} // verus!
