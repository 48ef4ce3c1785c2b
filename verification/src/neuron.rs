//! A neuron: a weighted sum of its inputs plus a bias, squashed or not.

use vstd::prelude::*;
use crate::engine::{made_by, Tape};
use crate::kernel::{Prim, ZERO};
use crate::node::{kept, Op, Rule, Value, ValueInfo};

verus! {

/// Weights, bias, and whether the output goes through the hyperbolic tangent.
#[derive(Debug)]
pub struct Neuron(pub Vec<Value>, pub Value, pub bool);

/// `n` is a leaf at position `id` with the value `data` and the name `label`,
/// as it is when new.
pub open spec fn fresh_leaf(n: ValueInfo, id: int, data: u64, label: Seq<char>) -> bool {
    &&& n.id == id
    &&& n.label@ == label
    &&& n.data == data
    &&& n.grad == ZERO
    &&& n.prev@ == Seq::<Value>::empty()
    &&& n._backward == None::<Rule>
    &&& n.op == None::<Op>
}

/// The smaller of two lengths.
pub open spec fn shorter(a: nat, b: nat) -> nat {
    if a <= b {
        a
    } else {
        b
    }
}

impl Neuron {
    /// The neuron's weights and its bias stand among the first `len` nodes of
    /// a tape.
    pub open spec fn fits(&self, len: nat) -> bool {
        self.1.0 < len && forall|i: int| 0 <= i < self.0@.len() ==> (#[trigger] self.0@[i]).0 < len
    }

    /// The number of nodes by which a call on `inputs` inputs extends the
    /// tape.
    pub open spec fn growth(&self, inputs: nat) -> nat {
        2 * shorter(self.0@.len(), inputs) + 2 + (if self.2 {
            1nat
        } else {
            0nat
        })
    }

    /// The weights and then the bias.
    pub open spec fn params(&self) -> Seq<Value> {
        self.0@.push(self.1)
    }
}

/// `n` is a new leaf at position `id` named `label` whose value `draw`
/// returned.
pub open spec fn drawn_leaf<D: Fn() -> u64>(
    draw: D,
    n: ValueInfo,
    id: int,
    label: Seq<char>,
) -> bool {
    fresh_leaf(n, id, n.data, label) && call_ensures(draw, (), n.data)
}

/// The number of weights of a neuron for `nin` inputs: none where `nin` is
/// negative.
pub open spec fn width(nin: i32) -> nat {
    if nin > 0 {
        nin as nat
    } else {
        0
    }
}

/// `after` is `before` extended by the leaves of the new neuron `neuron` for
/// `nin` inputs: its weights, named "weight", and then its bias, named
/// "bias", each with a value that `draw` returned.
pub open spec fn neuron_made<D: Fn() -> u64>(
    draw: D,
    before: Seq<ValueInfo>,
    after: Seq<ValueInfo>,
    nin: i32,
    nonlin: bool,
    neuron: Neuron,
) -> bool {
    let base = before.len() as int;
    let n = width(nin) as int;
    &&& after.len() == base + n + 1
    &&& kept(before, after)
    &&& neuron.0@.len() == n
    &&& forall|i: int|
        0 <= i < n ==> (#[trigger] neuron.0@[i]).0 == base + i && drawn_leaf(
            draw,
            after[base + i],
            base + i,
            "weight"@,
        )
    &&& neuron.1.0 == base + n
    &&& drawn_leaf(draw, after[base + n], base + n, "bias"@)
    &&& neuron.2 == nonlin
}

/// The nodes at `at + 1` and `at + 2` of `nodes` are the product of `x` and
/// `w` and the sum of the node at `at` and that product, both without a name.
pub open spec fn term_added<K: Fn(Prim) -> u64>(
    k: K,
    nodes: Seq<ValueInfo>,
    at: int,
    x: Value,
    w: Value,
) -> bool {
    &&& made_by(k, nodes.take(at + 1), nodes[at + 1], Rule::Mul, x, w, ""@)
    &&& made_by(
        k,
        nodes.take(at + 2),
        nodes[at + 2],
        Rule::Add,
        Value(at as usize),
        Value((at + 1) as usize),
        ""@,
    )
}

/// `after` is `before` extended by a call of `neuron` on `inputs`, with the
/// result `out`. The new nodes are, in this order: a leaf `0.0`, which starts
/// the sum; for each input that has a weight, the product of input and weight
/// and the sum so far plus that product; the sum plus the bias; and, where the
/// neuron squashes, the hyperbolic tangent of that, named "output". The last
/// of them is `out`.
pub open spec fn neuron_called<K: Fn(Prim) -> u64>(
    k: K,
    before: Seq<ValueInfo>,
    after: Seq<ValueInfo>,
    neuron: Neuron,
    inputs: Seq<Value>,
    out: Value,
) -> bool {
    let base = before.len() as int;
    let n = shorter(neuron.0@.len(), inputs.len()) as int;
    &&& after.len() == base + neuron.growth(inputs.len())
    &&& kept(before, after)
    &&& out.0 == after.len() - 1
    &&& fresh_leaf(after[base], base, ZERO, ""@)
    &&& forall|i: int|
        #![trigger inputs[i]]
        #![trigger neuron.0@[i]]
        0 <= i < n ==> term_added(k, after, base + 2 * i, inputs[i], neuron.0@[i])
    &&& made_by(
        k,
        after.take(base + 2 * n + 1),
        after[base + 2 * n + 1],
        Rule::Add,
        Value((base + 2 * n) as usize),
        neuron.1,
        ""@,
    )
    &&& neuron.2 ==> made_by(
        k,
        after.take(base + 2 * n + 2),
        after[base + 2 * n + 2],
        Rule::Tanh,
        Value((base + 2 * n + 1) as usize),
        Value((base + 2 * n + 1) as usize),
        "output"@,
    )
}

/// What was added to a tape stays as it is when the tape grows.
pub(crate) proof fn lemma_term_added_stays<K: Fn(Prim) -> u64>(
    k: K,
    nodes: Seq<ValueInfo>,
    longer: Seq<ValueInfo>,
    at: int,
    x: Value,
    w: Value,
)
    requires
        0 <= at,
        at + 2 < nodes.len() <= longer.len(),
        kept(nodes, longer),
    ensures
        term_added(k, longer, at, x, w) == term_added(k, nodes, at, x, w),
{
    lemma_take_stays(nodes, longer, at + 1);
    lemma_take_stays(nodes, longer, at + 2);
}

/// The front of a tape stays as it is when the tape grows.
pub(crate) proof fn lemma_take_stays(nodes: Seq<ValueInfo>, longer: Seq<ValueInfo>, at: int)
    requires
        0 <= at <= nodes.len(),
        kept(nodes, longer),
    ensures
        longer.take(at) == nodes.take(at),
{
    assert(longer.take(at) =~= nodes.take(at));
}

/// What fits a tape fits every longer one.
pub(crate) proof fn lemma_fits_longer(neuron: Neuron, len: nat, longer: nat)
    requires
        neuron.fits(len),
        len <= longer,
    ensures
        neuron.fits(longer),
{
}

/// Every front of a tape stays as it is when the tape grows.
pub(crate) proof fn lemma_take_stays_all(nodes: Seq<ValueInfo>, longer: Seq<ValueInfo>)
    requires
        kept(nodes, longer),
    ensures
        forall|at: int| 0 <= at <= nodes.len() ==> #[trigger] longer.take(at) == nodes.take(at),
        longer.take(nodes.len() as int) == nodes,
{
    assert forall|at: int| 0 <= at <= nodes.len() implies #[trigger] longer.take(at) == nodes.take(
        at,
    ) by {
        lemma_take_stays(nodes, longer, at);
    }
    assert(nodes.take(nodes.len() as int) =~= nodes);
}

impl Neuron {
    /// A neuron for `nin` inputs whose weights and bias `draw` supplies, one
    /// call for each, the bias last.
    pub fn new<K: Fn(Prim) -> u64, D: Fn() -> u64>(
        nin: i32,
        nonlin: bool,
        g: &mut Tape<K>,
        draw: &D,
    ) -> (neuron: Neuron)
        requires
            old(g).wf(),
            call_requires(*draw, ()),
        ensures
            final(g).wf(),
            final(g).kernel() == old(g).kernel(),
            neuron.fits(final(g)@.len()),
            neuron_made(*draw, old(g)@, final(g)@, nin, nonlin, neuron),
    {
        let ghost base = g@.len() as int;
        let mut weights: Vec<Value> = Vec::new();
        let mut i: i32 = 0;
        while i < nin
            invariant
                0 <= i,
                i == 0 || i <= nin,
                base == old(g)@.len(),
                g.wf(),
                g.kernel() == old(g).kernel(),
                call_requires(*draw, ()),
                g@.len() == base + i,
                kept(old(g)@, g@),
                weights@.len() == i,
                forall|m: int|
                    0 <= m < i ==> (#[trigger] weights@[m]).0 == base + m && drawn_leaf(
                        *draw,
                        g@[base + m],
                        base + m,
                        "weight"@,
                    ),
            decreases nin - i,
        {
            let ghost s0 = g@;
            let w = Value::new(draw(), "weight", g);
            weights.push(w);
            proof {
                lemma_take_stays_all(s0, g@);
            }
            i += 1;
        }
        let ghost s0 = g@;
        let bias = Value::new(draw(), "bias", g);
        proof {
            lemma_take_stays_all(s0, g@);
        }
        Neuron(weights, bias, nonlin)
    }

    /// A neuron for `nin` inputs that squashes its output.
    pub fn from<K: Fn(Prim) -> u64, D: Fn() -> u64>(nin: i32, g: &mut Tape<K>, draw: &D) -> (neuron:
        Neuron)
        requires
            old(g).wf(),
            call_requires(*draw, ()),
        ensures
            final(g).wf(),
            final(g).kernel() == old(g).kernel(),
            neuron.fits(final(g)@.len()),
            neuron_made(*draw, old(g)@, final(g)@, nin, true, neuron),
    {
        Neuron::new(nin, true, g, draw)
    }
}

impl Neuron {
    /// Calls the neuron on `inputs`: the sum of the products of each input
    /// with its weight, plus the bias, through the hyperbolic tangent where
    /// the neuron squashes. Inputs without a weight and weights without an
    /// input are left out.
    pub fn call<K: Fn(Prim) -> u64>(&self, inputs: &Vec<Value>, g: &mut Tape<K>) -> (out: Value)
        requires
            old(g).wf(),
            self.fits(old(g)@.len()),
            forall|i: int| 0 <= i < inputs@.len() ==> old(g).has(#[trigger] inputs@[i]),
        ensures
            final(g).wf(),
            final(g).kernel() == old(g).kernel(),
            neuron_called(old(g).kernel(), old(g)@, final(g)@, *self, inputs@, out),
    {
        let n = if self.0.len() <= inputs.len() {
            self.0.len()
        } else {
            inputs.len()
        };
        let ghost base = g@.len() as int;
        let ghost k = g.kernel();
        let mut acc = Value::new(ZERO, "", g);
        let mut i: usize = 0;
        while i < n
            invariant
                i <= n,
                n == shorter(self.0@.len(), inputs@.len()),
                base == old(g)@.len(),
                k == old(g).kernel(),
                g.wf(),
                g.kernel() == k,
                g@.len() == base + 1 + 2 * i,
                kept(old(g)@, g@),
                acc.0 == base + 2 * i,
                fresh_leaf(g@[base], base, ZERO, ""@),
                forall|m: int|
                    0 <= m < i ==> #[trigger] term_added(
                        k,
                        g@,
                        base + 2 * m,
                        inputs@[m],
                        self.0@[m],
                    ),
                self.fits(old(g)@.len()),
                forall|m: int| 0 <= m < inputs@.len() ==> old(g).has(#[trigger] inputs@[m]),
            decreases n - i,
        {
            let ghost s0 = g@;
            let x = inputs[i];
            let w = self.0[i];
            let p = x.mul(&w, "", g);
            let ghost s1 = g@;
            acc = acc.add(&p, "", g);
            proof {
                let s2 = g@;
                lemma_take_stays(s1, s2, base);
                lemma_take_stays(s0, s1, base);
                lemma_take_stays(s1, s2, base + 2 * i + 1);
                assert(s1.take(base + 2 * i + 1) == s0);
                assert(s2.take(base + 2 * i + 2) == s1);
                assert(term_added(k, s2, base + 2 * i, inputs@[i as int], self.0@[i as int]));
                assert forall|m: int| 0 <= m < i implies #[trigger] term_added(
                    k,
                    s2,
                    base + 2 * m,
                    inputs@[m],
                    self.0@[m],
                ) by {
                    lemma_term_added_stays(k, s0, s1, base + 2 * m, inputs@[m], self.0@[m]);
                    lemma_term_added_stays(k, s1, s2, base + 2 * m, inputs@[m], self.0@[m]);
                }
            }
            i += 1;
        }
        let ghost s0 = g@;
        let sum = acc.add(&self.1, "", g);
        let ghost s1 = g@;
        proof {
            lemma_take_stays(s0, s1, base);
            assert(s1.take(base + 2 * n + 1) == s0);
            assert forall|m: int| 0 <= m < n implies #[trigger] term_added(
                k,
                s1,
                base + 2 * m,
                inputs@[m],
                self.0@[m],
            ) by {
                lemma_term_added_stays(k, s0, s1, base + 2 * m, inputs@[m], self.0@[m]);
            }
        }
        if self.2 {
            let out = sum._tanh("output", g);
            proof {
                let s2 = g@;
                lemma_take_stays(s1, s2, base);
                lemma_take_stays(s1, s2, base + 2 * n + 1);
                assert(s2.take(base + 2 * n + 2) == s1);
                assert forall|m: int| 0 <= m < n implies #[trigger] term_added(
                    k,
                    s2,
                    base + 2 * m,
                    inputs@[m],
                    self.0@[m],
                ) by {
                    lemma_term_added_stays(k, s1, s2, base + 2 * m, inputs@[m], self.0@[m]);
                }
            }
            out
        } else {
            sum
        }
    }

    /// The nodes that training adjusts: the weights and then the bias.
    pub fn parameters(&self) -> (out: Vec<Value>)
        ensures
            out@ == self.params(),
    {
        let mut out: Vec<Value> = Vec::new();
        let mut i: usize = 0;
        while i < self.0.len()
            invariant
                i <= self.0@.len(),
                out@ == self.0@.take(i as int),
            decreases self.0@.len() - i,
        {
            out.push(self.0[i]);
            proof {
                assert(self.0@.take(i as int).push(self.0@[i as int]) =~= self.0@.take(i + 1));
            }
            i += 1;
        }
        proof {
            assert(self.0@.take(self.0@.len() as int) =~= self.0@);
        }
        out.push(self.1);
        out
    }
}

} // verus!
