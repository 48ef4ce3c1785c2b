//! Layers of neurons, and perceptrons made of layers.

use vstd::prelude::*;
use crate::engine::Tape;
use crate::kernel::Prim;
use crate::neuron::{
    lemma_fits_longer, lemma_take_stays_all, neuron_called, neuron_made, width, Neuron,
};
use crate::node::{kept, Value, ValueInfo};

verus! {

/// Neurons that all take the same inputs.
pub struct Layer(pub Vec<Neuron>);

/// A multilayer perceptron: each layer takes the outputs of the one before.
pub struct MLP(pub Vec<Layer>);

/// The number of nodes by which calls of `neurons` on `inputs` inputs extend
/// the tape.
pub open spec fn layer_growth(neurons: Seq<Neuron>, inputs: nat) -> nat
    decreases neurons.len(),
{
    if neurons.len() == 0 {
        0
    } else {
        layer_growth(neurons.drop_last(), inputs) + neurons.last().growth(inputs)
    }
}

/// The parameters of `neurons`, neuron by neuron.
pub open spec fn layer_params(neurons: Seq<Neuron>) -> Seq<Value>
    decreases neurons.len(),
{
    if neurons.len() == 0 {
        Seq::empty()
    } else {
        layer_params(neurons.drop_last()) + neurons.last().params()
    }
}

/// The parameters of `layers`, layer by layer.
pub open spec fn mlp_params(layers: Seq<Layer>) -> Seq<Value>
    decreases layers.len(),
{
    if layers.len() == 0 {
        Seq::empty()
    } else {
        mlp_params(layers.drop_last()) + layer_params(layers.last().0@)
    }
}

/// The part of `after` that the call of the neuron at position `j` of
/// `neurons` has added, the calls of the neurons before it having started at
/// position `base`, is that of a call on `inputs` with the result `out`.
pub open spec fn nth_called<K: Fn(Prim) -> u64>(
    k: K,
    base: nat,
    after: Seq<ValueInfo>,
    neurons: Seq<Neuron>,
    inputs: Seq<Value>,
    j: int,
    out: Value,
) -> bool {
    neuron_called(
        k,
        after.take((base + layer_growth(neurons.take(j), inputs.len())) as int),
        after.take((base + layer_growth(neurons.take(j + 1), inputs.len())) as int),
        neurons[j],
        inputs,
        out,
    )
}

/// `after` is `before` extended by calls of `neurons`, one after the other,
/// each on `inputs`; `outs` holds their results in the same order.
pub open spec fn layer_called<K: Fn(Prim) -> u64>(
    k: K,
    before: Seq<ValueInfo>,
    after: Seq<ValueInfo>,
    neurons: Seq<Neuron>,
    inputs: Seq<Value>,
    outs: Seq<Value>,
) -> bool {
    let base = before.len();
    &&& outs.len() == neurons.len()
    &&& after.len() == base + layer_growth(neurons, inputs.len())
    &&& kept(before, after)
    &&& forall|j: int|
        0 <= j < neurons.len() ==> nth_called(
            k,
            base,
            after,
            neurons,
            inputs,
            j,
            #[trigger] outs[j],
        )
}

/// `after` is `before` extended by calls of `layers`, one after the other,
/// the first on `inputs` and each other on the results of the one before;
/// `outs` holds the results of the last, or `inputs` where there is no layer.
pub open spec fn mlp_called<K: Fn(Prim) -> u64>(
    k: K,
    before: Seq<ValueInfo>,
    after: Seq<ValueInfo>,
    layers: Seq<Layer>,
    inputs: Seq<Value>,
    outs: Seq<Value>,
) -> bool
    decreases layers.len(),
{
    if layers.len() == 0 {
        after == before && outs == inputs
    } else {
        exists|mid: Seq<ValueInfo>, hidden: Seq<Value>|
            #![trigger layer_called(k, mid, after, layers.last().0@, hidden, outs)]
            mlp_called(k, before, mid, layers.drop_last(), inputs, hidden) && layer_called(
                k,
                mid,
                after,
                layers.last().0@,
                hidden,
                outs,
            )
    }
}

/// `after` is `before` extended by the leaves of the new neurons `neurons`:
/// as many as `nout` says (none where it is negative), each a squashing neuron
/// for `nin` inputs, one after the other.
pub open spec fn layer_made<D: Fn() -> u64>(
    draw: D,
    before: Seq<ValueInfo>,
    after: Seq<ValueInfo>,
    nin: i32,
    nout: i32,
    neurons: Seq<Neuron>,
) -> bool {
    let base = before.len();
    let step = width(nin) + 1;
    &&& neurons.len() == width(nout)
    &&& after.len() == base + width(nout) * step
    &&& kept(before, after)
    &&& forall|j: int|
        0 <= j < neurons.len() ==> neuron_made(
            draw,
            after.take(base + j * step),
            after.take(base + (j + 1) * step),
            nin,
            true,
            #[trigger] neurons[j],
        )
}

/// The number of inputs of the last layer of a perceptron with `nin` inputs
/// whose layers have the sizes `nouts`.
pub open spec fn fan_in(nin: i32, nouts: Seq<i32>) -> i32 {
    if nouts.len() <= 1 {
        nin
    } else {
        nouts[nouts.len() - 2]
    }
}

/// `after` is `before` extended by the leaves of the new layers `layers`, one
/// layer for each entry of `nouts`, of that size, one after the other. The
/// first layer is for `nin` inputs, each other for as many as the layer
/// before has neurons.
pub open spec fn mlp_made<D: Fn() -> u64>(
    draw: D,
    before: Seq<ValueInfo>,
    after: Seq<ValueInfo>,
    nin: i32,
    nouts: Seq<i32>,
    layers: Seq<Layer>,
) -> bool
    decreases nouts.len(),
{
    if nouts.len() == 0 {
        after == before && layers.len() == 0
    } else {
        layers.len() == nouts.len() && exists|mid: Seq<ValueInfo>|
            #![trigger layer_made(
                draw,
                mid,
                after,
                fan_in(nin, nouts),
                nouts.last(),
                layers.last().0@,
            )]
            mlp_made(draw, before, mid, nin, nouts.drop_last(), layers.drop_last()) && layer_made(
                draw,
                mid,
                after,
                fan_in(nin, nouts),
                nouts.last(),
                layers.last().0@,
            )
    }
}

impl Layer {
    /// The parameters of the layer stand among the first `len` nodes of a
    /// tape.
    pub open spec fn fits(&self, len: nat) -> bool {
        forall|j: int| 0 <= j < self.0@.len() ==> (#[trigger] self.0@[j]).fits(len)
    }
}

impl MLP {
    /// The parameters of the perceptron stand among the first `len` nodes
    /// of a tape.
    pub open spec fn fits(&self, len: nat) -> bool {
        forall|i: int| 0 <= i < self.0@.len() ==> (#[trigger] self.0@[i]).fits(len)
    }
}

/// What fits a tape fits every longer one.
pub(crate) proof fn lemma_layer_fits_longer(layer: Layer, len: nat, longer: nat)
    requires
        layer.fits(len),
        len <= longer,
    ensures
        layer.fits(longer),
{
    assert forall|j: int| 0 <= j < layer.0@.len() implies (#[trigger] layer.0@[j]).fits(longer) by {
        lemma_fits_longer(layer.0@[j], len, longer);
    }
}

/// The growth of a layer without its last neuron, and with it.
pub(crate) proof fn lemma_layer_growth_step(neurons: Seq<Neuron>, j: int, inputs: nat)
    requires
        0 <= j < neurons.len(),
    ensures
        layer_growth(neurons.take(j + 1), inputs) == layer_growth(neurons.take(j), inputs)
            + neurons[j].growth(inputs),
{
    assert(neurons.take(j + 1).drop_last() =~= neurons.take(j));
    assert(neurons.take(j + 1).last() == neurons[j]);
}

/// The growth of the first neurons of a layer is at most that of all.
pub(crate) proof fn lemma_layer_growth_grows(neurons: Seq<Neuron>, i: int, j: int, inputs: nat)
    requires
        0 <= i <= j <= neurons.len(),
    ensures
        layer_growth(neurons.take(i), inputs) <= layer_growth(neurons.take(j), inputs),
    decreases j - i,
{
    if i < j {
        lemma_layer_growth_step(neurons, j - 1, inputs);
        lemma_layer_growth_grows(neurons, i, j - 1, inputs);
    }
}

impl Layer {
    /// A layer of `nout` squashing neurons for `nin` inputs each, whose
    /// weights and biases `draw` supplies.
    pub fn new<K: Fn(Prim) -> u64, D: Fn() -> u64>(
        nin: i32,
        nout: i32,
        g: &mut Tape<K>,
        draw: &D,
    ) -> (layer: Layer)
        requires
            old(g).wf(),
            call_requires(*draw, ()),
        ensures
            final(g).wf(),
            final(g).kernel() == old(g).kernel(),
            layer.fits(final(g)@.len()),
            layer_made(*draw, old(g)@, final(g)@, nin, nout, layer.0@),
    {
        let ghost base = g@.len();
        let ghost step = width(nin) + 1;
        let mut neurons: Vec<Neuron> = Vec::new();
        let mut j: i32 = 0;
        proof {
        }
        while j < nout
            invariant
                0 <= j,
                j == 0 || j <= nout,
                base == old(g)@.len(),
                step == width(nin) + 1,
                g.wf(),
                g.kernel() == old(g).kernel(),
                call_requires(*draw, ()),
                neurons@.len() == j,
                g@.len() == base + j * step,
                kept(old(g)@, g@),
                forall|m: int| 0 <= m < j ==> (#[trigger] neurons@[m]).fits(g@.len()),
                forall|m: int|
                    0 <= m < j ==> neuron_made(
                        *draw,
                        g@.take(base + m * step),
                        g@.take(base + (m + 1) * step),
                        nin,
                        true,
                        #[trigger] neurons@[m],
                    ),
            decreases nout - j,
        {
            let ghost s0 = g@;
            let ghost made = neurons@;
            let neuron = Neuron::new(nin, true, g, draw);
            neurons.push(neuron);
            proof {
                let s1 = g@;
                assert((j + 1) * step == j * step + step) by (nonlinear_arith);
                lemma_take_stays_all(s0, s1);
                assert(s1.take(s1.len() as int) =~= s1);
                assert forall|m: int| 0 <= m < j + 1 implies neuron_made(
                    *draw,
                    s1.take(base + m * step),
                    s1.take(base + (m + 1) * step),
                    nin,
                    true,
                    #[trigger] neurons@[m],
                ) by {
                    if m < j {
                        assert(neurons@[m] == made[m]);
                        assert((m + 1) * step <= j * step) by (nonlinear_arith)
                            requires
                                m + 1 <= j,
                                step >= 0,
                        ;
                        assert(m * step <= (m + 1) * step) by (nonlinear_arith)
                            requires
                                step >= 0,
                        ;
                        assert(0 <= m * step) by (nonlinear_arith)
                            requires
                                0 <= m,
                                step >= 0,
                        ;
                    }
                }
                assert forall|m: int| 0 <= m < j + 1 implies (#[trigger] neurons@[m]).fits(
                    s1.len(),
                ) by {
                    if m < j {
                        assert(neurons@[m] == made[m]);
                        lemma_fits_longer(made[m], s0.len(), s1.len());
                    }
                }
            }
            j += 1;
        }
        Layer(neurons)
    }
}

impl MLP {
    /// A perceptron for `nin` inputs with one layer for each entry of
    /// `nouts`, of that size, whose weights and biases `draw` supplies.
    pub fn new<K: Fn(Prim) -> u64, D: Fn() -> u64>(
        nin: i32,
        nouts: Vec<i32>,
        g: &mut Tape<K>,
        draw: &D,
    ) -> (mlp: MLP)
        requires
            old(g).wf(),
            call_requires(*draw, ()),
        ensures
            final(g).wf(),
            final(g).kernel() == old(g).kernel(),
            mlp.fits(final(g)@.len()),
            mlp_made(*draw, old(g)@, final(g)@, nin, nouts@, mlp.0@),
    {
        let mut layers: Vec<Layer> = Vec::new();
        let mut prev_nout = nin;
        let mut i: usize = 0;
        proof {
            assert(nouts@.take(0) =~= Seq::<i32>::empty());
        }
        while i < nouts.len()
            invariant
                i <= nouts@.len(),
                g.wf(),
                g.kernel() == old(g).kernel(),
                call_requires(*draw, ()),
                layers@.len() == i,
                prev_nout == (if i == 0 {
                    nin
                } else {
                    nouts@[i - 1]
                }),
                forall|m: int| 0 <= m < i ==> (#[trigger] layers@[m]).fits(g@.len()),
                mlp_made(*draw, old(g)@, g@, nin, nouts@.take(i as int), layers@),
            decreases nouts@.len() - i,
        {
            let ghost s0 = g@;
            let ghost made = layers@;
            let ghost fan = prev_nout;
            let nout = nouts[i];
            let layer = Layer::new(prev_nout, nout, g, draw);
            layers.push(layer);
            prev_nout = nout;
            proof {
                let part = nouts@.take(i + 1);
                assert(part.drop_last() =~= nouts@.take(i as int));
                assert(part.last() == nout);
                assert(fan_in(nin, part) == fan);
                assert(layers@.drop_last() =~= made);
                assert(mlp_made(*draw, old(g)@, s0, nin, part.drop_last(), layers@.drop_last()));
                assert(layer_made(*draw, s0, g@, fan, nout, layers@.last().0@));
                assert(mlp_made(*draw, old(g)@, g@, nin, part, layers@));
                assert forall|m: int| 0 <= m < i + 1 implies (#[trigger] layers@[m]).fits(
                    g@.len(),
                ) by {
                    if m < i {
                        assert(layers@[m] == made[m]);
                        lemma_layer_fits_longer(made[m], s0.len(), g@.len());
                    }
                }
            }
            i += 1;
        }
        proof {
            assert(nouts@.take(nouts@.len() as int) =~= nouts@);
        }
        MLP(layers)
    }
}

/// The calls of the first `j` neurons of a layer stay as they are when the
/// tape grows behind them and more results are recorded.
pub(crate) proof fn lemma_nth_called_stays<K: Fn(Prim) -> u64>(
    k: K,
    base: nat,
    nodes: Seq<ValueInfo>,
    longer: Seq<ValueInfo>,
    neurons: Seq<Neuron>,
    inputs: Seq<Value>,
    m: int,
    j: int,
    out: Value,
)
    requires
        0 <= m < j <= neurons.len(),
        nodes.len() == base + layer_growth(neurons.take(j), inputs.len()),
        nodes.len() <= longer.len(),
        kept(nodes, longer),
        nth_called(k, base, nodes, neurons, inputs, m, out),
    ensures
        nth_called(k, base, longer, neurons, inputs, m, out),
{
    lemma_layer_growth_grows(neurons, m + 1, j, inputs.len());
    lemma_layer_growth_grows(neurons, m, m + 1, inputs.len());
    lemma_take_stays_all(nodes, longer);
}

impl Layer {
    /// Calls every neuron of the layer on `inputs`, in order.
    pub fn call<K: Fn(Prim) -> u64>(&self, inputs: &Vec<Value>, g: &mut Tape<K>) -> (outs: Vec<
        Value,
    >)
        requires
            old(g).wf(),
            self.fits(old(g)@.len()),
            forall|i: int| 0 <= i < inputs@.len() ==> old(g).has(#[trigger] inputs@[i]),
        ensures
            final(g).wf(),
            final(g).kernel() == old(g).kernel(),
            final(g)@.len() >= old(g)@.len(),
            forall|j: int| 0 <= j < outs@.len() ==> final(g).has(#[trigger] outs@[j]),
            layer_called(old(g).kernel(), old(g)@, final(g)@, self.0@, inputs@, outs@),
    {
        let ghost base = g@.len();
        let ghost k = g.kernel();
        let mut outs: Vec<Value> = Vec::new();
        let mut j: usize = 0;
        proof {
            assert(self.0@.take(0) =~= Seq::<Neuron>::empty());
        }
        while j < self.0.len()
            invariant
                j <= self.0@.len(),
                base == old(g)@.len(),
                k == old(g).kernel(),
                g.wf(),
                g.kernel() == k,
                outs@.len() == j,
                g@.len() == base + layer_growth(self.0@.take(j as int), inputs@.len()),
                kept(old(g)@, g@),
                forall|m: int| 0 <= m < j ==> g.has(#[trigger] outs@[m]),
                forall|m: int|
                    0 <= m < j ==> nth_called(
                        k,
                        base,
                        g@,
                        self.0@,
                        inputs@,
                        m,
                        #[trigger] outs@[m],
                    ),
                self.fits(g@.len()),
                forall|m: int| 0 <= m < inputs@.len() ==> g.has(#[trigger] inputs@[m]),
            decreases self.0@.len() - j,
        {
            let ghost s0 = g@;
            let ghost outs0 = outs@;
            assert(self.0@[j as int].fits(g@.len()));
            let out = self.0[j].call(inputs, g);
            outs.push(out);
            proof {
                let s1 = g@;
                lemma_layer_growth_step(self.0@, j as int, inputs@.len());
                lemma_take_stays_all(s0, s1);
                assert(s1.take(s1.len() as int) =~= s1);
                assert(s1.take(s0.len() as int) =~= s0);
                assert(nth_called(k, base, s1, self.0@, inputs@, j as int, out));
                assert forall|m: int| 0 <= m < j + 1 implies nth_called(
                    k,
                    base,
                    s1,
                    self.0@,
                    inputs@,
                    m,
                    #[trigger] outs@[m],
                ) by {
                    if m < j {
                        assert(outs@[m] == outs0[m]);
                        lemma_nth_called_stays(
                            k,
                            base,
                            s0,
                            s1,
                            self.0@,
                            inputs@,
                            m,
                            j as int,
                            outs0[m],
                        );
                    }
                }
                assert forall|m: int| 0 <= m < j + 1 implies g.has(#[trigger] outs@[m]) by {
                    if m < j {
                        assert(outs@[m] == outs0[m]);
                    }
                }
                lemma_layer_fits_longer(*self, s0.len(), s1.len());
            }
            j += 1;
        }
        proof {
            assert(self.0@.take(self.0@.len() as int) =~= self.0@);
        }
        outs
    }

    /// The nodes that training adjusts: the parameters of the neurons, neuron
    /// by neuron.
    pub fn parameters(&self) -> (out: Vec<Value>)
        ensures
            out@ == layer_params(self.0@),
    {
        let mut out: Vec<Value> = Vec::new();
        let mut j: usize = 0;
        proof {
            assert(self.0@.take(0) =~= Seq::<Neuron>::empty());
        }
        while j < self.0.len()
            invariant
                j <= self.0@.len(),
                out@ == layer_params(self.0@.take(j as int)),
            decreases self.0@.len() - j,
        {
            let mut part = self.0[j].parameters();
            let ghost before = out@;
            let ghost added = part@;
            out.append(&mut part);
            proof {
                assert(self.0@.take(j + 1).drop_last() =~= self.0@.take(j as int));
                assert(self.0@.take(j + 1).last() == self.0@[j as int]);
                assert(out@ == before + added);
            }
            j += 1;
        }
        proof {
            assert(self.0@.take(self.0@.len() as int) =~= self.0@);
        }
        out
    }
}

/// What fits a tape fits every longer one.
pub(crate) proof fn lemma_mlp_fits_longer(mlp: MLP, len: nat, longer: nat)
    requires
        mlp.fits(len),
        len <= longer,
    ensures
        mlp.fits(longer),
{
    assert forall|i: int| 0 <= i < mlp.0@.len() implies (#[trigger] mlp.0@[i]).fits(longer) by {
        lemma_layer_fits_longer(mlp.0@[i], len, longer);
    }
}

impl MLP {
    /// Calls the layers in order, the first on `inputs` and each other on the
    /// results of the one before, and returns the results of the last.
    pub fn call<K: Fn(Prim) -> u64>(&self, inputs: &Vec<Value>, g: &mut Tape<K>) -> (outs: Vec<
        Value,
    >)
        requires
            old(g).wf(),
            self.fits(old(g)@.len()),
            forall|i: int| 0 <= i < inputs@.len() ==> old(g).has(#[trigger] inputs@[i]),
        ensures
            final(g).wf(),
            final(g).kernel() == old(g).kernel(),
            final(g)@.len() >= old(g)@.len(),
            forall|j: int| 0 <= j < outs@.len() ==> final(g).has(#[trigger] outs@[j]),
            mlp_called(old(g).kernel(), old(g)@, final(g)@, self.0@, inputs@, outs@),
    {
        let ghost k = g.kernel();
        let mut outputs: Vec<Value> = Vec::new();
        let mut c: usize = 0;
        while c < inputs.len()
            invariant
                c <= inputs@.len(),
                outputs@ == inputs@.take(c as int),
            decreases inputs@.len() - c,
        {
            outputs.push(inputs[c]);
            proof {
                assert(inputs@.take(c as int).push(inputs@[c as int]) =~= inputs@.take(c + 1));
            }
            c += 1;
        }
        proof {
            assert(inputs@.take(inputs@.len() as int) =~= inputs@);
            assert(self.0@.take(0) =~= Seq::<Layer>::empty());
        }
        let mut i: usize = 0;
        while i < self.0.len()
            invariant
                i <= self.0@.len(),
                k == old(g).kernel(),
                g.wf(),
                g.kernel() == k,
                g@.len() >= old(g)@.len(),
                self.fits(g@.len()),
                forall|m: int| 0 <= m < outputs@.len() ==> g.has(#[trigger] outputs@[m]),
                mlp_called(k, old(g)@, g@, self.0@.take(i as int), inputs@, outputs@),
            decreases self.0@.len() - i,
        {
            let ghost s0 = g@;
            let ghost hidden = outputs@;
            assert(self.0@[i as int].fits(g@.len()));
            outputs = self.0[i].call(&outputs, g);
            proof {
                let part = self.0@.take(i + 1);
                assert(part.drop_last() =~= self.0@.take(i as int));
                assert(part.last() == self.0@[i as int]);
                assert(layer_called(k, s0, g@, part.last().0@, hidden, outputs@));
                assert(mlp_called(k, old(g)@, g@, part, inputs@, outputs@));
                lemma_mlp_fits_longer(*self, s0.len(), g@.len());
            }
            i += 1;
        }
        proof {
            assert(self.0@.take(self.0@.len() as int) =~= self.0@);
        }
        outputs
    }

    /// The nodes that training adjusts: the parameters of the layers, layer
    /// by layer.
    pub fn parameters(&self) -> (out: Vec<Value>)
        ensures
            out@ == mlp_params(self.0@),
    {
        let mut out: Vec<Value> = Vec::new();
        let mut i: usize = 0;
        proof {
            assert(self.0@.take(0) =~= Seq::<Layer>::empty());
        }
        while i < self.0.len()
            invariant
                i <= self.0@.len(),
                out@ == mlp_params(self.0@.take(i as int)),
            decreases self.0@.len() - i,
        {
            let mut part = self.0[i].parameters();
            let ghost before = out@;
            let ghost added = part@;
            out.append(&mut part);
            proof {
                assert(self.0@.take(i + 1).drop_last() =~= self.0@.take(i as int));
                assert(self.0@.take(i + 1).last() == self.0@[i as int]);
                assert(out@ == before + added);
            }
            i += 1;
        }
        proof {
            assert(self.0@.take(self.0@.len() as int) =~= self.0@);
        }
        out
    }
}

} // verus!
