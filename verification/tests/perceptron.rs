use micrograd::engine::Tape;
use micrograd::kernel::{Prim, ZERO};
use micrograd::mlp::{Layer, MLP};
use micrograd::neuron::Neuron;
use micrograd::node::{Op, Rule, Value};
use std::cell::Cell;

fn num(bits: u64) -> f64 {
    f64::from_bits(bits)
}

fn bits(x: f64) -> u64 {
    x.to_bits()
}

fn arithmetic(p: Prim) -> u64 {
    let r = match p {
        Prim::Add(x, y) => num(x) + num(y),
        Prim::Sub(x, y) => num(x) - num(y),
        Prim::Mul(x, y) => num(x) * num(y),
        Prim::Neg(x) => -num(x),
        Prim::Recip(x) => num(x).powi(-1),
        Prim::Powf(x, y) => num(x).powf(num(y)),
        Prim::Exp(x) => num(x).exp(),
        Prim::Tanh(x) => num(x).tanh(),
    };
    bits(r)
}

fn data<K: Fn(Prim) -> u64>(v: Value, g: &Tape<K>) -> f64 {
    num(v.borrow(g).data)
}

fn grad<K: Fn(Prim) -> u64>(v: Value, g: &Tape<K>) -> f64 {
    num(v.borrow(g).grad)
}

#[test]
fn new_neuron_draws_weights_then_bias() {
    let mut g = Tape::new(arithmetic);
    let next = Cell::new(0.0f64);
    let draw = || {
        next.set(next.get() + 0.25);
        bits(next.get())
    };
    let n = Neuron::new(3, false, &mut g, &draw);
    assert_eq!(g.len(), 4);
    assert_eq!(n.0, vec![Value(0), Value(1), Value(2)]);
    assert_eq!(n.1, Value(3));
    assert!(!n.2);
    assert_eq!(data(Value(0), &g), 0.25);
    assert_eq!(data(Value(1), &g), 0.5);
    assert_eq!(data(Value(2), &g), 0.75);
    assert_eq!(data(Value(3), &g), 1.0);
    assert_eq!(Value(0).borrow(&g).label, "weight");
    assert_eq!(Value(2).borrow(&g).label, "weight");
    assert_eq!(Value(3).borrow(&g).label, "bias");
    assert_eq!(Value(3).borrow(&g).grad, ZERO);
    assert_eq!(Value(3).borrow(&g)._backward, None);
}

#[test]
fn new_neuron_for_no_or_negative_inputs_has_only_a_bias() {
    let mut g = Tape::new(arithmetic);
    let draw = || bits(0.5);
    let a = Neuron::new(0, true, &mut g, &draw);
    let b = Neuron::new(-4, true, &mut g, &draw);
    assert!(a.0.is_empty());
    assert_eq!(a.1, Value(0));
    assert!(b.0.is_empty());
    assert_eq!(b.1, Value(1));
    assert_eq!(g.len(), 2);
}

#[test]
fn from_makes_a_squashing_neuron() {
    let mut g = Tape::new(arithmetic);
    let draw = || bits(0.5);
    let n = Neuron::from(2, &mut g, &draw);
    assert!(n.2);
    assert_eq!(n.0.len(), 2);
    assert_eq!(n.parameters(), vec![Value(0), Value(1), Value(2)]);
}

#[test]
fn neuron_call_is_a_weighted_sum_plus_bias() {
    let mut g = Tape::new(arithmetic);
    let w0 = Value::new(bits(0.5), "weight", &mut g);
    let w1 = Value::new(bits(-2.0), "weight", &mut g);
    let b = Value::new(bits(0.25), "bias", &mut g);
    let x0 = Value::new(bits(3.0), "x0", &mut g);
    let x1 = Value::new(bits(4.0), "x1", &mut g);
    let n = Neuron(vec![w0, w1], b, false);
    let out = n.call(&vec![x0, x1], &mut g);
    // five nodes before; a zero, two products, two sums, the sum with the bias
    assert_eq!(g.len(), 5 + 6);
    assert_eq!(out, Value(10));
    assert_eq!(data(Value(5), &g), 0.0);
    assert_eq!(Value(5).borrow(&g)._backward, None);
    assert_eq!(Value(6).borrow(&g).prev, vec![x0, w0]);
    assert_eq!(Value(6).borrow(&g)._backward, Some(Rule::Mul));
    assert_eq!(data(Value(6), &g), 1.5);
    assert_eq!(Value(7).borrow(&g).prev, vec![Value(5), Value(6)]);
    assert_eq!(Value(7).borrow(&g).op, Some(Op::Add));
    assert_eq!(Value(8).borrow(&g).prev, vec![x1, w1]);
    assert_eq!(data(Value(8), &g), -8.0);
    assert_eq!(Value(9).borrow(&g).prev, vec![Value(7), Value(8)]);
    assert_eq!(Value(10).borrow(&g).prev, vec![Value(9), b]);
    assert_eq!(data(out, &g), 0.0 + 1.5 + -8.0 + 0.25);
    assert_eq!(out.borrow(&g).label, "");

    out.backward(&mut g);
    assert_eq!(grad(w0, &g), 3.0);
    assert_eq!(grad(w1, &g), 4.0);
    assert_eq!(grad(b, &g), 1.0);
    assert_eq!(grad(x0, &g), 0.5);
    assert_eq!(grad(x1, &g), -2.0);
}

#[test]
fn squashing_neuron_ends_in_a_tanh_named_output() {
    let mut g = Tape::new(arithmetic);
    let w0 = Value::new(bits(0.5), "weight", &mut g);
    let b = Value::new(bits(0.25), "bias", &mut g);
    let x0 = Value::new(bits(3.0), "x0", &mut g);
    let n = Neuron(vec![w0], b, true);
    let out = n.call(&vec![x0], &mut g);
    assert_eq!(g.len(), 3 + 5);
    assert_eq!(out, Value(7));
    assert_eq!(out.borrow(&g).label, "output");
    assert_eq!(out.borrow(&g).op, Some(Op::Tanh));
    assert_eq!(out.borrow(&g).prev, vec![Value(6)]);
    assert_eq!(data(out, &g), 1.75f64.tanh());
}

#[test]
fn neuron_call_leaves_out_what_has_no_partner() {
    let mut g = Tape::new(arithmetic);
    let w0 = Value::new(bits(2.0), "weight", &mut g);
    let w1 = Value::new(bits(5.0), "weight", &mut g);
    let b = Value::new(bits(1.0), "bias", &mut g);
    let x0 = Value::new(bits(3.0), "x0", &mut g);
    let x1 = Value::new(bits(7.0), "x1", &mut g);
    let x2 = Value::new(bits(11.0), "x2", &mut g);
    let wide = Neuron(vec![w0, w1], b, false);
    let few = wide.call(&vec![x0], &mut g);
    assert_eq!(data(few, &g), 7.0);
    let narrow = Neuron(vec![w0], b, false);
    let many = narrow.call(&vec![x0, x1, x2], &mut g);
    assert_eq!(data(many, &g), 7.0);
    let none = wide.call(&vec![], &mut g);
    assert_eq!(data(none, &g), 1.0);
}

#[test]
fn neuron_parameters_are_weights_then_bias() {
    let n = Neuron(vec![Value(4), Value(2)], Value(9), true);
    assert_eq!(n.parameters(), vec![Value(4), Value(2), Value(9)]);
    let lone = Neuron(vec![], Value(1), false);
    assert_eq!(lone.parameters(), vec![Value(1)]);
}

#[test]
fn new_layer_makes_its_neurons_one_after_the_other() {
    let mut g = Tape::new(arithmetic);
    let draw = || bits(0.5);
    let l = Layer::new(2, 3, &mut g, &draw);
    assert_eq!(l.0.len(), 3);
    assert_eq!(g.len(), 9);
    assert_eq!(l.0[0].0, vec![Value(0), Value(1)]);
    assert_eq!(l.0[0].1, Value(2));
    assert_eq!(l.0[1].0, vec![Value(3), Value(4)]);
    assert_eq!(l.0[1].1, Value(5));
    assert_eq!(l.0[2].1, Value(8));
    assert!(l.0.iter().all(|n| n.2));
    assert_eq!(l.parameters(), (0..9).map(Value).collect::<Vec<Value>>());
    let empty = Layer::new(2, -1, &mut g, &draw);
    assert!(empty.0.is_empty());
    assert!(empty.parameters().is_empty());
    assert_eq!(g.len(), 9);
}

#[test]
fn layer_call_calls_each_neuron() {
    let mut g = Tape::new(arithmetic);
    let w = Value::new(bits(2.0), "weight", &mut g);
    let b = Value::new(bits(1.0), "bias", &mut g);
    let v = Value::new(bits(-1.0), "weight", &mut g);
    let c = Value::new(bits(0.5), "bias", &mut g);
    let x = Value::new(bits(3.0), "x", &mut g);
    let l = Layer(vec![Neuron(vec![w], b, false), Neuron(vec![v], c, true)]);
    let outs = l.call(&vec![x], &mut g);
    assert_eq!(outs.len(), 2);
    assert_eq!(g.len(), 5 + 4 + 5);
    assert_eq!(outs, vec![Value(8), Value(13)]);
    assert_eq!(data(outs[0], &g), 7.0);
    assert_eq!(data(outs[1], &g), (-2.5f64).tanh());
    let none = Layer(vec![]).call(&vec![x], &mut g);
    assert!(none.is_empty());
    assert_eq!(g.len(), 14);
}

#[test]
fn new_mlp_sizes_each_layer_by_the_one_before() {
    let mut g = Tape::new(arithmetic);
    let draw = || bits(0.5);
    let m = MLP::new(3, vec![4, 4, 1], &mut g, &draw);
    assert_eq!(m.0.len(), 3);
    assert_eq!(m.0[0].0.len(), 4);
    assert!(m.0[0].0.iter().all(|n| n.0.len() == 3));
    assert_eq!(m.0[1].0.len(), 4);
    assert!(m.0[1].0.iter().all(|n| n.0.len() == 4));
    assert_eq!(m.0[2].0.len(), 1);
    assert_eq!(m.0[2].0[0].0.len(), 4);
    assert_eq!(g.len(), 4 * 4 + 4 * 5 + 5);
    assert_eq!(m.parameters(), (0..41).map(Value).collect::<Vec<Value>>());
    let none = MLP::new(3, vec![], &mut g, &draw);
    assert!(none.0.is_empty());
    assert_eq!(g.len(), 41);
}

#[test]
fn mlp_call_feeds_each_layer_with_the_one_before() {
    let mut g = Tape::new(arithmetic);
    let w = Value::new(bits(2.0), "weight", &mut g);
    let b = Value::new(bits(1.0), "bias", &mut g);
    let v = Value::new(bits(-1.0), "weight", &mut g);
    let c = Value::new(bits(0.5), "bias", &mut g);
    let x = Value::new(bits(3.0), "x", &mut g);
    let m = MLP(vec![
        Layer(vec![Neuron(vec![w], b, false)]),
        Layer(vec![Neuron(vec![v], c, false)]),
    ]);
    let outs = m.call(&vec![x], &mut g);
    assert_eq!(outs.len(), 1);
    assert_eq!(data(outs[0], &g), -(2.0 * 3.0 + 1.0) + 0.5);
    assert_eq!(m.parameters(), vec![w, b, v, c]);
    outs[0].backward(&mut g);
    assert_eq!(grad(x, &g), -2.0);
    assert_eq!(grad(w, &g), -3.0);
    assert_eq!(grad(b, &g), -1.0);
    assert_eq!(grad(v, &g), 7.0);
    assert_eq!(grad(c, &g), 1.0);
}

#[test]
fn mlp_without_layers_returns_its_inputs() {
    let mut g = Tape::new(arithmetic);
    let x = Value::new(bits(3.0), "x", &mut g);
    let y = Value::new(bits(4.0), "y", &mut g);
    let m = MLP(vec![]);
    assert_eq!(m.call(&vec![x, y], &mut g), vec![x, y]);
    assert_eq!(g.len(), 2);
    assert!(m.parameters().is_empty());
}

#[test]
fn a_training_step_lowers_the_loss() {
    let mut g = Tape::new(arithmetic);
    let seed = Cell::new(1u64);
    let draw = || {
        // a small linear congruential generator, mapped to [-1, 1)
        seed.set(seed.get().wrapping_mul(6364136223846793005).wrapping_add(1442695040888963407));
        bits(((seed.get() >> 11) as f64) / ((1u64 << 53) as f64) * 2.0 - 1.0)
    };
    let m = MLP::new(2, vec![3, 1], &mut g, &draw);
    let params = m.parameters();
    let mut losses = Vec::new();
    for _ in 0..20 {
        let x = vec![Value::new(bits(1.0), "x0", &mut g), Value::new(bits(-2.0), "x1", &mut g)];
        let y = Value::new(bits(0.5), "y", &mut g);
        let out = m.call(&x, &mut g)[0];
        let diff = out.sub(&y, &mut g);
        let loss = diff.mul(&diff, "loss", &mut g);
        for p in params.iter() {
            p.set_grad(ZERO, &mut g);
        }
        loss.backward(&mut g);
        for p in params.iter() {
            let step = data(*p, &g) + -0.05 * grad(*p, &g);
            p.set_data(bits(step), &mut g);
        }
        losses.push(data(loss, &g));
    }
    assert!(losses[19] < losses[0]);
    assert!(losses[19] < 1e-3);
}
