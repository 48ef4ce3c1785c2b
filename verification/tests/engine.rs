use micrograd::engine::Tape;
use micrograd::kernel::{Prim, NEG_ONE, ONE, ZERO};
use micrograd::node::{Op, Rule, Value};

fn num(bits: u64) -> f64 {
    f64::from_bits(bits)
}

fn bits(x: f64) -> u64 {
    x.to_bits()
}

fn arithmetic(p: Prim) -> u64 {
    let r = match p {
        Prim::Add(x, y) => num(x) + num(y),
        Prim::Sub(x, y) => num(x) - num(y),
        Prim::Mul(x, y) => num(x) * num(y),
        Prim::Neg(x) => -num(x),
        Prim::Recip(x) => num(x).powi(-1),
        Prim::Powf(x, y) => num(x).powf(num(y)),
        Prim::Exp(x) => num(x).exp(),
        Prim::Tanh(x) => num(x).tanh(),
    };
    bits(r)
}

fn data<K: Fn(Prim) -> u64>(v: Value, g: &Tape<K>) -> f64 {
    num(v.borrow(g).data)
}

fn grad<K: Fn(Prim) -> u64>(v: Value, g: &Tape<K>) -> f64 {
    num(v.borrow(g).grad)
}

fn close(x: f64, y: f64) -> bool {
    (x - y).abs() <= 1e-12 * (1.0 + x.abs().max(y.abs()))
}

#[test]
fn constants_are_the_bit_patterns_of_the_numbers() {
    assert_eq!(ZERO, bits(0.0));
    assert_eq!(ONE, bits(1.0));
    assert_eq!(NEG_ONE, bits(-1.0));
}

#[test]
fn leaf_holds_what_it_was_given() {
    let mut g = Tape::new(arithmetic);
    let a = Value::new(bits(2.5), "a", &mut g);
    let info = a.borrow(&g);
    assert_eq!(info.id, 0);
    assert_eq!(info.label, "a");
    assert_eq!(num(info.data), 2.5);
    assert_eq!(info.grad, ZERO);
    assert!(info.prev.is_empty());
    assert_eq!(info._backward, None);
    assert_eq!(info.op, None);
    assert_eq!(g.len(), 1);
}

#[test]
fn handles_are_positions_and_compare_by_identity() {
    let mut g = Tape::new(arithmetic);
    let a = Value::new(bits(1.0), "a", &mut g);
    let b = Value::new(bits(1.0), "b", &mut g);
    assert_eq!(a, Value(0));
    assert_eq!(b, Value(1));
    assert_ne!(a, b);
    assert!(g.contains(a));
    assert!(g.contains(b));
    assert!(!g.contains(Value(2)));
    assert_eq!(g.len(), 2);
}

#[test]
fn empty_tape_has_no_nodes() {
    let g = Tape::new(arithmetic);
    assert_eq!(g.len(), 0);
    assert!(!g.contains(Value(0)));
}

#[test]
fn add_and_mul_compute_their_values() {
    let mut g = Tape::new(arithmetic);
    let a = Value::new(bits(1.5), "a", &mut g);
    let b = Value::new(bits(-4.0), "b", &mut g);
    let s = a.add(&b, "s", &mut g);
    let p = a.mul(&b, "p", &mut g);
    assert_eq!(data(s, &g), 1.5 + -4.0);
    assert_eq!(data(p, &g), 1.5 * -4.0);
    assert_eq!(s.borrow(&g).prev, vec![a, b]);
    assert_eq!(p.borrow(&g).prev, vec![a, b]);
    assert_eq!(s.borrow(&g).op, Some(Op::Add));
    assert_eq!(p.borrow(&g).op, Some(Op::Mul));
    assert_eq!(s.borrow(&g)._backward, Some(Rule::Add));
    assert_eq!(p.borrow(&g)._backward, Some(Rule::Mul));
    assert_eq!(s.borrow(&g).label, "s");
    assert_eq!(s.borrow(&g).grad, ZERO);
    assert_eq!(s.borrow(&g).id, 2);
    assert_eq!(p.borrow(&g).id, 3);
}

#[test]
fn operators_leave_their_operands_alone() {
    let mut g = Tape::new(arithmetic);
    let a = Value::new(bits(3.0), "a", &mut g);
    let b = Value::new(bits(7.0), "b", &mut g);
    a.set_grad(bits(0.25), &mut g);
    let _ = a.mul(&b, "p", &mut g);
    let _ = a.div(&b, "q", &mut g);
    let _ = a._tanh("t", &mut g);
    assert_eq!(data(a, &g), 3.0);
    assert_eq!(grad(a, &g), 0.25);
    assert_eq!(data(b, &g), 7.0);
    assert_eq!(grad(b, &g), 0.0);
    assert_eq!(a.borrow(&g).label, "a");
}

#[test]
fn div_pow_exp_tanh_neg_compute_their_values() {
    let mut g = Tape::new(arithmetic);
    let a = Value::new(bits(3.0), "a", &mut g);
    let b = Value::new(bits(4.0), "b", &mut g);
    let q = a.div(&b, "q", &mut g);
    let w = a._pow(&b, "w", &mut g);
    let e = a._exp("e", &mut g);
    let t = a._tanh("t", &mut g);
    let n = a.neg(&mut g);
    assert_eq!(data(q, &g), 3.0 * 4.0f64.powi(-1));
    assert_eq!(data(q, &g), 0.75);
    assert_eq!(data(w, &g), 81.0);
    assert_eq!(data(e, &g), 3.0f64.exp());
    assert_eq!(data(t, &g), 3.0f64.tanh());
    assert_eq!(data(n, &g), -3.0);
    assert_eq!(q.borrow(&g).op, None);
    assert_eq!(w.borrow(&g).op, None);
    assert_eq!(e.borrow(&g).op, Some(Op::Exp));
    assert_eq!(t.borrow(&g).op, Some(Op::Tanh));
    assert_eq!(n.borrow(&g).op, None);
    assert_eq!(q.borrow(&g)._backward, Some(Rule::Div));
    assert_eq!(w.borrow(&g)._backward, Some(Rule::Pow));
    assert_eq!(e.borrow(&g)._backward, Some(Rule::Exp));
    assert_eq!(n.borrow(&g)._backward, Some(Rule::Neg));
    assert_eq!(q.borrow(&g).prev, vec![a, b]);
    assert_eq!(w.borrow(&g).prev, vec![a, b]);
    assert_eq!(e.borrow(&g).prev, vec![a]);
    assert_eq!(t.borrow(&g).prev, vec![a]);
    assert_eq!(n.borrow(&g).prev, vec![a]);
}

#[test]
fn division_by_zero_is_infinite() {
    let mut g = Tape::new(arithmetic);
    let a = Value::new(bits(1.0), "a", &mut g);
    let z = Value::new(bits(0.0), "z", &mut g);
    let m = Value::new(bits(-0.0), "m", &mut g);
    let q = a.div(&z, "q", &mut g);
    let r = a.div(&m, "r", &mut g);
    assert_eq!(data(q, &g), f64::INFINITY);
    assert_eq!(data(r, &g), f64::NEG_INFINITY);
}

#[test]
fn negation_takes_over_the_name_and_starts_at_zero_gradient() {
    let mut g = Tape::new(arithmetic);
    let a = Value::new(bits(2.0), "speed", &mut g);
    a.set_grad(bits(5.0), &mut g);
    let n = a.neg(&mut g);
    assert_eq!(n.borrow(&g).label, "speed");
    assert_eq!(n.borrow(&g).grad, ZERO);
    assert_eq!(data(n, &g), -2.0);
}

#[test]
fn subtraction_is_addition_of_the_negation() {
    let mut g = Tape::new(arithmetic);
    let a = Value::new(bits(5.0), "a", &mut g);
    let b = Value::new(bits(3.0), "b", &mut g);
    let d = a.sub(&b, &mut g);
    assert_eq!(g.len(), 4);
    assert_eq!(d, Value(3));
    let minus = Value(2);
    assert_eq!(data(minus, &g), -3.0);
    assert_eq!(minus.borrow(&g).prev, vec![b]);
    assert_eq!(minus.borrow(&g).label, "b");
    assert_eq!(data(d, &g), 2.0);
    assert_eq!(d.borrow(&g).prev, vec![a, minus]);
    assert_eq!(d.borrow(&g).op, Some(Op::Add));
    assert_eq!(d.borrow(&g).label, "");
    d.backward(&mut g);
    assert_eq!(grad(a, &g), 1.0);
    assert_eq!(grad(minus, &g), 1.0);
    assert_eq!(grad(b, &g), -1.0);
}

#[test]
fn set_label_renames_only() {
    let mut g = Tape::new(arithmetic);
    let a = Value::new(bits(2.0), "a", &mut g);
    let b = Value::new(bits(3.0), "b", &mut g);
    let p = a.mul(&b, "", &mut g);
    p.set_label("a*b", &mut g);
    assert_eq!(p.borrow(&g).label, "a*b");
    assert_eq!(data(p, &g), 6.0);
    assert_eq!(p.borrow(&g).prev, vec![a, b]);
    assert_eq!(p.borrow(&g).op, Some(Op::Mul));
    assert_eq!(a.borrow(&g).label, "a");
    assert_eq!(b.borrow(&g).label, "b");
}

#[test]
fn set_data_and_set_grad_overwrite_one_field() {
    let mut g = Tape::new(arithmetic);
    let a = Value::new(bits(2.0), "a", &mut g);
    let b = Value::new(bits(3.0), "b", &mut g);
    let p = a.mul(&b, "p", &mut g);
    a.set_data(bits(10.0), &mut g);
    b.set_grad(bits(0.5), &mut g);
    assert_eq!(data(a, &g), 10.0);
    assert_eq!(grad(a, &g), 0.0);
    assert_eq!(data(b, &g), 3.0);
    assert_eq!(grad(b, &g), 0.5);
    // The product was computed once and is not computed again.
    assert_eq!(data(p, &g), 6.0);
}

#[test]
fn gradient_of_a_sum_is_one_for_both() {
    let mut g = Tape::new(arithmetic);
    let a = Value::new(bits(1.5), "a", &mut g);
    let b = Value::new(bits(-4.0), "b", &mut g);
    let s = a.add(&b, "s", &mut g);
    s.backward(&mut g);
    assert_eq!(grad(s, &g), 1.0);
    assert_eq!(grad(a, &g), 1.0);
    assert_eq!(grad(b, &g), 1.0);
}

#[test]
fn gradient_of_a_product_is_the_other_factor() {
    let mut g = Tape::new(arithmetic);
    let a = Value::new(bits(1.5), "a", &mut g);
    let b = Value::new(bits(-4.0), "b", &mut g);
    let p = a.mul(&b, "p", &mut g);
    p.backward(&mut g);
    assert_eq!(grad(p, &g), 1.0);
    assert_eq!(grad(a, &g), -4.0);
    assert_eq!(grad(b, &g), 1.5);
}

#[test]
fn gradient_of_a_square_counts_both_uses() {
    let mut g = Tape::new(arithmetic);
    let a = Value::new(bits(3.0), "a", &mut g);
    let p = a.mul(&a, "p", &mut g);
    p.backward(&mut g);
    assert_eq!(data(p, &g), 9.0);
    assert_eq!(grad(a, &g), 6.0);
}

#[test]
fn gradient_of_a_sum_of_a_node_with_itself_is_two() {
    let mut g = Tape::new(arithmetic);
    let a = Value::new(bits(3.0), "a", &mut g);
    let s = a.add(&a, "s", &mut g);
    s.backward(&mut g);
    assert_eq!(grad(a, &g), 2.0);
}

#[test]
fn diamond_sums_both_paths() {
    let mut g = Tape::new(arithmetic);
    let a = Value::new(bits(2.0), "a", &mut g);
    let b = Value::new(bits(-3.0), "b", &mut g);
    let d = a.mul(&b, "d", &mut g);
    let e = d.add(&a, "e", &mut g);
    e.backward(&mut g);
    assert_eq!(grad(e, &g), 1.0);
    assert_eq!(grad(d, &g), 1.0);
    assert_eq!(grad(a, &g), -3.0 + 1.0);
    assert_eq!(grad(b, &g), 2.0);
}

#[test]
fn tanh_value_and_gradient() {
    let mut g = Tape::new(arithmetic);
    let a = Value::new(bits(0.7), "a", &mut g);
    let t = a._tanh("t", &mut g);
    assert_eq!(data(t, &g), 0.7f64.tanh());
    t.backward(&mut g);
    let th = 0.7f64.tanh();
    assert_eq!(grad(a, &g), 0.0 + (1.0 - th * th) * 1.0);
    assert!(close(grad(a, &g), 1.0 - th.powi(2)));
}

#[test]
fn exp_gradient_is_its_value() {
    let mut g = Tape::new(arithmetic);
    let a = Value::new(bits(1.25), "a", &mut g);
    let e = a._exp("e", &mut g);
    e.backward(&mut g);
    assert_eq!(grad(a, &g), 1.25f64.exp());
}

#[test]
fn pow_gradient_reaches_the_base_only() {
    let mut g = Tape::new(arithmetic);
    let a = Value::new(bits(3.0), "a", &mut g);
    let k = Value::new(bits(4.0), "k", &mut g);
    let w = a._pow(&k, "w", &mut g);
    w.backward(&mut g);
    assert_eq!(grad(a, &g), 4.0 * 27.0);
    assert_eq!(grad(k, &g), 0.0);
}

#[test]
fn div_gradients_are_those_of_a_quotient() {
    let mut g = Tape::new(arithmetic);
    let a = Value::new(bits(3.0), "a", &mut g);
    let b = Value::new(bits(4.0), "b", &mut g);
    let q = a.div(&b, "q", &mut g);
    q.backward(&mut g);
    assert_eq!(grad(a, &g), 0.25);
    assert_eq!(grad(b, &g), -3.0 / 16.0);
}

#[test]
fn neg_gradient_is_minus_one() {
    let mut g = Tape::new(arithmetic);
    let a = Value::new(bits(3.0), "a", &mut g);
    let n = a.neg(&mut g);
    n.backward(&mut g);
    assert_eq!(grad(n, &g), 1.0);
    assert_eq!(grad(a, &g), -1.0);
}

#[test]
fn backward_from_a_leaf_sets_its_gradient_to_one() {
    let mut g = Tape::new(arithmetic);
    let a = Value::new(bits(3.0), "a", &mut g);
    let b = Value::new(bits(4.0), "b", &mut g);
    a.backward(&mut g);
    assert_eq!(grad(a, &g), 1.0);
    assert_eq!(grad(b, &g), 0.0);
}

#[test]
fn backward_touches_only_what_the_root_depends_on() {
    let mut g = Tape::new(arithmetic);
    let a = Value::new(bits(2.0), "a", &mut g);
    let b = Value::new(bits(3.0), "b", &mut g);
    let c = Value::new(bits(5.0), "c", &mut g);
    let p = a.mul(&b, "p", &mut g);
    let q = p.mul(&c, "q", &mut g);
    c.set_grad(bits(0.5), &mut g);
    q.set_grad(bits(9.0), &mut g);
    p.backward(&mut g);
    assert_eq!(grad(p, &g), 1.0);
    assert_eq!(grad(a, &g), 3.0);
    assert_eq!(grad(b, &g), 2.0);
    assert_eq!(grad(c, &g), 0.5);
    assert_eq!(grad(q, &g), 9.0);
    assert_eq!(g.len(), 5);
    assert_eq!(data(q, &g), 30.0);
}

#[test]
fn worked_example() {
    let mut g = Tape::new(arithmetic);
    let a = Value::new(bits(2.0), "a", &mut g);
    let b = Value::new(bits(-3.0), "b", &mut g);
    let c = Value::new(bits(10.0), "c", &mut g);
    let d = a.mul(&b, "d", &mut g);
    let e = d.add(&c, "e", &mut g);
    let f = Value::new(bits(-2.0), "f", &mut g);
    let gg = e.mul(&f, "g", &mut g);
    let h = gg._tanh("h", &mut g);
    assert_eq!(data(d, &g), -6.0);
    assert_eq!(data(e, &g), 4.0);
    assert_eq!(data(gg, &g), -8.0);
    assert_eq!(data(h, &g), (-8.0f64).tanh());
    assert!((data(h, &g) - -1.0).abs() < 1e-6);
    assert_eq!(h.borrow(&g).op, Some(Op::Tanh));
    assert_eq!(h.borrow(&g)._backward, Some(Rule::Tanh));

    h.backward(&mut g);

    let t = (-8.0f64).tanh();
    let g_grad = 1.0 - t * t;
    assert_eq!(grad(h, &g), 1.0);
    assert!(close(grad(gg, &g), g_grad));
    assert!(grad(gg, &g) > 0.0 && grad(gg, &g) < 1e-6);
    assert!(close(grad(f, &g), 4.0 * g_grad));
    assert!(close(grad(e, &g), -2.0 * g_grad));
    assert_eq!(grad(c, &g), grad(e, &g));
    assert_eq!(grad(d, &g), grad(e, &g));
    assert_eq!(grad(a, &g), -3.0 * grad(d, &g));
    assert_eq!(grad(b, &g), 2.0 * grad(d, &g));
}

#[test]
fn backward_order_of_the_worked_example() {
    let mut g = Tape::new(arithmetic);
    let a = Value::new(bits(2.0), "a", &mut g);
    let b = Value::new(bits(-3.0), "b", &mut g);
    let c = Value::new(bits(10.0), "c", &mut g);
    let d = a.mul(&b, "d", &mut g);
    let e = d.add(&c, "e", &mut g);
    let f = Value::new(bits(-2.0), "f", &mut g);
    let gg = e.mul(&f, "g", &mut g);
    let h = gg._tanh("h", &mut g);
    assert_eq!(h.backward_order(&g), vec![h, gg, f, e, c, d, b, a]);
    assert_eq!(d.backward_order(&g), vec![d, b, a]);
    assert_eq!(c.backward_order(&g), vec![c]);
}

#[test]
fn backward_order_lists_a_shared_operand_once_and_last() {
    let mut g = Tape::new(arithmetic);
    let a = Value::new(bits(2.0), "a", &mut g);
    let b = Value::new(bits(-3.0), "b", &mut g);
    let d = a.mul(&b, "d", &mut g);
    let e = d.add(&a, "e", &mut g);
    assert_eq!(e.backward_order(&g), vec![e, d, b, a]);
    let f = a.add(&d, "f", &mut g);
    assert_eq!(f.backward_order(&g), vec![f, d, b, a]);
}

#[test]
fn a_consumer_is_done_before_its_operand_hands_on() {
    // x is used by y and by z; z also uses y. The gradient of y must be
    // complete (from z) before y hands its share to x.
    let mut g = Tape::new(arithmetic);
    let x = Value::new(bits(3.0), "x", &mut g);
    let y = x.mul(&x, "y", &mut g);
    let z = y.mul(&x, "z", &mut g);
    z.backward(&mut g);
    assert_eq!(data(z, &g), 27.0);
    assert_eq!(grad(y, &g), 3.0);
    assert_eq!(grad(x, &g), 27.0);
}

#[test]
fn propagate_applies_one_rule() {
    let mut g = Tape::new(arithmetic);
    let a = Value::new(bits(2.0), "a", &mut g);
    let b = Value::new(bits(5.0), "b", &mut g);
    let p = a.mul(&b, "p", &mut g);
    let q = p._exp("q", &mut g);
    p.set_grad(bits(10.0), &mut g);
    a.set_grad(bits(1.0), &mut g);
    p.propagate(&mut g);
    assert_eq!(grad(a, &g), 1.0 + 5.0 * 10.0);
    assert_eq!(grad(b, &g), 0.0 + 2.0 * 10.0);
    assert_eq!(grad(p, &g), 10.0);
    assert_eq!(grad(q, &g), 0.0);
    a.propagate(&mut g);
    assert_eq!(grad(a, &g), 51.0);
    assert_eq!(grad(b, &g), 20.0);
}

#[test]
fn second_backward_adds_to_the_first() {
    let mut g = Tape::new(arithmetic);
    let a = Value::new(bits(1.5), "a", &mut g);
    let b = Value::new(bits(-4.0), "b", &mut g);
    let p = a.mul(&b, "p", &mut g);
    p.backward(&mut g);
    let (a1, b1) = (grad(a, &g), grad(b, &g));
    p.backward(&mut g);
    assert_eq!(grad(a, &g), 2.0 * a1);
    assert_eq!(grad(b, &g), 2.0 * b1);
    assert_eq!(grad(a, &g), -8.0);
    assert_eq!(grad(b, &g), 3.0);
    assert_eq!(grad(p, &g), 1.0);
}

#[test]
fn second_backward_on_a_deep_graph_adds_grown_shares() {
    // The inner node keeps its gradient too, so what it hands on the second
    // time is larger than the first time.
    let mut g = Tape::new(arithmetic);
    let a = Value::new(bits(2.0), "a", &mut g);
    let b = Value::new(bits(3.0), "b", &mut g);
    let c = Value::new(bits(5.0), "c", &mut g);
    let p = a.mul(&b, "p", &mut g);
    let s = p.add(&c, "s", &mut g);
    s.backward(&mut g);
    assert_eq!(grad(p, &g), 1.0);
    assert_eq!(grad(c, &g), 1.0);
    assert_eq!(grad(a, &g), 3.0);
    assert_eq!(grad(b, &g), 2.0);
    s.backward(&mut g);
    assert_eq!(grad(s, &g), 1.0);
    assert_eq!(grad(p, &g), 2.0);
    assert_eq!(grad(c, &g), 2.0);
    assert_eq!(grad(a, &g), 3.0 + 3.0 * 2.0);
    assert_eq!(grad(b, &g), 2.0 + 2.0 * 2.0);
}

#[test]
fn reset_of_the_leaves_reproduces_the_first_pass() {
    let mut g = Tape::new(arithmetic);
    let a = Value::new(bits(0.3), "a", &mut g);
    let b = Value::new(bits(-1.7), "b", &mut g);
    let q = a.div(&b, "q", &mut g);
    q.backward(&mut g);
    let first = (grad(a, &g), grad(b, &g), grad(q, &g));
    a.set_grad(ZERO, &mut g);
    b.set_grad(ZERO, &mut g);
    q.backward(&mut g);
    assert_eq!((grad(a, &g), grad(b, &g), grad(q, &g)), first);
}

#[test]
fn reset_of_every_gradient_reproduces_the_first_pass() {
    let mut g = Tape::new(arithmetic);
    let a = Value::new(bits(2.0), "a", &mut g);
    let b = Value::new(bits(-3.0), "b", &mut g);
    let c = Value::new(bits(10.0), "c", &mut g);
    let d = a.mul(&b, "d", &mut g);
    let e = d.add(&c, "e", &mut g);
    let h = e._tanh("h", &mut g);
    let all = [a, b, c, d, e, h];
    h.backward(&mut g);
    let first: Vec<u64> = all.iter().map(|v| v.borrow(&g).grad).collect();
    for v in all.iter() {
        v.set_grad(ZERO, &mut g);
    }
    h.backward(&mut g);
    let second: Vec<u64> = all.iter().map(|v| v.borrow(&g).grad).collect();
    assert_eq!(first, second);
}

#[test]
fn the_engine_asks_the_kernel_and_stores_what_it_answers() {
    // A kernel over integers shows which primitives are asked for.
    let count = |p: Prim| -> u64 {
        match p {
            Prim::Add(x, y) => x.wrapping_add(y),
            Prim::Sub(x, y) => x.wrapping_sub(y),
            Prim::Mul(x, y) => x.wrapping_mul(y),
            Prim::Neg(x) => x.wrapping_neg(),
            Prim::Recip(x) => x + 1000,
            Prim::Powf(x, y) => x + 10 * y,
            Prim::Exp(x) => x + 7,
            Prim::Tanh(x) => x + 9,
        }
    };
    let mut g = Tape::new(count);
    let a = Value::new(3, "a", &mut g);
    let b = Value::new(4, "b", &mut g);
    let q = a.div(&b, "q", &mut g);
    assert_eq!(q.borrow(&g).data, 3 * 1004);
    let w = a._pow(&b, "w", &mut g);
    assert_eq!(w.borrow(&g).data, 43);
    let t = a._tanh("t", &mut g);
    assert_eq!(t.borrow(&g).data, 12);
    t.set_grad(2, &mut g);
    t.propagate(&mut g);
    // 0 + (ONE - 12 * 12) * 2
    assert_eq!(a.borrow(&g).grad, ONE.wrapping_sub(144).wrapping_mul(2));
}
