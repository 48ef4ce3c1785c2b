use micrograd::engine::Tape;
use micrograd::graph::{symbol, Edge};
use micrograd::kernel::Prim;
use micrograd::node::{Op, Value};

fn num(bits: u64) -> f64 {
    f64::from_bits(bits)
}

fn bits(x: f64) -> u64 {
    x.to_bits()
}

fn arithmetic(p: Prim) -> u64 {
    let r = match p {
        Prim::Add(x, y) => num(x) + num(y),
        Prim::Sub(x, y) => num(x) - num(y),
        Prim::Mul(x, y) => num(x) * num(y),
        Prim::Neg(x) => -num(x),
        Prim::Recip(x) => num(x).powi(-1),
        Prim::Powf(x, y) => num(x).powf(num(y)),
        Prim::Exp(x) => num(x).exp(),
        Prim::Tanh(x) => num(x).tanh(),
    };
    bits(r)
}

#[test]
fn symbols_of_the_operations() {
    assert_eq!(symbol(Some(Op::Add)), "+");
    assert_eq!(symbol(Some(Op::Mul)), "*");
    assert_eq!(symbol(Some(Op::Tanh)), "tanh");
    assert_eq!(symbol(Some(Op::Exp)), "exp");
    assert_eq!(symbol(None), "");
}

#[test]
fn drawing_of_a_leaf_is_the_leaf() {
    let mut g = Tape::new(arithmetic);
    let a = Value::new(bits(1.0), "a", &mut g);
    let _b = Value::new(bits(2.0), "b", &mut g);
    let d = a.drawing(&g);
    assert_eq!(d.nodes, vec![a]);
    assert!(d.edges.is_empty());
}

#[test]
fn drawing_of_the_worked_example() {
    let mut g = Tape::new(arithmetic);
    let a = Value::new(bits(2.0), "a", &mut g);
    let b = Value::new(bits(-3.0), "b", &mut g);
    let c = Value::new(bits(10.0), "c", &mut g);
    let d = a.mul(&b, "d", &mut g);
    let e = d.add(&c, "e", &mut g);
    let f = Value::new(bits(-2.0), "f", &mut g);
    let gg = e.mul(&f, "g", &mut g);
    let h = gg._tanh("h", &mut g);
    let drawing = h.drawing(&g);
    assert_eq!(drawing.nodes, vec![h, gg, e, d, a, b, c, f]);
    assert_eq!(
        drawing.edges,
        vec![
            Edge { from: a, to: d, op: None },
            Edge { from: b, to: d, op: None },
            Edge { from: d, to: e, op: Some(Op::Mul) },
            Edge { from: c, to: e, op: None },
            Edge { from: e, to: gg, op: Some(Op::Add) },
            Edge { from: f, to: gg, op: None },
            Edge { from: gg, to: h, op: Some(Op::Mul) },
        ]
    );
}

#[test]
fn drawing_lists_a_shared_operand_once_and_joins_it_to_each_user() {
    let mut g = Tape::new(arithmetic);
    let a = Value::new(bits(2.0), "a", &mut g);
    let b = Value::new(bits(-3.0), "b", &mut g);
    let d = a.mul(&b, "d", &mut g);
    let e = d.add(&a, "e", &mut g);
    let s = e.mul(&e, "s", &mut g);
    let drawing = s.drawing(&g);
    assert_eq!(drawing.nodes, vec![s, e, d, a, b]);
    assert_eq!(
        drawing.edges,
        vec![
            Edge { from: a, to: d, op: None },
            Edge { from: b, to: d, op: None },
            Edge { from: d, to: e, op: Some(Op::Mul) },
            Edge { from: a, to: e, op: None },
            Edge { from: e, to: s, op: Some(Op::Add) },
            Edge { from: e, to: s, op: Some(Op::Add) },
        ]
    );
}

#[test]
fn drawing_holds_what_the_backward_order_holds() {
    let mut g = Tape::new(arithmetic);
    let a = Value::new(bits(2.0), "a", &mut g);
    let b = Value::new(bits(-3.0), "b", &mut g);
    let _unused = Value::new(bits(7.0), "unused", &mut g);
    let d = a.div(&b, "d", &mut g);
    let e = d._exp("e", &mut g);
    let s = e.sub(&a, &mut g);
    let mut drawn = s.drawing(&g).nodes;
    let mut order = s.backward_order(&g);
    assert_eq!(drawn[0], s);
    assert_eq!(order[0], s);
    drawn.sort_by_key(|v| v.0);
    order.sort_by_key(|v| v.0);
    assert_eq!(drawn, order);
    assert_eq!(drawn.len(), 6);
}
