//! What each operation computes, forward and backward.
//!
//! Every relation here reads "`r` is a value that the kernel may return for
//! ...": the arithmetic is the kernel's, the choice of primitives and of their
//! operands is fixed here.

use vstd::prelude::*;
use crate::kernel::{gives, Prim, NEG_ONE, ONE};
use crate::node::{grads, Rule, Value, ValueInfo};
use crate::order::backward_order;

verus! {

/// `out` is the value of the operation on operands with values `x` and `y`
/// (a unary operation ignores `y`).
pub open spec fn forward<K: Fn(Prim) -> u64>(k: K, rule: Rule, x: u64, y: u64, out: u64) -> bool {
    match rule {
        Rule::Add => gives(k, Prim::Add(x, y), out),
        Rule::Mul => gives(k, Prim::Mul(x, y), out),
        Rule::Div => exists|r: u64| #[trigger]
            gives(k, Prim::Recip(y), r) && gives(k, Prim::Mul(x, r), out),
        Rule::Pow => gives(k, Prim::Powf(x, y), out),
        Rule::Exp => gives(k, Prim::Exp(x), out),
        Rule::Tanh => gives(k, Prim::Tanh(x), out),
        Rule::Neg => gives(k, Prim::Neg(x), out),
    }
}

/// `f` is the derivative of the operation's value `out` with respect to its
/// operand at position `pos`, where the operands have values `x` and `y`.
pub open spec fn local<K: Fn(Prim) -> u64>(
    k: K,
    rule: Rule,
    pos: int,
    x: u64,
    y: u64,
    out: u64,
    f: u64,
) -> bool {
    match rule {
        Rule::Add => f == ONE,
        Rule::Mul => f == (if pos == 0 { y } else { x }),
        Rule::Div => if pos == 0 {
            gives(k, Prim::Recip(y), f)
        } else {
            exists|s: u64, r: u64, q: u64|
                #![trigger gives(k, Prim::Recip(s), r), gives(k, Prim::Neg(q), f)]
                gives(k, Prim::Mul(y, y), s) && gives(k, Prim::Recip(s), r) && gives(
                    k,
                    Prim::Mul(x, r),
                    q,
                ) && gives(k, Prim::Neg(q), f)
        },
        Rule::Pow => exists|e: u64, p: u64|
            #![trigger gives(k, Prim::Powf(x, e), p)]
            gives(k, Prim::Sub(y, ONE), e) && gives(k, Prim::Powf(x, e), p) && gives(
                k,
                Prim::Mul(y, p),
                f,
            ),
        Rule::Exp => f == out,
        Rule::Tanh => exists|s: u64| #[trigger]
            gives(k, Prim::Mul(out, out), s) && gives(k, Prim::Sub(ONE, s), f),
        Rule::Neg => f == NEG_ONE,
    }
}

/// `r` is `acc + f * g`.
pub open spec fn accumulated<K: Fn(Prim) -> u64>(k: K, f: u64, g: u64, acc: u64, r: u64) -> bool {
    exists|t: u64| #[trigger] gives(k, Prim::Mul(f, g), t) && gives(k, Prim::Add(acc, t), r)
}

/// `r` is the gradient `acc` of the operand at position `pos` after the node
/// with gradient `g` has handed on its share.
pub open spec fn contributed<K: Fn(Prim) -> u64>(
    k: K,
    rule: Rule,
    pos: int,
    x: u64,
    y: u64,
    out: u64,
    g: u64,
    acc: u64,
    r: u64,
) -> bool {
    exists|f: u64| #[trigger] local(k, rule, pos, x, y, out, f) && accumulated(k, f, g, acc, r)
}

/// The value of the operand of `v` at position `pos`, or `0` where `v` has
/// no such operand.
pub open spec fn operand_data(nodes: Seq<ValueInfo>, v: Value, pos: int) -> u64 {
    let prev = nodes[v.0 as int].prev@;
    if 0 <= pos < prev.len() {
        nodes[prev[pos].0 as int].data
    } else {
        0
    }
}

/// `post` holds the gradients `pre` after the node `v` has applied its
/// backward rule: the receiving operands, in their order, have each taken
/// their share of the gradient of `v`; a node without a rule changes nothing.
pub open spec fn fired<K: Fn(Prim) -> u64>(
    k: K,
    nodes: Seq<ValueInfo>,
    v: Value,
    pre: Seq<u64>,
    post: Seq<u64>,
) -> bool {
    let n = nodes[v.0 as int];
    let x = operand_data(nodes, v, 0);
    let y = operand_data(nodes, v, 1);
    let g = pre[v.0 as int];
    match n._backward {
        None => post == pre,
        Some(rule) => {
            let a = n.prev@[0].0 as int;
            if rule.receivers() == 1 {
                exists|r: u64| #[trigger]
                    contributed(k, rule, 0, x, y, n.data, g, pre[a], r) && post == pre.update(a, r)
            } else {
                let b = n.prev@[1].0 as int;
                exists|r: u64, s: u64|
                    #![trigger pre.update(a, r).update(b, s)]
                    contributed(k, rule, 0, x, y, n.data, g, pre[a], r) && contributed(
                        k,
                        rule,
                        1,
                        x,
                        y,
                        n.data,
                        g,
                        pre.update(a, r)[b],
                        s,
                    ) && post == pre.update(a, r).update(b, s)
            }
        },
    }
}

/// `cur` holds the gradients `pre` after the nodes of `order` from position
/// `lo` up to position `hi` have applied their backward rules, one after the
/// other.
pub open spec fn continued<K: Fn(Prim) -> u64>(
    k: K,
    nodes: Seq<ValueInfo>,
    order: Seq<Value>,
    lo: int,
    hi: int,
    pre: Seq<u64>,
    cur: Seq<u64>,
) -> bool
    decreases hi - lo,
{
    if hi <= lo {
        cur == pre
    } else {
        exists|mid: Seq<u64>|
            #![trigger fired(k, nodes, order[hi - 1], mid, cur)]
            continued(k, nodes, order, lo, hi - 1, pre, mid) && fired(
                k,
                nodes,
                order[hi - 1],
                mid,
                cur,
            )
    }
}

/// The node `c` hands a share of its gradient to `n` as its operand at
/// position `pos`.
pub open spec fn receives(c: ValueInfo, pos: int, n: Value) -> bool {
    match c._backward {
        Some(rule) => 0 <= pos < rule.receivers() && pos < c.prev@.len() && c.prev@[pos] == n,
        None => false,
    }
}

/// The uses of `n` as a receiving operand by the first `hi` nodes of `order`:
/// each a position in `order` and a position among the operands of the node
/// there, in the order in which a pass meets them.
pub open spec fn uses(nodes: Seq<ValueInfo>, order: Seq<Value>, hi: int, n: Value) -> Seq<
    (int, int),
>
    decreases hi,
{
    if hi <= 0 {
        Seq::empty()
    } else {
        let c = nodes[order[hi - 1].0 as int];
        let before = uses(nodes, order, hi - 1, n);
        let first = if receives(c, 0, n) {
            before.push((hi - 1, 0))
        } else {
            before
        };
        if receives(c, 1, n) {
            first.push((hi - 1, 1))
        } else {
            first
        }
    }
}

/// `r` is `acc` after the shares of the uses `us` were added to it, one after
/// the other, where each user hands on the gradient that `g` holds for it.
pub open spec fn summed<K: Fn(Prim) -> u64>(
    k: K,
    nodes: Seq<ValueInfo>,
    order: Seq<Value>,
    g: Seq<u64>,
    us: Seq<(int, int)>,
    acc: u64,
    r: u64,
) -> bool
    decreases us.len(),
{
    if us.len() == 0 {
        r == acc
    } else {
        let c = order[us.last().0];
        let info = nodes[c.0 as int];
        exists|mid: u64|
            summed(k, nodes, order, g, us.drop_last(), acc, mid) && #[trigger] contributed(
                k,
                info._backward.unwrap(),
                us.last().1,
                operand_data(nodes, c, 0),
                operand_data(nodes, c, 1),
                info.data,
                g[c.0 as int],
                mid,
                r,
            )
    }
}

/// `post` holds the gradients after a backward pass from `root` over the
/// graph `nodes`: the gradient of `root` was set to `1.0`, and then the nodes
/// that `root` depends on applied their backward rules, each before its
/// operands.
pub open spec fn swept<K: Fn(Prim) -> u64>(
    k: K,
    nodes: Seq<ValueInfo>,
    root: Value,
    post: Seq<u64>,
) -> bool {
    let order = backward_order(nodes, root);
    continued(k, nodes, order, 0, order.len() as int, grads(nodes).update(root.0 as int, ONE), post)
}

} // verus!
