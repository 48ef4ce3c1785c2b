//! What the rules of a backward pass do and do not do: lemmas on a single
//! rule and on a stretch of a pass, from which the laws are proved.

use vstd::prelude::*;
use crate::kernel::{functional, gives, Prim, ONE};
use crate::node::{is_leaf, node_ok, same_graph, well_formed, Rule, Value, ValueInfo};
use crate::order::{depends_on, is_operand, visit, visit_operands, within};
use crate::rules::{accumulated, continued, contributed, fired, local, operand_data};

verus! {

/// A backward rule reads nothing of the graph but what `same_graph` keeps.
pub(crate) proof fn lemma_fired_same_graph<K: Fn(Prim) -> u64>(
    k: K,
    a: Seq<ValueInfo>,
    b: Seq<ValueInfo>,
    v: Value,
    pre: Seq<u64>,
    post: Seq<u64>,
)
    requires
        well_formed(a),
        same_graph(a, b),
        v.0 < a.len(),
    ensures
        fired(k, a, v, pre, post) == fired(k, b, v, pre, post),
{
    assert(node_ok(a, v.0 as int));
    assert(b[v.0 as int].prev == a[v.0 as int].prev);
    let prev = a[v.0 as int].prev@;
    if prev.len() > 0 {
        assert(b[prev[0].0 as int].data == a[prev[0].0 as int].data);
    }
    if prev.len() > 1 {
        assert(b[prev[1].0 as int].data == a[prev[1].0 as int].data);
    }
    assert(operand_data(a, v, 0) == operand_data(b, v, 0));
    assert(operand_data(a, v, 1) == operand_data(b, v, 1));
}

/// A backward rule changes no gradient but those of the node's operands.
pub(crate) proof fn lemma_fired_frame<K: Fn(Prim) -> u64>(
    k: K,
    nodes: Seq<ValueInfo>,
    v: Value,
    pre: Seq<u64>,
    post: Seq<u64>,
)
    requires
        well_formed(nodes),
        v.0 < nodes.len(),
        pre.len() == nodes.len(),
        fired(k, nodes, v, pre, post),
    ensures
        post.len() == pre.len(),
        forall|i: int|
            0 <= i < pre.len() && !is_operand(nodes, v, Value(i as usize)) ==> #[trigger] post[i]
                == pre[i],
{
    assert(node_ok(nodes, v.0 as int));
    let n = nodes[v.0 as int];
    match n._backward {
        None => {},
        Some(rule) => {
            let a = n.prev@[0];
            assert(is_operand(nodes, v, a));
            if rule.receivers() == 2 {
                let b = n.prev@[1];
                assert(is_operand(nodes, v, b));
            }
        },
    }
}

/// The rules of a stretch of a pass change no gradient but those of operands
/// of the nodes that applied them.
pub(crate) proof fn lemma_continued_frame<K: Fn(Prim) -> u64>(
    k: K,
    nodes: Seq<ValueInfo>,
    order: Seq<Value>,
    lo: int,
    hi: int,
    pre: Seq<u64>,
    cur: Seq<u64>,
)
    requires
        well_formed(nodes),
        within(nodes, order),
        0 <= lo <= hi <= order.len(),
        pre.len() == nodes.len(),
        continued(k, nodes, order, lo, hi, pre, cur),
    ensures
        cur.len() == pre.len(),
        forall|x: int|
            0 <= x < pre.len() && (forall|m: int|
                lo <= m < hi ==> !is_operand(nodes, #[trigger] order[m], Value(x as usize)))
                ==> #[trigger] cur[x] == pre[x],
    decreases hi - lo,
{
    if hi > lo {
        let mid = choose|mid: Seq<u64>|
            #![trigger fired(k, nodes, order[hi - 1], mid, cur)]
            continued(k, nodes, order, lo, hi - 1, pre, mid) && fired(
                k,
                nodes,
                order[hi - 1],
                mid,
                cur,
            );
        lemma_continued_frame(k, nodes, order, lo, hi - 1, pre, mid);
        lemma_fired_frame(k, nodes, order[hi - 1], mid, cur);
        assert forall|x: int|
            0 <= x < pre.len() && (forall|m: int|
                lo <= m < hi ==> !is_operand(nodes, #[trigger] order[m], Value(x as usize)))
                implies #[trigger] cur[x] == pre[x] by {
            assert(!is_operand(nodes, order[hi - 1], Value(x as usize)));
            assert(cur[x] == mid[x]);
        }
    }
}

/// Under a kernel that is a function, the derivative of an operation is
/// determined.
pub(crate) proof fn lemma_local_functional<K: Fn(Prim) -> u64>(
    k: K,
    rule: Rule,
    pos: int,
    x: u64,
    y: u64,
    out: u64,
    f1: u64,
    f2: u64,
)
    requires
        functional(k),
        local(k, rule, pos, x, y, out, f1),
        local(k, rule, pos, x, y, out, f2),
    ensures
        f1 == f2,
{
    match rule {
        Rule::Div => {
            if pos != 0 {
                let (s1, r1, q1) = choose|s: u64, r: u64, q: u64|
                    #![trigger gives(k, Prim::Recip(s), r), gives(k, Prim::Neg(q), f1)]
                    gives(k, Prim::Mul(y, y), s) && gives(k, Prim::Recip(s), r) && gives(
                        k,
                        Prim::Mul(x, r),
                        q,
                    ) && gives(k, Prim::Neg(q), f1);
                let (s2, r2, q2) = choose|s: u64, r: u64, q: u64|
                    #![trigger gives(k, Prim::Recip(s), r), gives(k, Prim::Neg(q), f2)]
                    gives(k, Prim::Mul(y, y), s) && gives(k, Prim::Recip(s), r) && gives(
                        k,
                        Prim::Mul(x, r),
                        q,
                    ) && gives(k, Prim::Neg(q), f2);
                assert(s1 == s2);
                assert(r1 == r2);
                assert(q1 == q2);
            }
        },
        Rule::Pow => {
            let (e1, w1) = choose|e: u64, p: u64|
                #![trigger gives(k, Prim::Powf(x, e), p)]
                gives(k, Prim::Sub(y, ONE), e) && gives(k, Prim::Powf(x, e), p) && gives(
                    k,
                    Prim::Mul(y, p),
                    f1,
                );
            let (e2, w2) = choose|e: u64, p: u64|
                #![trigger gives(k, Prim::Powf(x, e), p)]
                gives(k, Prim::Sub(y, ONE), e) && gives(k, Prim::Powf(x, e), p) && gives(
                    k,
                    Prim::Mul(y, p),
                    f2,
                );
            assert(e1 == e2);
            assert(w1 == w2);
        },
        Rule::Tanh => {
            let s1 = choose|s: u64| #[trigger]
                gives(k, Prim::Mul(out, out), s) && gives(k, Prim::Sub(ONE, s), f1);
            let s2 = choose|s: u64| #[trigger]
                gives(k, Prim::Mul(out, out), s) && gives(k, Prim::Sub(ONE, s), f2);
            assert(s1 == s2);
        },
        _ => {},
    }
}

/// Under a kernel that is a function, an operand's gradient after a share
/// was handed on is determined.
pub(crate) proof fn lemma_contributed_functional<K: Fn(Prim) -> u64>(
    k: K,
    rule: Rule,
    pos: int,
    x: u64,
    y: u64,
    out: u64,
    g: u64,
    acc: u64,
    r1: u64,
    r2: u64,
)
    requires
        functional(k),
        contributed(k, rule, pos, x, y, out, g, acc, r1),
        contributed(k, rule, pos, x, y, out, g, acc, r2),
    ensures
        r1 == r2,
{
    let f1 = choose|f: u64| #[trigger]
        local(k, rule, pos, x, y, out, f) && accumulated(k, f, g, acc, r1);
    let f2 = choose|f: u64| #[trigger]
        local(k, rule, pos, x, y, out, f) && accumulated(k, f, g, acc, r2);
    lemma_local_functional(k, rule, pos, x, y, out, f1, f2);
    let t1 = choose|t: u64| #[trigger]
        gives(k, Prim::Mul(f1, g), t) && gives(k, Prim::Add(acc, t), r1);
    let t2 = choose|t: u64| #[trigger]
        gives(k, Prim::Mul(f2, g), t) && gives(k, Prim::Add(acc, t), r2);
    assert(t1 == t2);
}

/// Under a kernel that is a function, the gradients after a backward rule
/// are determined.
pub(crate) proof fn lemma_fired_functional<K: Fn(Prim) -> u64>(
    k: K,
    nodes: Seq<ValueInfo>,
    v: Value,
    pre: Seq<u64>,
    one: Seq<u64>,
    other: Seq<u64>,
)
    requires
        functional(k),
        fired(k, nodes, v, pre, one),
        fired(k, nodes, v, pre, other),
    ensures
        one == other,
{
    let n = nodes[v.0 as int];
    let x = operand_data(nodes, v, 0);
    let y = operand_data(nodes, v, 1);
    let g = pre[v.0 as int];
    match n._backward {
        None => {},
        Some(rule) => {
            let a = n.prev@[0].0 as int;
            if rule.receivers() == 1 {
                let r1 = choose|r: u64| #[trigger]
                    contributed(k, rule, 0, x, y, n.data, g, pre[a], r) && one == pre.update(a, r);
                let r2 = choose|r: u64| #[trigger]
                    contributed(k, rule, 0, x, y, n.data, g, pre[a], r) && other == pre.update(
                        a,
                        r,
                    );
                lemma_contributed_functional(k, rule, 0, x, y, n.data, g, pre[a], r1, r2);
            } else {
                let b = n.prev@[1].0 as int;
                let (r1, s1) = choose|r: u64, s: u64|
                    #![trigger pre.update(a, r).update(b, s)]
                    contributed(k, rule, 0, x, y, n.data, g, pre[a], r) && contributed(
                        k,
                        rule,
                        1,
                        x,
                        y,
                        n.data,
                        g,
                        pre.update(a, r)[b],
                        s,
                    ) && one == pre.update(a, r).update(b, s);
                let (r2, s2) = choose|r: u64, s: u64|
                    #![trigger pre.update(a, r).update(b, s)]
                    contributed(k, rule, 0, x, y, n.data, g, pre[a], r) && contributed(
                        k,
                        rule,
                        1,
                        x,
                        y,
                        n.data,
                        g,
                        pre.update(a, r)[b],
                        s,
                    ) && other == pre.update(a, r).update(b, s);
                lemma_contributed_functional(k, rule, 0, x, y, n.data, g, pre[a], r1, r2);
                lemma_contributed_functional(
                    k,
                    rule,
                    1,
                    x,
                    y,
                    n.data,
                    g,
                    pre.update(a, r1)[b],
                    s1,
                    s2,
                );
            }
        },
    }
}

/// Under a kernel that is a function, the gradients after the first `i`
/// rules of a pass are determined.
pub(crate) proof fn lemma_continued_functional<K: Fn(Prim) -> u64>(
    k: K,
    nodes: Seq<ValueInfo>,
    order: Seq<Value>,
    i: nat,
    pre: Seq<u64>,
    c1: Seq<u64>,
    c2: Seq<u64>,
)
    requires
        functional(k),
        continued(k, nodes, order, 0, i as int, pre, c1),
        continued(k, nodes, order, 0, i as int, pre, c2),
    ensures
        c1 == c2,
    decreases i,
{
    if i > 0 {
        let m1 = choose|mid: Seq<u64>|
            #![trigger fired(k, nodes, order[i - 1], mid, c1)]
            continued(k, nodes, order, 0, i - 1, pre, mid) && fired(
                k,
                nodes,
                order[i - 1],
                mid,
                c1,
            );
        let m2 = choose|mid: Seq<u64>|
            #![trigger fired(k, nodes, order[i - 1], mid, c2)]
            continued(k, nodes, order, 0, i - 1, pre, mid) && fired(
                k,
                nodes,
                order[i - 1],
                mid,
                c2,
            );
        lemma_continued_functional(k, nodes, order, (i - 1) as nat, pre, m1, m2);
        lemma_fired_functional(k, nodes, order[i - 1], m1, c1, c2);
    }
}

/// The walk reads nothing of the graph but its operand lists.
pub(crate) proof fn lemma_visit_same_graph(
    a: Seq<ValueInfo>,
    b: Seq<ValueInfo>,
    v: Value,
    done: Seq<Value>,
)
    requires
        same_graph(a, b),
    ensures
        visit(a, v, done) == visit(b, v, done),
    decreases v.0, 1int, 0int,
{
    if v.0 >= a.len() || done.contains(v) {
    } else {
        lemma_visit_operands_same_graph(a, b, v, 0, done);
    }
}

/// The walk over operands reads nothing of the graph but its operand lists.
pub(crate) proof fn lemma_visit_operands_same_graph(
    a: Seq<ValueInfo>,
    b: Seq<ValueInfo>,
    v: Value,
    j: int,
    done: Seq<Value>,
)
    requires
        same_graph(a, b),
        v.0 < a.len(),
    ensures
        visit_operands(a, v, j, done) == visit_operands(b, v, j, done),
    decreases v.0, 0int, a[v.0 as int].prev@.len() - j,
{
    assert(b[v.0 as int].prev == a[v.0 as int].prev);
    let prev = a[v.0 as int].prev@;
    if j < 0 || j >= prev.len() || prev[j].0 >= v.0 {
    } else {
        lemma_visit_same_graph(a, b, prev[j], done);
        lemma_visit_operands_same_graph(a, b, v, j + 1, visit(a, prev[j], done));
    }
}

/// The rules of a pass read nothing of the graph but what `same_graph` keeps.
pub(crate) proof fn lemma_continued_same_graph<K: Fn(Prim) -> u64>(
    k: K,
    a: Seq<ValueInfo>,
    b: Seq<ValueInfo>,
    order: Seq<Value>,
    i: nat,
    pre: Seq<u64>,
    cur: Seq<u64>,
)
    requires
        well_formed(a),
        same_graph(a, b),
        within(a, order),
        i <= order.len(),
        continued(k, a, order, 0, i as int, pre, cur),
    ensures
        continued(k, b, order, 0, i as int, pre, cur),
    decreases i,
{
    if i > 0 {
        let mid = choose|mid: Seq<u64>|
            #![trigger fired(k, a, order[i - 1], mid, cur)]
            continued(k, a, order, 0, i - 1, pre, mid) && fired(
                k,
                a,
                order[i - 1],
                mid,
                cur,
            );
        lemma_continued_same_graph(k, a, b, order, (i - 1) as nat, pre, mid);
        lemma_fired_same_graph(k, a, b, order[i - 1], mid, cur);
        assert(fired(k, b, order[i - 1], mid, cur));
    }
}

/// A pass can be cut in two: what the first `hi` rules do, the first `i` do
/// up to some gradients, from which the rest goes on.
pub(crate) proof fn lemma_continued_split<K: Fn(Prim) -> u64>(
    k: K,
    nodes: Seq<ValueInfo>,
    order: Seq<Value>,
    i: nat,
    hi: nat,
    pre: Seq<u64>,
    post: Seq<u64>,
) -> (mid: Seq<u64>)
    requires
        i <= hi <= order.len(),
        continued(k, nodes, order, 0, hi as int, pre, post),
    ensures
        continued(k, nodes, order, 0, i as int, pre, mid),
        continued(k, nodes, order, i as int, hi as int, mid, post),
    decreases hi,
{
    if i == hi {
        post
    } else {
        let last = choose|last: Seq<u64>|
            #![trigger fired(k, nodes, order[hi - 1], last, post)]
            continued(k, nodes, order, 0, hi - 1, pre, last) && fired(
                k,
                nodes,
                order[hi - 1],
                last,
                post,
            );
        let mid = lemma_continued_split(k, nodes, order, i, (hi - 1) as nat, pre, last);
        assert(continued(k, nodes, order, i as int, hi - 1, mid, last));
        assert(fired(k, nodes, order[hi as int - 1], last, post));
        mid
    }
}

/// A leaf depends on nothing but itself.
pub(crate) proof fn lemma_leaf_depends(nodes: Seq<ValueInfo>, v: Value, w: Value)
    requires
        well_formed(nodes),
        is_leaf(nodes, v),
        depends_on(nodes, v, w),
    ensures
        w == v,
{
    assert(node_ok(nodes, v.0 as int));
}

/// Leaves apply no rule: where the entries of `order` from position `j` up
/// to position `i` are leaves, the first `i` rules of a pass do what the first
/// `j` do.
pub(crate) proof fn lemma_continued_leaves<K: Fn(Prim) -> u64>(
    k: K,
    nodes: Seq<ValueInfo>,
    order: Seq<Value>,
    j: nat,
    i: nat,
    pre: Seq<u64>,
    cur: Seq<u64>,
)
    requires
        j <= i <= order.len(),
        forall|m: int| j <= m < i ==> is_leaf(nodes, #[trigger] order[m]),
        continued(k, nodes, order, 0, i as int, pre, cur),
    ensures
        continued(k, nodes, order, 0, j as int, pre, cur),
    decreases i,
{
    if i > j {
        let mid = choose|mid: Seq<u64>|
            #![trigger fired(k, nodes, order[i - 1], mid, cur)]
            continued(k, nodes, order, 0, i - 1, pre, mid) && fired(
                k,
                nodes,
                order[i - 1],
                mid,
                cur,
            );
        assert(is_leaf(nodes, order[i - 1]));
        lemma_continued_leaves(k, nodes, order, j, (i - 1) as nat, pre, mid);
    }
}

/// A visit of a leaf that is not on the record appends it.
pub(crate) proof fn lemma_visit_leaf(nodes: Seq<ValueInfo>, v: Value, done: Seq<Value>)
    requires
        well_formed(nodes),
        is_leaf(nodes, v),
        !done.contains(v),
    ensures
        visit(nodes, v, done) == done.push(v),
{
    assert(node_ok(nodes, v.0 as int));
}

/// Gradients apart, `b` holds the graph of `a`, so it is well formed where
/// `a` is.
pub(crate) proof fn lemma_same_graph_well_formed(a: Seq<ValueInfo>, b: Seq<ValueInfo>)
    requires
        well_formed(a),
        same_graph(a, b),
    ensures
        well_formed(b),
{
    assert forall|i: int| 0 <= i < b.len() implies #[trigger] node_ok(b, i) by {
        assert(node_ok(a, i));
        assert(b[i].prev == a[i].prev);
    }
}

/// A rule and the stretch of a pass behind it make a stretch.
pub(crate) proof fn lemma_continued_prepend<K: Fn(Prim) -> u64>(
    k: K,
    nodes: Seq<ValueInfo>,
    order: Seq<Value>,
    lo: int,
    hi: int,
    s: Seq<u64>,
    t: Seq<u64>,
    u: Seq<u64>,
)
    requires
        0 <= lo < hi <= order.len(),
        fired(k, nodes, order[lo], s, t),
        continued(k, nodes, order, lo + 1, hi, t, u),
    ensures
        continued(k, nodes, order, lo, hi, s, u),
    decreases hi - lo,
{
    if hi == lo + 1 {
        assert(continued(k, nodes, order, lo, lo, s, s));
        assert(fired(k, nodes, order[hi - 1], s, u));
    } else {
        let m = choose|m: Seq<u64>|
            #![trigger fired(k, nodes, order[hi - 1], m, u)]
            continued(k, nodes, order, lo + 1, hi - 1, t, m) && fired(
                k,
                nodes,
                order[hi - 1],
                m,
                u,
            );
        lemma_continued_prepend(k, nodes, order, lo, hi - 1, s, t, m);
        assert(fired(k, nodes, order[hi - 1], m, u));
    }
}

} // verus!
