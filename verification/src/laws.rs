//! What holds of every backward pass, and of the passes over small graphs.

use vstd::prelude::*;
use crate::kernel::{functional, gives, Prim, ONE, ZERO};
use crate::node::{
    grads, is_leaf, node_ok, same_graph, well_formed, Rule, Value, ValueInfo,
};
use crate::order::{
    backward_order, depends_on, is_operand, lemma_backward_order_within, lemma_depends_on_bound,
    lemma_operand_depends, order_has_no_repeats, order_is_complete, order_puts_consumers_first,
    order_starts_at_root, post_order, visit, visit_operands,
};
use crate::pass::{
    lemma_continued_frame, lemma_continued_functional, lemma_continued_leaves,
    lemma_continued_prepend, lemma_continued_same_graph, lemma_continued_split,
    lemma_fired_same_graph, lemma_leaf_depends, lemma_local_functional,
    lemma_same_graph_well_formed, lemma_visit_leaf, lemma_visit_same_graph,
};
use crate::rules::{
    accumulated, continued, contributed, fired, local, operand_data, receives, summed, swept, uses,
};

verus! {

/// A backward pass leaves the root's gradient at `1.0` and touches no
/// gradient of a node that the root does not depend on.
pub proof fn pass_changes_only_dependencies<K: Fn(Prim) -> u64>(
    k: K,
    nodes: Seq<ValueInfo>,
    root: Value,
    post: Seq<u64>,
)
    requires
        well_formed(nodes),
        root.0 < nodes.len(),
        swept(k, nodes, root, post),
    ensures
        post.len() == nodes.len(),
        post[root.0 as int] == ONE,
        forall|x: int|
            0 <= x < nodes.len() && !depends_on(nodes, root, Value(x as usize))
                ==> #[trigger] post[x] == nodes[x].grad,
{
    let order = backward_order(nodes, root);
    let seeded = grads(nodes).update(root.0 as int, ONE);
    lemma_backward_order_within(nodes, root);
    order_is_complete(nodes, root);
    lemma_continued_frame(k, nodes, order, 0, order.len() as int, seeded, post);
    assert forall|w: Value, m: int| 0 <= m < order.len() && #[trigger] is_operand(
        nodes,
        order[m],
        w,
    ) implies depends_on(nodes, root, w) by {
        assert(order.contains(order[m]));
        lemma_operand_depends(nodes, root, order[m], w);
    }
    assert forall|m: int| 0 <= m < order.len() implies !is_operand(
        nodes,
        #[trigger] order[m],
        root,
    ) by {
        if is_operand(nodes, order[m], root) {
            assert(node_ok(nodes, order[m].0 as int));
            let j = choose|j: int|
                0 <= j < nodes[order[m].0 as int].prev@.len() && nodes[order[m].0 as int].prev@[j]
                    == root;
            assert(nodes[order[m].0 as int].prev@[j].0 < order[m].0);
            assert(order.contains(order[m]));
            lemma_depends_on_bound(nodes, root, order[m]);
        }
    }
    assert(Value(root.0 as int as usize) == root);
}

/// The gradient that a node hands on is its final one. When the node at
/// position `i` of the order applies its backward rule, every node that takes
/// it as an operand has applied its own, so no later rule of the pass changes
/// its gradient: `mid`, the gradients after the first `i` rules, holds for it
/// what the pass leaves.
pub proof fn handed_on_gradient_is_final<K: Fn(Prim) -> u64>(
    k: K,
    nodes: Seq<ValueInfo>,
    root: Value,
    post: Seq<u64>,
    i: nat,
) -> (mid: Seq<u64>)
    requires
        well_formed(nodes),
        root.0 < nodes.len(),
        swept(k, nodes, root, post),
        i < backward_order(nodes, root).len(),
    ensures
        continued(
            k,
            nodes,
            backward_order(nodes, root),
            0,
            i as int,
            grads(nodes).update(root.0 as int, ONE),
            mid,
        ),
        continued(
            k,
            nodes,
            backward_order(nodes, root),
            i as int,
            backward_order(nodes, root).len() as int,
            mid,
            post,
        ),
        mid[backward_order(nodes, root)[i as int].0 as int] == post[backward_order(
            nodes,
            root,
        )[i as int].0 as int],
{
    let order = backward_order(nodes, root);
    let seeded = grads(nodes).update(root.0 as int, ONE);
    lemma_backward_order_within(nodes, root);
    order_puts_consumers_first(nodes, root);
    let mid = lemma_continued_split(k, nodes, order, i, order.len(), seeded, post);
    lemma_continued_frame(k, nodes, order, 0, i as int, seeded, mid);
    lemma_continued_frame(k, nodes, order, i as int, order.len() as int, mid, post);
    let x = order[i as int];
    assert(Value(x.0 as int as usize) == x);
    mid
}

/// Under a kernel that is a function, a backward pass is one: the tape and
/// the root determine the gradients that it leaves.
pub proof fn pass_is_functional<K: Fn(Prim) -> u64>(
    k: K,
    nodes: Seq<ValueInfo>,
    root: Value,
    one: Seq<u64>,
    other: Seq<u64>,
)
    requires
        functional(k),
        swept(k, nodes, root, one),
        swept(k, nodes, root, other),
    ensures
        one == other,
{
    let order = backward_order(nodes, root);
    lemma_continued_functional(
        k,
        nodes,
        order,
        order.len(),
        grads(nodes).update(root.0 as int, ONE),
        one,
        other,
    );
}

/// A backward pass reads no gradient of the root: two tapes that hold the
/// same graph, with the same gradients but for the root's, admit the same
/// outcomes.
pub proof fn pass_ignores_root_gradient<K: Fn(Prim) -> u64>(
    k: K,
    a: Seq<ValueInfo>,
    b: Seq<ValueInfo>,
    root: Value,
    post: Seq<u64>,
)
    requires
        well_formed(a),
        same_graph(a, b),
        root.0 < a.len(),
        forall|i: int| 0 <= i < a.len() && i != root.0 ==> a[i].grad == b[i].grad,
        swept(k, a, root, post),
    ensures
        swept(k, b, root, post),
{
    lemma_visit_same_graph(a, b, root, Seq::empty());
    lemma_backward_order_within(a, root);
    let order = backward_order(a, root);
    assert(grads(a).update(root.0 as int, ONE) =~= grads(b).update(root.0 as int, ONE));
    lemma_continued_same_graph(
        k,
        a,
        b,
        order,
        order.len(),
        grads(a).update(root.0 as int, ONE),
        post,
    );
}

/// Where every gradient but the root's is put back to what it was before a
/// backward pass, a second pass from the same root leaves the gradients that
/// the first left, under a kernel that is a function.
pub proof fn restored_pass_repeats<K: Fn(Prim) -> u64>(
    k: K,
    first: Seq<ValueInfo>,
    second: Seq<ValueInfo>,
    root: Value,
    once: Seq<u64>,
    twice: Seq<u64>,
)
    requires
        functional(k),
        well_formed(first),
        root.0 < first.len(),
        swept(k, first, root, once),
        same_graph(first, second),
        forall|i: int| 0 <= i < first.len() && i != root.0 ==> second[i].grad == first[i].grad,
        swept(k, second, root, twice),
    ensures
        twice == once,
{
    pass_ignores_root_gradient(k, first, second, root, once);
    pass_is_functional(k, second, root, once, twice);
}

/// `root` is a node of the graph and all its operands are leaves.
pub open spec fn shallow(nodes: Seq<ValueInfo>, root: Value) -> bool {
    root.0 < nodes.len() && forall|j: int|
        0 <= j < nodes[root.0 as int].prev@.len() ==> is_leaf(
            nodes,
            #[trigger] nodes[root.0 as int].prev@[j],
        )
}

/// One more share on top of a sum of shares is a sum of shares.
proof fn lemma_summed_push<K: Fn(Prim) -> u64>(
    k: K,
    nodes: Seq<ValueInfo>,
    order: Seq<Value>,
    g: Seq<u64>,
    us: Seq<(int, int)>,
    m: int,
    pos: int,
    acc: u64,
    mid: u64,
    r: u64,
)
    requires
        summed(k, nodes, order, g, us, acc, mid),
        contributed(
            k,
            nodes[order[m].0 as int]._backward.unwrap(),
            pos,
            operand_data(nodes, order[m], 0),
            operand_data(nodes, order[m], 1),
            nodes[order[m].0 as int].data,
            g[order[m].0 as int],
            mid,
            r,
        ),
    ensures
        summed(k, nodes, order, g, us.push((m, pos)), acc, r),
{
    let longer = us.push((m, pos));
    assert(longer.drop_last() =~= us);
    assert(longer.last() == (m, pos));
    let c = order[longer.last().0];
    let info = nodes[c.0 as int];
    assert(c == order[m]);
    assert(summed(k, nodes, order, g, longer.drop_last(), acc, mid));
    assert(contributed(
        k,
        info._backward.unwrap(),
        longer.last().1,
        operand_data(nodes, c, 0),
        operand_data(nodes, c, 1),
        info.data,
        g[c.0 as int],
        mid,
        r,
    ));
    assert(exists|x: u64|
        summed(k, nodes, order, g, longer.drop_last(), acc, x) && #[trigger] contributed(
            k,
            info._backward.unwrap(),
            longer.last().1,
            operand_data(nodes, c, 0),
            operand_data(nodes, c, 1),
            info.data,
            g[c.0 as int],
            x,
            r,
        ));
}

/// The shares that `n` has taken after the first `hi` rules of a pass, each
/// from a user's final gradient, make up what `mid`, the gradients after those
/// rules, holds for `n`.
proof fn lemma_summed<K: Fn(Prim) -> u64>(
    k: K,
    nodes: Seq<ValueInfo>,
    root: Value,
    post: Seq<u64>,
    hi: nat,
    mid: Seq<u64>,
    n: Value,
)
    requires
        well_formed(nodes),
        root.0 < nodes.len(),
        n.0 < nodes.len(),
        hi <= backward_order(nodes, root).len(),
        continued(
            k,
            nodes,
            backward_order(nodes, root),
            0,
            hi as int,
            grads(nodes).update(root.0 as int, ONE),
            mid,
        ),
        continued(
            k,
            nodes,
            backward_order(nodes, root),
            hi as int,
            backward_order(nodes, root).len() as int,
            mid,
            post,
        ),
    ensures
        summed(
            k,
            nodes,
            backward_order(nodes, root),
            post,
            uses(nodes, backward_order(nodes, root), hi as int, n),
            grads(nodes).update(root.0 as int, ONE)[n.0 as int],
            mid[n.0 as int],
        ),
    decreases hi,
{
    let order = backward_order(nodes, root);
    let seeded = grads(nodes).update(root.0 as int, ONE);
    lemma_backward_order_within(nodes, root);
    if hi > 0 {
        let c = order[hi - 1];
        let info = nodes[c.0 as int];
        let s = choose|s: Seq<u64>|
            #![trigger fired(k, nodes, order[hi - 1], s, mid)]
            continued(k, nodes, order, 0, hi - 1, seeded, s) && fired(
                k,
                nodes,
                order[hi - 1],
                s,
                mid,
            );
        lemma_continued_prepend(k, nodes, order, hi - 1, order.len() as int, s, mid, post);
        lemma_summed(k, nodes, root, post, (hi - 1) as nat, s, n);
        // The gradient that `c` hands on is its final one.
        order_puts_consumers_first(nodes, root);
        lemma_continued_frame(k, nodes, order, 0, hi - 1, seeded, s);
        lemma_continued_frame(k, nodes, order, hi - 1, order.len() as int, s, post);
        assert(Value(c.0 as int as usize) == c);
        assert(s[c.0 as int] == post[c.0 as int]);
        assert(node_ok(nodes, c.0 as int));
        let x = operand_data(nodes, c, 0);
        let y = operand_data(nodes, c, 1);
        let before = uses(nodes, order, hi - 1, n);
        let at = n.0 as int;
        match info._backward {
            None => {},
            Some(rule) => {
                let a = info.prev@[0];
                if rule.receivers() == 1 {
                    let r = choose|r: u64| #[trigger]
                        contributed(k, rule, 0, x, y, info.data, s[c.0 as int], s[a.0 as int], r)
                            && mid == s.update(a.0 as int, r);
                    assert(!receives(info, 1, n));
                    if a == n {
                        lemma_summed_push(
                            k,
                            nodes,
                            order,
                            post,
                            before,
                            hi - 1,
                            0,
                            seeded[at],
                            s[at],
                            r,
                        );
                    }
                } else {
                    let b = info.prev@[1];
                    let (r, t) = choose|r: u64, t: u64|
                        #![trigger s.update(a.0 as int, r).update(b.0 as int, t)]
                        contributed(k, rule, 0, x, y, info.data, s[c.0 as int], s[a.0 as int], r)
                            && contributed(
                            k,
                            rule,
                            1,
                            x,
                            y,
                            info.data,
                            s[c.0 as int],
                            s.update(a.0 as int, r)[b.0 as int],
                            t,
                        ) && mid == s.update(a.0 as int, r).update(b.0 as int, t);
                    let first = if a == n {
                        before.push((hi - 1, 0))
                    } else {
                        before
                    };
                    let held = if a == n {
                        r
                    } else {
                        s[at]
                    };
                    if a == n {
                        lemma_summed_push(
                            k,
                            nodes,
                            order,
                            post,
                            before,
                            hi - 1,
                            0,
                            seeded[at],
                            s[at],
                            r,
                        );
                    }
                    assert(receives(info, 0, n) == (a == n));
                    assert(receives(info, 1, n) == (b == n));
                    if b == n {
                        assert(s.update(a.0 as int, r)[b.0 as int] == held);
                        lemma_summed_push(
                            k,
                            nodes,
                            order,
                            post,
                            first,
                            hi - 1,
                            1,
                            seeded[at],
                            held,
                            t,
                        );
                    }
                }
            },
        }
    }
}

/// The gradient of a node is the sum of the shares of its users. After a
/// backward pass, every node holds the gradient that it had (the root: `1.0`)
/// plus, for each use of it as a receiving operand by a node that the root
/// depends on, in the order of the pass, the share of that user: the
/// derivative of the user with respect to this operand, times the user's
/// final gradient.
pub proof fn gradient_is_sum_of_shares<K: Fn(Prim) -> u64>(
    k: K,
    nodes: Seq<ValueInfo>,
    root: Value,
    post: Seq<u64>,
    n: Value,
)
    requires
        well_formed(nodes),
        root.0 < nodes.len(),
        n.0 < nodes.len(),
        swept(k, nodes, root, post),
    ensures
        summed(
            k,
            nodes,
            backward_order(nodes, root),
            post,
            uses(nodes, backward_order(nodes, root), backward_order(nodes, root).len() as int, n),
            grads(nodes).update(root.0 as int, ONE)[n.0 as int],
            post[n.0 as int],
        ),
{
    let order = backward_order(nodes, root);
    assert(continued(k, nodes, order, order.len() as int, order.len() as int, post, post));
    lemma_summed(k, nodes, root, post, order.len(), post, n);
}

/// A backward pass from a node whose operands are all leaves does what that
/// node's backward rule does to the gradients, the root's set to `1.0`.
pub proof fn shallow_pass<K: Fn(Prim) -> u64>(
    k: K,
    nodes: Seq<ValueInfo>,
    root: Value,
    post: Seq<u64>,
)
    requires
        well_formed(nodes),
        shallow(nodes, root),
        swept(k, nodes, root, post),
    ensures
        fired(k, nodes, root, grads(nodes).update(root.0 as int, ONE), post),
{
    let order = backward_order(nodes, root);
    order_is_complete(nodes, root);
    order_starts_at_root(nodes, root);
    order_has_no_repeats(nodes, root);
    assert forall|m: int| 1 <= m < order.len() implies is_leaf(nodes, #[trigger] order[m]) by {
        let w = order[m];
        assert(order.contains(w));
        assert(w != root);
        let prev = nodes[root.0 as int].prev@;
        let j = choose|j: int|
            0 <= j < prev.len() && (#[trigger] prev[j]).0 < root.0 && depends_on(nodes, prev[j], w);
        lemma_leaf_depends(nodes, prev[j], w);
    }
    let seeded = grads(nodes).update(root.0 as int, ONE);
    lemma_continued_leaves(k, nodes, order, 1, order.len(), seeded, post);
    let mid = choose|mid: Seq<u64>|
        #![trigger fired(k, nodes, order[0], mid, post)]
        continued(k, nodes, order, 0, 0, seeded, mid) && fired(k, nodes, order[0], mid, post);
}

/// The gradients of a sum: after a backward pass from the sum of two distinct
/// leaves `a` and `b`, the gradient of each is what it was plus `1.0 * 1.0`,
/// and that of the sum is `1.0`.
pub proof fn sum_gradients<K: Fn(Prim) -> u64>(
    k: K,
    nodes: Seq<ValueInfo>,
    root: Value,
    a: Value,
    b: Value,
    post: Seq<u64>,
)
    requires
        well_formed(nodes),
        root.0 < nodes.len(),
        nodes[root.0 as int]._backward == Some(Rule::Add),
        nodes[root.0 as int].prev@ == seq![a, b],
        is_leaf(nodes, a),
        is_leaf(nodes, b),
        a != b,
        swept(k, nodes, root, post),
    ensures
        post[root.0 as int] == ONE,
        accumulated(k, ONE, ONE, nodes[a.0 as int].grad, post[a.0 as int]),
        accumulated(k, ONE, ONE, nodes[b.0 as int].grad, post[b.0 as int]),
{
    assert(node_ok(nodes, root.0 as int));
    assert(nodes[root.0 as int].prev@[0] == a && nodes[root.0 as int].prev@[1] == b);
    shallow_pass(k, nodes, root, post);
}

/// The gradients of a product: after a backward pass from the product of two
/// distinct leaves `a` and `b`, the gradient of `a` is what it was plus the
/// value of `b` times `1.0`, that of `b` is what it was plus the value of `a`
/// times `1.0`, and that of the product is `1.0`.
pub proof fn product_gradients<K: Fn(Prim) -> u64>(
    k: K,
    nodes: Seq<ValueInfo>,
    root: Value,
    a: Value,
    b: Value,
    post: Seq<u64>,
)
    requires
        well_formed(nodes),
        root.0 < nodes.len(),
        nodes[root.0 as int]._backward == Some(Rule::Mul),
        nodes[root.0 as int].prev@ == seq![a, b],
        is_leaf(nodes, a),
        is_leaf(nodes, b),
        a != b,
        swept(k, nodes, root, post),
    ensures
        post[root.0 as int] == ONE,
        accumulated(k, nodes[b.0 as int].data, ONE, nodes[a.0 as int].grad, post[a.0 as int]),
        accumulated(k, nodes[a.0 as int].data, ONE, nodes[b.0 as int].grad, post[b.0 as int]),
{
    assert(node_ok(nodes, root.0 as int));
    assert(nodes[root.0 as int].prev@[0] == a && nodes[root.0 as int].prev@[1] == b);
    shallow_pass(k, nodes, root, post);
}

/// The gradient of a hyperbolic tangent: after a backward pass from the
/// hyperbolic tangent `t` of a leaf `a`, the gradient of `a` is what it was
/// plus `(1.0 - t * t) * 1.0`, and that of the root is `1.0`.
pub proof fn tanh_gradient<K: Fn(Prim) -> u64>(
    k: K,
    nodes: Seq<ValueInfo>,
    root: Value,
    a: Value,
    post: Seq<u64>,
)
    requires
        well_formed(nodes),
        root.0 < nodes.len(),
        nodes[root.0 as int]._backward == Some(Rule::Tanh),
        nodes[root.0 as int].prev@ == seq![a],
        is_leaf(nodes, a),
        swept(k, nodes, root, post),
    ensures
        post[root.0 as int] == ONE,
        exists|s: u64, f: u64|
            #![trigger gives(k, Prim::Sub(ONE, s), f)]
            gives(k, Prim::Mul(nodes[root.0 as int].data, nodes[root.0 as int].data), s) && gives(
                k,
                Prim::Sub(ONE, s),
                f,
            ) && accumulated(k, f, ONE, nodes[a.0 as int].grad, post[a.0 as int]),
{
    assert(node_ok(nodes, root.0 as int));
    assert(nodes[root.0 as int].prev@[0] == a);
    shallow_pass(k, nodes, root, post);
}

/// The gradients of a diamond. Let `a` and `b` be distinct leaves, `d` their
/// product and `e` the sum of `d` and `a`, so that `a` is used twice. After a
/// backward pass from `e`, the gradient of `e` is `1.0`; that of `d` is what
/// it was plus `1.0 * 1.0`; that of `a` is what it was, plus `1.0 * 1.0` for
/// its use in `e`, plus the value of `b` times the new gradient of `d` for its
/// use in `d`; and that of `b` is what it was plus the value of `a` times the
/// new gradient of `d`.
pub proof fn diamond_gradients<K: Fn(Prim) -> u64>(
    k: K,
    nodes: Seq<ValueInfo>,
    a: Value,
    b: Value,
    d: Value,
    e: Value,
    post: Seq<u64>,
)
    requires
        well_formed(nodes),
        is_leaf(nodes, a),
        is_leaf(nodes, b),
        a != b,
        d.0 < nodes.len(),
        nodes[d.0 as int]._backward == Some(Rule::Mul),
        nodes[d.0 as int].prev@ == seq![a, b],
        e.0 < nodes.len(),
        nodes[e.0 as int]._backward == Some(Rule::Add),
        nodes[e.0 as int].prev@ == seq![d, a],
        swept(k, nodes, e, post),
    ensures
        post[e.0 as int] == ONE,
        exists|ga: u64|
            #![trigger accumulated(k, ONE, ONE, nodes[a.0 as int].grad, ga)]
            accumulated(k, ONE, ONE, nodes[d.0 as int].grad, post[d.0 as int]) && accumulated(
                k,
                ONE,
                ONE,
                nodes[a.0 as int].grad,
                ga,
            ) && accumulated(k, nodes[b.0 as int].data, post[d.0 as int], ga, post[a.0 as int])
                && accumulated(
                k,
                nodes[a.0 as int].data,
                post[d.0 as int],
                nodes[b.0 as int].grad,
                post[b.0 as int],
            ),
{
    let empty = Seq::<Value>::empty();
    assert(node_ok(nodes, d.0 as int));
    assert(node_ok(nodes, e.0 as int));
    assert(nodes[d.0 as int].prev@[0] == a && nodes[d.0 as int].prev@[1] == b);
    assert(nodes[e.0 as int].prev@[0] == d && nodes[e.0 as int].prev@[1] == a);
    // The walk: a, b, d, e.
    lemma_visit_leaf(nodes, a, empty);
    assert(empty.push(a) =~= seq![a]);
    assert(!seq![a].contains(b));
    lemma_visit_leaf(nodes, b, seq![a]);
    assert(seq![a].push(b) =~= seq![a, b]);
    assert(visit_operands(nodes, d, 2, seq![a, b]) == seq![a, b]);
    assert(visit_operands(nodes, d, 1, seq![a]) == seq![a, b]);
    assert(visit_operands(nodes, d, 0, empty) == seq![a, b]);
    assert(!empty.contains(d));
    assert(visit(nodes, d, empty) == seq![a, b].push(d));
    assert(seq![a, b].push(d) =~= seq![a, b, d]);
    assert(seq![a, b, d][0] == a);
    assert(seq![a, b, d].contains(a));
    assert(visit(nodes, a, seq![a, b, d]) == seq![a, b, d]);
    assert(visit_operands(nodes, e, 2, seq![a, b, d]) == seq![a, b, d]);
    assert(visit_operands(nodes, e, 1, seq![a, b, d]) == seq![a, b, d]);
    assert(visit_operands(nodes, e, 0, empty) == seq![a, b, d]);
    assert(!empty.contains(e));
    assert(post_order(nodes, e) == seq![a, b, d].push(e));
    let order = backward_order(nodes, e);
    assert(order =~= seq![e, d, b, a]);
    // The pass: e, then d; the leaves change nothing.
    let seeded = grads(nodes).update(e.0 as int, ONE);
    lemma_continued_leaves(k, nodes, order, 2, 4, seeded, post);
    let m1 = choose|mid: Seq<u64>|
        #![trigger fired(k, nodes, order[1], mid, post)]
        continued(k, nodes, order, 0, 1, seeded, mid) && fired(k, nodes, order[1], mid, post);
    let m0 = choose|mid: Seq<u64>|
        #![trigger fired(k, nodes, order[0], mid, m1)]
        continued(k, nodes, order, 0, 0, seeded, mid) && fired(k, nodes, order[0], mid, m1);
    assert(m0 == seeded);
    assert(fired(k, nodes, e, seeded, m1));
    assert(fired(k, nodes, d, m1, post));
    let (gd, ga) = choose|r: u64, s: u64|
        #![trigger seeded.update(d.0 as int, r).update(a.0 as int, s)]
        contributed(
            k,
            Rule::Add,
            0,
            operand_data(nodes, e, 0),
            operand_data(nodes, e, 1),
            nodes[e.0 as int].data,
            ONE,
            seeded[d.0 as int],
            r,
        ) && contributed(
            k,
            Rule::Add,
            1,
            operand_data(nodes, e, 0),
            operand_data(nodes, e, 1),
            nodes[e.0 as int].data,
            ONE,
            seeded.update(d.0 as int, r)[a.0 as int],
            s,
        ) && m1 == seeded.update(d.0 as int, r).update(a.0 as int, s);
    assert(m1[d.0 as int] == gd);
    assert(m1[a.0 as int] == ga);
    assert(m1[b.0 as int] == nodes[b.0 as int].grad);
    assert(accumulated(k, ONE, ONE, nodes[d.0 as int].grad, gd));
    assert(accumulated(k, ONE, ONE, nodes[a.0 as int].grad, ga));
    let (ra, rb) = choose|r: u64, s: u64|
        #![trigger m1.update(a.0 as int, r).update(b.0 as int, s)]
        contributed(
            k,
            Rule::Mul,
            0,
            operand_data(nodes, d, 0),
            operand_data(nodes, d, 1),
            nodes[d.0 as int].data,
            gd,
            m1[a.0 as int],
            r,
        ) && contributed(
            k,
            Rule::Mul,
            1,
            operand_data(nodes, d, 0),
            operand_data(nodes, d, 1),
            nodes[d.0 as int].data,
            gd,
            m1.update(a.0 as int, r)[b.0 as int],
            s,
        ) && post == m1.update(a.0 as int, r).update(b.0 as int, s);
    assert(post[d.0 as int] == gd);
    assert(post[a.0 as int] == ra);
    assert(post[b.0 as int] == rb);
    assert(accumulated(k, nodes[b.0 as int].data, gd, ga, ra));
    assert(accumulated(k, nodes[a.0 as int].data, gd, nodes[b.0 as int].grad, rb));
}

/// Resetting the leaves reproduces a pass over a shallow graph. Let the
/// operands of `root` all be leaves, and let every leaf have the gradient
/// `0.0`. After a backward pass from `root`, let the gradient of every leaf be
/// set to `0.0` again. Then a second pass from `root` leaves exactly the
/// gradients that the first left, under a kernel that is a function.
pub proof fn reset_pass_repeats<K: Fn(Prim) -> u64>(
    k: K,
    first: Seq<ValueInfo>,
    second: Seq<ValueInfo>,
    root: Value,
    once: Seq<u64>,
    twice: Seq<u64>,
)
    requires
        functional(k),
        well_formed(first),
        shallow(first, root),
        forall|i: int|
            0 <= i < first.len() && (#[trigger] first[i])._backward.is_none() ==> first[i].grad
                == ZERO,
        swept(k, first, root, once),
        same_graph(first, second),
        forall|i: int|
            0 <= i < first.len() ==> (#[trigger] second[i]).grad == (if first[i]._backward.is_none(
            ) {
                ZERO
            } else {
                once[i]
            }),
        swept(k, second, root, twice),
    ensures
        twice == once,
{
    pass_changes_only_dependencies(k, first, root, once);
    assert forall|i: int| 0 <= i < first.len() && i != root.0 implies second[i].grad
        == first[i].grad by {
        if first[i]._backward.is_some() {
            assert(node_ok(first, i));
            let w = Value(first[i].id);
            if depends_on(first, root, w) {
                let prev = first[root.0 as int].prev@;
                let j = choose|j: int|
                    0 <= j < prev.len() && (#[trigger] prev[j]).0 < root.0 && depends_on(
                        first,
                        prev[j],
                        w,
                    );
                lemma_leaf_depends(first, prev[j], w);
            }
            assert(once[i] == first[i].grad);
        }
    }
    restored_pass_repeats(k, first, second, root, once, twice);
}

/// `t` is the share that a node with the gradient `g` hands to its operand at
/// position `pos`: the derivative with respect to that operand, times `g`.
pub open spec fn share<K: Fn(Prim) -> u64>(
    k: K,
    rule: Rule,
    pos: int,
    x: u64,
    y: u64,
    out: u64,
    g: u64,
    t: u64,
) -> bool {
    exists|f: u64| #[trigger] local(k, rule, pos, x, y, out, f) && gives(k, Prim::Mul(f, g), t)
}

/// One and the same share of the gradient `1.0` was added to `g0`, which gave
/// `g1`, and then to `g1`, which gave `g2`.
pub open spec fn added_twice<K: Fn(Prim) -> u64>(
    k: K,
    rule: Rule,
    pos: int,
    x: u64,
    y: u64,
    out: u64,
    g0: u64,
    g1: u64,
    g2: u64,
) -> bool {
    exists|t: u64| #[trigger]
        share(k, rule, pos, x, y, out, ONE, t) && gives(k, Prim::Add(g0, t), g1) && gives(
            k,
            Prim::Add(g1, t),
            g2,
        )
}

/// For one share handed on twice, the two results come from one term.
proof fn lemma_added_twice<K: Fn(Prim) -> u64>(
    k: K,
    rule: Rule,
    pos: int,
    x: u64,
    y: u64,
    out: u64,
    g0: u64,
    g1: u64,
    g2: u64,
)
    requires
        functional(k),
        contributed(k, rule, pos, x, y, out, ONE, g0, g1),
        contributed(k, rule, pos, x, y, out, ONE, g1, g2),
    ensures
        added_twice(k, rule, pos, x, y, out, g0, g1, g2),
{
    let f1 = choose|f: u64| #[trigger]
        local(k, rule, pos, x, y, out, f) && accumulated(k, f, ONE, g0, g1);
    let f2 = choose|f: u64| #[trigger]
        local(k, rule, pos, x, y, out, f) && accumulated(k, f, ONE, g1, g2);
    lemma_local_functional(k, rule, pos, x, y, out, f1, f2);
    let t1 = choose|t: u64| #[trigger]
        gives(k, Prim::Mul(f1, ONE), t) && gives(k, Prim::Add(g0, t), g1);
    let t2 = choose|t: u64| #[trigger]
        gives(k, Prim::Mul(f2, ONE), t) && gives(k, Prim::Add(g1, t), g2);
    assert(t1 == t2);
    assert(share(k, rule, pos, x, y, out, ONE, t1));
}

/// Gradients accumulate: a second backward pass adds to what the first left.
/// Let the operands of `root` all be leaves and, where two of them receive a
/// gradient, distinct. After two backward passes from `root` with nothing
/// reset in between, each receiving operand has taken one and the same share
/// twice, on top of the gradient that it had; the root's gradient is `1.0`
/// after either pass; no other gradient has changed. The kernel is taken to be
/// a function.
pub proof fn second_pass_adds_again<K: Fn(Prim) -> u64>(
    k: K,
    first: Seq<ValueInfo>,
    second: Seq<ValueInfo>,
    root: Value,
    rule: Rule,
    once: Seq<u64>,
    twice: Seq<u64>,
)
    requires
        functional(k),
        well_formed(first),
        shallow(first, root),
        first[root.0 as int]._backward == Some(rule),
        rule.receivers() == 2 ==> first[root.0 as int].prev@[0] != first[root.0 as int].prev@[1],
        swept(k, first, root, once),
        same_graph(first, second),
        grads(second) == once,
        swept(k, second, root, twice),
    ensures
        once[root.0 as int] == ONE,
        twice[root.0 as int] == ONE,
        added_twice(
            k,
            rule,
            0,
            operand_data(first, root, 0),
            operand_data(first, root, 1),
            first[root.0 as int].data,
            first[first[root.0 as int].prev@[0].0 as int].grad,
            once[first[root.0 as int].prev@[0].0 as int],
            twice[first[root.0 as int].prev@[0].0 as int],
        ),
        rule.receivers() == 2 ==> added_twice(
            k,
            rule,
            1,
            operand_data(first, root, 0),
            operand_data(first, root, 1),
            first[root.0 as int].data,
            first[first[root.0 as int].prev@[1].0 as int].grad,
            once[first[root.0 as int].prev@[1].0 as int],
            twice[first[root.0 as int].prev@[1].0 as int],
        ),
        forall|i: int|
            0 <= i < first.len() && i != root.0 && !(exists|pos: int|
                0 <= pos < rule.receivers() && #[trigger] first[root.0 as int].prev@[pos].0 == i)
                ==> #[trigger] twice[i] == first[i].grad && once[i] == first[i].grad,
{
    let n = first[root.0 as int];
    let x = operand_data(first, root, 0);
    let y = operand_data(first, root, 1);
    let a = n.prev@[0].0 as int;
    assert(node_ok(first, root.0 as int));
    lemma_same_graph_well_formed(first, second);
    assert(second[root.0 as int].prev == first[root.0 as int].prev);
    assert forall|j: int| 0 <= j < second[root.0 as int].prev@.len() implies is_leaf(
        second,
        #[trigger] second[root.0 as int].prev@[j],
    ) by {
        assert(is_leaf(first, first[root.0 as int].prev@[j]));
    }
    pass_changes_only_dependencies(k, first, root, once);
    pass_changes_only_dependencies(k, second, root, twice);
    shallow_pass(k, first, root, once);
    shallow_pass(k, second, root, twice);
    let s0 = grads(first).update(root.0 as int, ONE);
    let s1 = grads(second).update(root.0 as int, ONE);
    assert(s1 =~= once);
    lemma_fired_same_graph(k, first, second, root, s1, twice);
    assert(fired(k, first, root, once, twice));
    assert(is_leaf(first, n.prev@[0]));
    if rule.receivers() == 1 {
        let r1 = choose|r: u64| #[trigger]
            contributed(k, rule, 0, x, y, n.data, ONE, s0[a], r) && once == s0.update(a, r);
        let r2 = choose|r: u64| #[trigger]
            contributed(k, rule, 0, x, y, n.data, ONE, once[a], r) && twice == once.update(a, r);
        lemma_added_twice(k, rule, 0, x, y, n.data, first[a].grad, r1, r2);
    } else {
        let b = n.prev@[1].0 as int;
        assert(is_leaf(first, n.prev@[1]));
        let (r1, t1) = choose|r: u64, s: u64|
            #![trigger s0.update(a, r).update(b, s)]
            contributed(k, rule, 0, x, y, n.data, ONE, s0[a], r) && contributed(
                k,
                rule,
                1,
                x,
                y,
                n.data,
                ONE,
                s0.update(a, r)[b],
                s,
            ) && once == s0.update(a, r).update(b, s);
        let (r2, t2) = choose|r: u64, s: u64|
            #![trigger once.update(a, r).update(b, s)]
            contributed(k, rule, 0, x, y, n.data, ONE, once[a], r) && contributed(
                k,
                rule,
                1,
                x,
                y,
                n.data,
                ONE,
                once.update(a, r)[b],
                s,
            ) && twice == once.update(a, r).update(b, s);
        lemma_added_twice(k, rule, 0, x, y, n.data, first[a].grad, r1, r2);
        lemma_added_twice(k, rule, 1, x, y, n.data, first[b].grad, t1, t2);
    }
    assert forall|i: int|
        0 <= i < first.len() && i != root.0 && !(exists|pos: int|
            0 <= pos < rule.receivers() && #[trigger] first[root.0 as int].prev@[pos].0 == i)
            implies #[trigger] twice[i] == first[i].grad && once[i] == first[i].grad by {
        assert(n.prev@[0].0 != i);
        if rule.receivers() == 2 {
            assert(n.prev@[1].0 != i);
        }
    }
}

} // verus!
