//! The order in which a backward pass walks the graph.
//!
//! A depth-first walk from the output visits the operands of a node, in their
//! order, before the node itself, and no node twice. Read backwards, the
//! record of that walk lists every node before each of its operands.

use vstd::prelude::*;
use crate::node::{node_ok, well_formed, Value, ValueInfo};

verus! {

/// The record `done` after a visit of `v`: unchanged where `v` is on it (or
/// stands outside the graph), else extended by what the operands of `v` add to
/// it, and then by `v`.
pub open spec fn visit(nodes: Seq<ValueInfo>, v: Value, done: Seq<Value>) -> Seq<Value>
    decreases v.0, 1int, 0int,
{
    if v.0 >= nodes.len() || done.contains(v) {
        done
    } else {
        visit_operands(nodes, v, 0, done).push(v)
    }
}

/// The record `done` after visits of the operands of `v` from position `j` on.
pub open spec fn visit_operands(nodes: Seq<ValueInfo>, v: Value, j: int, done: Seq<Value>) -> Seq<
    Value,
>
    decreases v.0, 0int, nodes[v.0 as int].prev@.len() - j,
{
    let prev = nodes[v.0 as int].prev@;
    if j < 0 || j >= prev.len() || prev[j].0 >= v.0 {
        done
    } else {
        visit_operands(nodes, v, j + 1, visit(nodes, prev[j], done))
    }
}

/// The nodes that `root` depends on, itself included, each after its operands.
pub open spec fn post_order(nodes: Seq<ValueInfo>, root: Value) -> Seq<Value> {
    visit(nodes, root, Seq::empty())
}

/// The order of a backward pass from `root`: each node before its operands.
pub open spec fn backward_order(nodes: Seq<ValueInfo>, root: Value) -> Seq<Value> {
    post_order(nodes, root).reverse()
}

/// `v` depends on `w`: `w` is `v` itself, or an operand of `v` depends on `w`.
pub open spec fn depends_on(nodes: Seq<ValueInfo>, v: Value, w: Value) -> bool
    decreases v.0,
{
    v == w || (v.0 < nodes.len() && exists|j: int|
        0 <= j < nodes[v.0 as int].prev@.len() && (#[trigger] nodes[v.0 as int].prev@[j]).0 < v.0
            && depends_on(nodes, nodes[v.0 as int].prev@[j], w))
}

/// `p` is an operand of `v`.
pub open spec fn is_operand(nodes: Seq<ValueInfo>, v: Value, p: Value) -> bool {
    v.0 < nodes.len() && nodes[v.0 as int].prev@.contains(p)
}

/// Every operand of an entry of `s` stands somewhere before that entry.
pub open spec fn operands_first(nodes: Seq<ValueInfo>, s: Seq<Value>) -> bool {
    forall|i: int, p: Value|
        0 <= i < s.len() && #[trigger] is_operand(nodes, s[i], p) ==> s.take(i).contains(p)
}

/// Every entry of `s` is a node of the graph.
pub open spec fn within(nodes: Seq<ValueInfo>, s: Seq<Value>) -> bool {
    forall|i: int| 0 <= i < s.len() ==> (#[trigger] s[i]).0 < nodes.len()
}

/// `r` begins with `s`.
pub open spec fn extends(r: Seq<Value>, s: Seq<Value>) -> bool {
    s.len() <= r.len() && forall|i: int| 0 <= i < s.len() ==> r[i] == s[i]
}

/// A record of finished visits: nodes of the graph, none twice, each behind
/// its operands.
pub open spec fn record_ok(nodes: Seq<ValueInfo>, s: Seq<Value>) -> bool {
    within(nodes, s) && s.no_duplicates() && operands_first(nodes, s)
}

/// What a node depends on stands at or before it on the tape.
pub(crate) proof fn lemma_depends_on_bound(nodes: Seq<ValueInfo>, v: Value, w: Value)
    requires
        depends_on(nodes, v, w),
    ensures
        w.0 <= v.0,
    decreases v.0,
{
    if v != w {
        let j = choose|j: int|
            0 <= j < nodes[v.0 as int].prev@.len() && (#[trigger] nodes[v.0 as int].prev@[j]).0
                < v.0 && depends_on(nodes, nodes[v.0 as int].prev@[j], w);
        lemma_depends_on_bound(nodes, nodes[v.0 as int].prev@[j], w);
    }
}

/// A well-formed graph has no cycle: no operand of a node depends on that
/// node.
pub proof fn graph_has_no_cycle(nodes: Seq<ValueInfo>, v: Value, p: Value)
    requires
        well_formed(nodes),
        is_operand(nodes, v, p),
    ensures
        !depends_on(nodes, p, v),
{
    assert(node_ok(nodes, v.0 as int));
    let prev = nodes[v.0 as int].prev@;
    let j = choose|j: int| 0 <= j < prev.len() && prev[j] == p;
    assert(nodes[v.0 as int].prev@[j].0 < v.0);
    if depends_on(nodes, p, v) {
        lemma_depends_on_bound(nodes, p, v);
    }
}

/// Dependence is transitive.
pub(crate) proof fn lemma_depends_on_trans(nodes: Seq<ValueInfo>, a: Value, b: Value, c: Value)
    requires
        depends_on(nodes, a, b),
        depends_on(nodes, b, c),
    ensures
        depends_on(nodes, a, c),
    decreases a.0,
{
    if a != b {
        let prev = nodes[a.0 as int].prev@;
        let j = choose|j: int|
            0 <= j < prev.len() && (#[trigger] prev[j]).0 < a.0 && depends_on(nodes, prev[j], b);
        lemma_depends_on_trans(nodes, prev[j], b, c);
    }
}

/// A node depends on each of its operands.
pub(crate) proof fn lemma_depends_on_operand(nodes: Seq<ValueInfo>, v: Value, j: int)
    requires
        well_formed(nodes),
        v.0 < nodes.len(),
        0 <= j < nodes[v.0 as int].prev@.len(),
    ensures
        depends_on(nodes, v, nodes[v.0 as int].prev@[j]),
        is_operand(nodes, v, nodes[v.0 as int].prev@[j]),
        nodes[v.0 as int].prev@[j].0 < v.0,
{
    assert(node_ok(nodes, v.0 as int));
    let p = nodes[v.0 as int].prev@[j];
    assert(depends_on(nodes, p, p));
}

/// What a root depends on, it depends on with all its operands.
pub(crate) proof fn lemma_operand_depends(nodes: Seq<ValueInfo>, root: Value, v: Value, p: Value)
    requires
        well_formed(nodes),
        depends_on(nodes, root, v),
        is_operand(nodes, v, p),
    ensures
        depends_on(nodes, root, p),
    decreases root.0,
{
    assert(node_ok(nodes, v.0 as int));
    if root == v {
        let prev = nodes[v.0 as int].prev@;
    let j = choose|j: int| 0 <= j < prev.len() && prev[j] == p;
        assert(nodes[v.0 as int].prev@[j].0 < v.0);
        assert(depends_on(nodes, p, p));
    } else {
        let prev = nodes[root.0 as int].prev@;
        let j = choose|j: int|
            0 <= j < prev.len() && (#[trigger] prev[j]).0 < root.0 && depends_on(nodes, prev[j], v);
        lemma_operand_depends(nodes, prev[j], v, p);
    }
}

/// What begins with `s` holds what `s` holds.
pub(crate) proof fn lemma_extends_contains(r: Seq<Value>, s: Seq<Value>, w: Value)
    requires
        extends(r, s),
        s.contains(w),
    ensures
        r.contains(w),
{
    let i = choose|i: int| 0 <= i < s.len() && s[i] == w;
    assert(r[i] == w);
}

/// A visit of `v` keeps the record sound, only appends to it, appends only
/// what `v` depends on, and leaves `v` on it.
pub(crate) proof fn lemma_visit(nodes: Seq<ValueInfo>, v: Value, done: Seq<Value>)
    requires
        well_formed(nodes),
        record_ok(nodes, done),
    ensures
        record_ok(nodes, visit(nodes, v, done)),
        extends(visit(nodes, v, done), done),
        forall|w: Value| #[trigger]
            visit(nodes, v, done).contains(w) ==> done.contains(w) || depends_on(nodes, v, w),
        v.0 < nodes.len() ==> visit(nodes, v, done).contains(v),
    decreases v.0, 1int, 0int,
{
    if v.0 >= nodes.len() || done.contains(v) {
    } else {
        let r0 = visit_operands(nodes, v, 0, done);
        let r = r0.push(v);
        let prev = nodes[v.0 as int].prev@;
        assert(node_ok(nodes, v.0 as int));
        lemma_visit_operands(nodes, v, 0, done);
        assert(!r0.contains(v));
        assert(r.no_duplicates());
        assert(r[r0.len() as int] == v);
        assert(r.contains(v));
        assert forall|w: Value| #[trigger] r.contains(w) implies done.contains(w) || depends_on(
            nodes,
            v,
            w,
        ) by {
            let i = choose|i: int| 0 <= i < r.len() && r[i] == w;
            if i < r0.len() {
                assert(r0[i] == w);
                assert(r0.contains(w));
            }
        }
        assert forall|i: int, p: Value| 0 <= i < r.len() && #[trigger] is_operand(
            nodes,
            r[i],
            p,
        ) implies r.take(i).contains(p) by {
            if i < r0.len() {
                assert(r0[i] == r[i]);
                assert(r0.take(i).contains(p));
                assert(r.take(i) =~= r0.take(i));
            } else {
                let j = choose|j: int| 0 <= j < prev.len() && prev[j] == p;
                assert(r0.contains(prev[j]));
                assert(r.take(i) =~= r0);
            }
        }
    }
}

/// Visits of the operands of `v` from position `j` on keep the record sound,
/// only append to it, append only nodes before `v` that `v` depends on, and
/// leave those operands on it.
pub(crate) proof fn lemma_visit_operands(nodes: Seq<ValueInfo>, v: Value, j: int, done: Seq<Value>)
    requires
        well_formed(nodes),
        record_ok(nodes, done),
        v.0 < nodes.len(),
        0 <= j <= nodes[v.0 as int].prev@.len(),
    ensures
        record_ok(nodes, visit_operands(nodes, v, j, done)),
        extends(visit_operands(nodes, v, j, done), done),
        forall|w: Value| #[trigger]
            visit_operands(nodes, v, j, done).contains(w) ==> done.contains(w) || (depends_on(
                nodes,
                v,
                w,
            ) && w.0 < v.0),
        forall|m: int|
            j <= m < nodes[v.0 as int].prev@.len() ==> visit_operands(nodes, v, j, done).contains(
                #[trigger] nodes[v.0 as int].prev@[m],
            ),
    decreases v.0, 0int, nodes[v.0 as int].prev@.len() - j,
{
    let prev = nodes[v.0 as int].prev@;
    assert(node_ok(nodes, v.0 as int));
    if j < prev.len() {
        let p = prev[j];
        let r1 = visit(nodes, p, done);
        let r = visit_operands(nodes, v, j + 1, r1);
        lemma_visit(nodes, p, done);
        lemma_visit_operands(nodes, v, j + 1, r1);
        assert forall|w: Value| #[trigger] r.contains(w) implies done.contains(w) || (depends_on(
            nodes,
            v,
            w,
        ) && w.0 < v.0) by {
            if r1.contains(w) && !done.contains(w) {
                assert(depends_on(nodes, p, w));
                lemma_depends_on_bound(nodes, p, w);
            }
        }
        assert forall|m: int| j <= m < prev.len() implies r.contains(#[trigger] prev[m]) by {
            if m == j {
                lemma_extends_contains(r, r1, p);
            }
        }
    }
}

/// A record that holds each entry's operands holds all that an entry depends on.
pub(crate) proof fn lemma_record_closed(nodes: Seq<ValueInfo>, s: Seq<Value>, x: Value, w: Value)
    requires
        operands_first(nodes, s),
        s.contains(x),
        depends_on(nodes, x, w),
    ensures
        s.contains(w),
    decreases x.0,
{
    if x != w {
        let prev = nodes[x.0 as int].prev@;
        let j = choose|j: int|
            0 <= j < prev.len() && (#[trigger] prev[j]).0 < x.0 && depends_on(nodes, prev[j], w);
        let i = choose|i: int| 0 <= i < s.len() && s[i] == x;
        assert(is_operand(nodes, s[i], prev[j]));
        let m = choose|m: int| 0 <= m < s.take(i).len() && s.take(i)[m] == prev[j];
        assert(s[m] == prev[j]);
        lemma_record_closed(nodes, s, prev[j], w);
    }
}

/// The order of a backward pass holds exactly the nodes that the root
/// depends on.
pub proof fn order_is_complete(nodes: Seq<ValueInfo>, root: Value)
    requires
        well_formed(nodes),
        root.0 < nodes.len(),
    ensures
        forall|w: Value| #[trigger]
            backward_order(nodes, root).contains(w) <==> depends_on(nodes, root, w),
{
    let post = post_order(nodes, root);
    let order = backward_order(nodes, root);
    lemma_visit(nodes, root, Seq::empty());
    assert forall|w: Value| #[trigger] order.contains(w) <==> depends_on(nodes, root, w) by {
        if order.contains(w) {
            let i = choose|i: int| 0 <= i < order.len() && order[i] == w;
            assert(post[post.len() - 1 - i] == w);
            assert(post.contains(w));
        }
        if depends_on(nodes, root, w) {
            lemma_record_closed(nodes, post, root, w);
            let i = choose|i: int| 0 <= i < post.len() && post[i] == w;
            assert(order[post.len() - 1 - i] == w);
        }
    }
}

/// The order of a backward pass holds no node twice.
pub proof fn order_has_no_repeats(nodes: Seq<ValueInfo>, root: Value)
    requires
        well_formed(nodes),
    ensures
        backward_order(nodes, root).no_duplicates(),
{
    let post = post_order(nodes, root);
    let order = backward_order(nodes, root);
    lemma_visit(nodes, root, Seq::empty());
    assert forall|i: int, j: int|
        0 <= i < order.len() && 0 <= j < order.len() && i != j implies order[i] != order[j] by {
        assert(order[i] == post[post.len() - 1 - i]);
        assert(order[j] == post[post.len() - 1 - j]);
    }
}

/// The order of a backward pass begins with the root.
pub proof fn order_starts_at_root(nodes: Seq<ValueInfo>, root: Value)
    requires
        root.0 < nodes.len(),
    ensures
        backward_order(nodes, root).len() > 0,
        backward_order(nodes, root)[0] == root,
{
    let post = post_order(nodes, root);
    assert(!Seq::<Value>::empty().contains(root));
    assert(post == visit_operands(nodes, root, 0, Seq::empty()).push(root));
    assert(post[post.len() - 1] == root);
}

/// In the order of a backward pass every node stands before each of its
/// operands: when a node hands its gradient on, every node that takes it as an
/// operand has already done so.
pub proof fn order_puts_consumers_first(nodes: Seq<ValueInfo>, root: Value)
    requires
        well_formed(nodes),
    ensures
        forall|i: int, m: int|
            0 <= i < backward_order(nodes, root).len() && 0 <= m < backward_order(
                nodes,
                root,
            ).len() && #[trigger] is_operand(
                nodes,
                backward_order(nodes, root)[i],
                backward_order(nodes, root)[m],
            ) ==> i < m,
{
    let post = post_order(nodes, root);
    let order = backward_order(nodes, root);
    let n = post.len() as int;
    lemma_visit(nodes, root, Seq::empty());
    assert forall|i: int, m: int|
        0 <= i < order.len() && 0 <= m < order.len() && #[trigger] is_operand(
            nodes,
            order[i],
            order[m],
        ) implies i < m by {
        let pi = n - 1 - i;
        let pm = n - 1 - m;
        assert(order[i] == post[pi]);
        assert(order[m] == post[pm]);
        assert(is_operand(nodes, post[pi], post[pm]));
        let q = choose|q: int| 0 <= q < post.take(pi).len() && post.take(pi)[q] == post[pm];
        assert(post[q] == post[pm]);
        assert(q == pm);
    }
}

/// The order of a backward pass holds only nodes of the graph, as many as the
/// walk has recorded.
pub(crate) proof fn lemma_backward_order_within(nodes: Seq<ValueInfo>, root: Value)
    requires
        well_formed(nodes),
    ensures
        within(nodes, backward_order(nodes, root)),
        backward_order(nodes, root).len() == post_order(nodes, root).len(),
{
    lemma_visit(nodes, root, Seq::empty());
}

} // verus!
