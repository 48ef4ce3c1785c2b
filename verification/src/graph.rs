//! The graph below a node, laid out for drawing: its nodes in the order in
//! which a depth-first walk meets them, and an edge from every operand to the
//! node that takes it.

use vstd::prelude::*;
use crate::engine::{marks, Tape};
use crate::kernel::Prim;
use crate::node::{node_ok, well_formed, Op, Value, ValueInfo};
use crate::order::{
    depends_on, extends, is_operand, lemma_depends_on_bound, lemma_depends_on_operand,
    lemma_depends_on_trans, lemma_extends_contains, within,
};

verus! {

/// An edge of the drawing, from an operand to a node that takes it; `op` is
/// the operand's tag.
#[derive(Clone, Copy, Debug, PartialEq, Eq)]
pub struct Edge {
    pub from: Value,
    pub to: Value,
    pub op: Option<Op>,
}

/// A drawing: nodes and edges between them.
#[derive(Debug)]
pub struct Drawing {
    pub nodes: Vec<Value>,
    pub edges: Vec<Edge>,
}

/// The sign under which an operation is drawn.
pub fn symbol(op: Option<Op>) -> (s: &'static str)
    ensures
        s@ == symbol_of(op),
{
    match op {
        Some(Op::Add) => "+",
        Some(Op::Mul) => "*",
        Some(Op::Tanh) => "tanh",
        Some(Op::Exp) => "exp",
        None => "",
    }
}

/// The sign under which an operation is drawn: nothing for a node without a
/// tag.
pub open spec fn symbol_of(op: Option<Op>) -> Seq<char> {
    match op {
        Some(Op::Add) => "+"@,
        Some(Op::Mul) => "*"@,
        Some(Op::Tanh) => "tanh"@,
        Some(Op::Exp) => "exp"@,
        None => ""@,
    }
}

/// The drawing `(seen, edges)` after a visit of `v`: unchanged where `v` is
/// drawn already (or stands outside the graph); else `v` is added to the
/// nodes, and then each operand in turn is visited and joined to `v` by an
/// edge.
pub open spec fn drawn(nodes: Seq<ValueInfo>, v: Value, seen: Seq<Value>, edges: Seq<Edge>) -> (
    Seq<Value>,
    Seq<Edge>,
)
    decreases v.0, 1int, 0int,
{
    if v.0 >= nodes.len() || seen.contains(v) {
        (seen, edges)
    } else {
        drawn_operands(nodes, v, 0, seen.push(v), edges)
    }
}

/// The drawing `(seen, edges)` after the operands of `v` from position `j`
/// on were visited and joined to `v`.
pub open spec fn drawn_operands(
    nodes: Seq<ValueInfo>,
    v: Value,
    j: int,
    seen: Seq<Value>,
    edges: Seq<Edge>,
) -> (Seq<Value>, Seq<Edge>)
    decreases v.0, 0int, nodes[v.0 as int].prev@.len() - j,
{
    let prev = nodes[v.0 as int].prev@;
    if j < 0 || j >= prev.len() || prev[j].0 >= v.0 {
        (seen, edges)
    } else {
        let (seen1, edges1) = drawn(nodes, prev[j], seen, edges);
        let edge = Edge { from: prev[j], to: v, op: nodes[prev[j].0 as int].op };
        drawn_operands(nodes, v, j + 1, seen1, edges1.push(edge))
    }
}

/// A drawing in progress is sound: its nodes are nodes of the graph, none
/// twice, and every edge joins an operand to a node that takes it, both drawn,
/// under the operand's tag.
pub open spec fn drawing_ok(nodes: Seq<ValueInfo>, seen: Seq<Value>, edges: Seq<Edge>) -> bool {
    &&& within(nodes, seen)
    &&& seen.no_duplicates()
    &&& forall|i: int|
        0 <= i < edges.len() ==> {
            let e = #[trigger] edges[i];
            &&& seen.contains(e.from)
            &&& seen.contains(e.to)
            &&& is_operand(nodes, e.to, e.from)
            &&& e.op == nodes[e.from.0 as int].op
        }
}

/// Every node of `seen` that `v` depends on has all that it depends on in
/// `seen`.
pub open spec fn settled(nodes: Seq<ValueInfo>, seen: Seq<Value>, v: Value) -> bool {
    forall|u: Value, w: Value|
        #![trigger seen.contains(u), depends_on(nodes, u, w)]
        seen.contains(u) && depends_on(nodes, v, u) && depends_on(nodes, u, w) ==> seen.contains(w)
}

/// Every node of `seen` that is neither `v` nor in `before` has all that it
/// depends on in `seen`.
pub open spec fn closed_behind(
    nodes: Seq<ValueInfo>,
    before: Seq<Value>,
    v: Value,
    seen: Seq<Value>,
) -> bool {
    forall|u: Value, w: Value|
        #![trigger seen.contains(u), depends_on(nodes, u, w)]
        seen.contains(u) && !before.contains(u) && u != v && depends_on(nodes, u, w)
            ==> seen.contains(w)
}

/// Every node of `seen` is in `before` or one that `v` depends on.
pub open spec fn grown_from(
    nodes: Seq<ValueInfo>,
    before: Seq<Value>,
    v: Value,
    seen: Seq<Value>,
) -> bool {
    forall|w: Value| #[trigger] seen.contains(w) ==> before.contains(w) || depends_on(nodes, v, w)
}

/// A sound drawing stays sound when nodes are added behind.
pub(crate) proof fn lemma_drawing_ok_extends(
    nodes: Seq<ValueInfo>,
    seen: Seq<Value>,
    longer: Seq<Value>,
    edges: Seq<Edge>,
)
    requires
        drawing_ok(nodes, seen, edges),
        extends(longer, seen),
        within(nodes, longer),
        longer.no_duplicates(),
    ensures
        drawing_ok(nodes, longer, edges),
{
    assert forall|i: int| 0 <= i < edges.len() implies {
        let e = #[trigger] edges[i];
        &&& longer.contains(e.from)
        &&& longer.contains(e.to)
        &&& is_operand(nodes, e.to, e.from)
        &&& e.op == nodes[e.from.0 as int].op
    } by {
        let e = edges[i];
        lemma_extends_contains(longer, seen, e.from);
        lemma_extends_contains(longer, seen, e.to);
    }
}

/// A visit for the drawing keeps the drawing sound, only appends to it,
/// appends only nodes that `v` depends on, and leaves on it all that `v`
/// depends on.
pub(crate) proof fn lemma_drawn(nodes: Seq<ValueInfo>, v: Value, seen: Seq<Value>, edges: Seq<Edge>)
    requires
        well_formed(nodes),
        v.0 < nodes.len(),
        drawing_ok(nodes, seen, edges),
        settled(nodes, seen, v),
    ensures
        drawing_ok(nodes, drawn(nodes, v, seen, edges).0, drawn(nodes, v, seen, edges).1),
        extends(drawn(nodes, v, seen, edges).0, seen),
        grown_from(nodes, seen, v, drawn(nodes, v, seen, edges).0),
        forall|w: Value| #[trigger]
            depends_on(nodes, v, w) ==> drawn(nodes, v, seen, edges).0.contains(w),
    decreases v.0, 1int, 0int,
{
    if seen.contains(v) {
        assert(depends_on(nodes, v, v));
    } else {
        let seen0 = seen.push(v);
        assert(seen0[seen.len() as int] == v);
        lemma_drawing_ok_extends(nodes, seen, seen0, edges);
        assert(grown_from(nodes, seen, v, seen0)) by {
            assert forall|w: Value| #[trigger] seen0.contains(w) implies seen.contains(w)
                || depends_on(nodes, v, w) by {
                let i = choose|i: int| 0 <= i < seen0.len() && seen0[i] == w;
                if i < seen.len() {
                    assert(seen[i] == w);
                }
            }
        }
        assert(closed_behind(nodes, seen, v, seen0)) by {
            assert forall|u: Value, w: Value|
                #![trigger seen0.contains(u), depends_on(nodes, u, w)]
                seen0.contains(u) && !seen.contains(u) && u != v && depends_on(
                    nodes,
                    u,
                    w,
                ) implies seen0.contains(w) by {
                let i = choose|i: int| 0 <= i < seen0.len() && seen0[i] == u;
                assert(seen[i] == u);
            }
        }
        lemma_drawn_operands(nodes, v, 0, seen, seen0, edges);
        let r = drawn_operands(nodes, v, 0, seen0, edges).0;
        assert forall|w: Value| #[trigger] depends_on(nodes, v, w) implies r.contains(w) by {
            if w == v {
                assert(seen0.contains(v));
                lemma_extends_contains(r, seen0, v);
            } else {
                let prev = nodes[v.0 as int].prev@;
                let j = choose|j: int|
                    0 <= j < prev.len() && (#[trigger] prev[j]).0 < v.0 && depends_on(
                        nodes,
                        prev[j],
                        w,
                    );
                let p = prev[j];
                lemma_depends_on_operand(nodes, v, j);
                assert(r.contains(p));
                if seen.contains(p) {
                    assert(seen.contains(w));
                    let i = choose|i: int| 0 <= i < seen.len() && seen[i] == w;
                    assert(seen0[i] == w);
                    assert(seen0.contains(w));
                    lemma_extends_contains(r, seen0, w);
                }
            }
        }
        assert(extends(r, seen));
    }
}

/// Visits of the operands of `v` from position `j` on, for the drawing, keep
/// the drawing sound, only append to it, append only nodes that `v` depends
/// on together with all that these depend on, and leave on it those operands.
/// `before` is the list of nodes before `v` was added to it.
pub(crate) proof fn lemma_drawn_operands(
    nodes: Seq<ValueInfo>,
    v: Value,
    j: int,
    before: Seq<Value>,
    seen: Seq<Value>,
    edges: Seq<Edge>,
)
    requires
        well_formed(nodes),
        v.0 < nodes.len(),
        0 <= j <= nodes[v.0 as int].prev@.len(),
        settled(nodes, before, v),
        !before.contains(v),
        extends(seen, before.push(v)),
        drawing_ok(nodes, seen, edges),
        grown_from(nodes, before, v, seen),
        closed_behind(nodes, before, v, seen),
        forall|m: int| 0 <= m < j ==> seen.contains(#[trigger] nodes[v.0 as int].prev@[m]),
    ensures
        ({
            let r = drawn_operands(nodes, v, j, seen, edges);
            &&& drawing_ok(nodes, r.0, r.1)
            &&& extends(r.0, seen)
            &&& grown_from(nodes, before, v, r.0)
            &&& closed_behind(nodes, before, v, r.0)
            &&& forall|m: int|
                0 <= m < nodes[v.0 as int].prev@.len() ==> r.0.contains(
                    #[trigger] nodes[v.0 as int].prev@[m],
                )
        }),
    decreases v.0, 0int, nodes[v.0 as int].prev@.len() - j,
{
    let prev = nodes[v.0 as int].prev@;
    let at = before.len() as int;
    if j < prev.len() {
        let p = prev[j];
        lemma_depends_on_operand(nodes, v, j);
        assert(settled(nodes, seen, p)) by {
            assert forall|u: Value, w: Value|
                #![trigger seen.contains(u), depends_on(nodes, u, w)]
                seen.contains(u) && depends_on(nodes, p, u) && depends_on(
                    nodes,
                    u,
                    w,
                ) implies seen.contains(w) by {
                lemma_depends_on_bound(nodes, p, u);
                if before.contains(u) {
                    lemma_depends_on_trans(nodes, v, p, u);
                    assert(before.contains(w));
                    let i = choose|i: int| 0 <= i < before.len() && before[i] == w;
                    assert(before.push(v)[i] == w);
                    assert(seen[i] == w);
                }
            }
        }
        lemma_drawn(nodes, p, seen, edges);
        let (seen1, edges1) = drawn(nodes, p, seen, edges);
        assert(depends_on(nodes, p, p));
        assert(seen1.contains(p));
        let edge = Edge { from: p, to: v, op: nodes[p.0 as int].op };
        let edges2 = edges1.push(edge);
        assert(seen1.contains(v)) by {
            assert(before.push(v)[at] == v);
            assert(seen[at] == v);
            assert(seen1[at] == v);
        }
        assert(drawing_ok(nodes, seen1, edges2)) by {
            assert forall|i: int| 0 <= i < edges2.len() implies {
                let e = #[trigger] edges2[i];
                &&& seen1.contains(e.from)
                &&& seen1.contains(e.to)
                &&& is_operand(nodes, e.to, e.from)
                &&& e.op == nodes[e.from.0 as int].op
            } by {
                if i < edges1.len() {
                    assert(edges2[i] == edges1[i]);
                }
            }
        }
        assert(extends(seen1, before.push(v)));
        assert(grown_from(nodes, before, v, seen1)) by {
            assert forall|w: Value| #[trigger] seen1.contains(w) implies before.contains(w)
                || depends_on(nodes, v, w) by {
                if !seen.contains(w) {
                    lemma_depends_on_trans(nodes, v, p, w);
                }
            }
        }
        assert(closed_behind(nodes, before, v, seen1)) by {
            assert forall|u: Value, w: Value|
                #![trigger seen1.contains(u), depends_on(nodes, u, w)]
                seen1.contains(u) && !before.contains(u) && u != v && depends_on(
                    nodes,
                    u,
                    w,
                ) implies seen1.contains(w) by {
                if seen.contains(u) {
                    assert(seen.contains(w));
                    lemma_extends_contains(seen1, seen, w);
                } else {
                    lemma_depends_on_trans(nodes, p, u, w);
                }
            }
        }
        assert forall|m: int| 0 <= m < j + 1 implies seen1.contains(#[trigger] prev[m]) by {
            if m < j {
                lemma_extends_contains(seen1, seen, prev[m]);
            }
        }
        lemma_drawn_operands(nodes, v, j + 1, before, seen1, edges2);
    }
}

/// What the drawing below `root` holds: exactly the nodes that `root` depends
/// on, none twice, `root` first; and every edge joins an operand to a node
/// that takes it, both of them drawn, under the operand's tag.
pub proof fn drawing_is_sound(nodes: Seq<ValueInfo>, root: Value)
    requires
        well_formed(nodes),
        root.0 < nodes.len(),
    ensures
        ({
            let d = drawn(nodes, root, Seq::empty(), Seq::empty());
            &&& drawing_ok(nodes, d.0, d.1)
            &&& d.0.len() > 0
            &&& d.0[0] == root
            &&& forall|w: Value| #[trigger] d.0.contains(w) <==> depends_on(nodes, root, w)
        }),
{
    let empty = Seq::<Value>::empty();
    let none = Seq::<Edge>::empty();
    lemma_drawn(nodes, root, empty, none);
    let d = drawn(nodes, root, empty, none);
    assert(!empty.contains(root));
    let seen0 = empty.push(root);
    lemma_drawing_ok_extends(nodes, empty, seen0, none);
    assert(seen0[0] == root);
    assert(grown_from(nodes, empty, root, seen0)) by {
        assert forall|w: Value| #[trigger] seen0.contains(w) implies empty.contains(w)
            || depends_on(nodes, root, w) by {
            let i = choose|i: int| 0 <= i < seen0.len() && seen0[i] == w;
        }
    }
    assert(closed_behind(nodes, empty, root, seen0)) by {
        assert forall|u: Value, w: Value|
            #![trigger seen0.contains(u), depends_on(nodes, u, w)]
            seen0.contains(u) && !empty.contains(u) && u != root && depends_on(
                nodes,
                u,
                w,
            ) implies seen0.contains(w) by {
            let i = choose|i: int| 0 <= i < seen0.len() && seen0[i] == u;
        }
    }
    lemma_drawn_operands(nodes, root, 0, empty, seen0, none);
    assert(d.0[0] == seen0[0]);
}

impl<K: Fn(Prim) -> u64> Tape<K> {
    /// Visits `v` for the drawing: where it is not drawn yet, adds it and then
    /// visits each operand and joins it to `v`.
    fn draw(&self, v: Value, seen: &mut Vec<Value>, edges: &mut Vec<Edge>, visited: &mut Vec<bool>)
        requires
            well_formed(self@),
            self.has(v),
            old(visited)@.len() == self@.len(),
            marks(old(visited)@, old(seen)@),
        ensures
            (final(seen)@, final(edges)@) == drawn(self@, v, old(seen)@, old(edges)@),
            final(visited)@.len() == self@.len(),
            marks(final(visited)@, final(seen)@),
        decreases v.0,
    {
        if visited[v.0] {
            return ;
        }
        proof {
            assert(node_ok(self@, v.0 as int));
        }
        let ghost seen0 = seen@;
        seen.push(v);
        visited.set(v.0, true);
        proof {
            assert forall|m: usize| m < visited@.len() implies (visited@[m as int]
                <==> #[trigger] seen@.contains(Value(m))) by {
                if m == v.0 {
                    assert(seen@[seen0.len() as int] == v);
                } else if seen0.contains(Value(m)) {
                    let i = choose|i: int| 0 <= i < seen0.len() && seen0[i] == Value(m);
                    assert(seen@[i] == Value(m));
                } else if seen@.contains(Value(m)) {
                    let i = choose|i: int| 0 <= i < seen@.len() && seen@[i] == Value(m);
                    assert(i < seen0.len());
                    assert(seen0[i] == Value(m));
                }
            }
        }
        let n = v.borrow(self).prev.len();
        let mut j: usize = 0;
        while j < n
            invariant
                well_formed(self@),
                self.has(v),
                n == self@[v.0 as int].prev@.len(),
                0 <= j <= n,
                visited@.len() == self@.len(),
                marks(visited@, seen@),
                drawn_operands(self@, v, j as int, seen@, edges@) == drawn_operands(
                    self@,
                    v,
                    0,
                    old(seen)@.push(v),
                    old(edges)@,
                ),
            decreases n - j,
        {
            proof {
                assert(node_ok(self@, v.0 as int));
            }
            let p = v.borrow(self).prev[j];
            self.draw(p, seen, edges, visited);
            edges.push(Edge { from: p, to: v, op: p.borrow(self).op });
            j += 1;
        }
    }
}

impl Value {
    /// The graph below this node, laid out for drawing: the nodes that it
    /// depends on, itself first, in the order in which a depth-first walk
    /// over the operands meets them, and for every operand of every such node
    /// an edge to that node.
    pub fn drawing<K: Fn(Prim) -> u64>(&self, g: &Tape<K>) -> (d: Drawing)
        requires
            g.wf(),
            g.has(*self),
        ensures
            (d.nodes@, d.edges@) == drawn(g@, *self, Seq::empty(), Seq::empty()),
    {
        let mut visited: Vec<bool> = Vec::new();
        let mut i: usize = 0;
        while i < g.len()
            invariant
                i <= g@.len(),
                visited@.len() == i,
                forall|m: int| 0 <= m < i ==> !visited@[m],
            decreases g@.len() - i,
        {
            visited.push(false);
            i += 1;
        }
        let mut seen: Vec<Value> = Vec::new();
        let mut edges: Vec<Edge> = Vec::new();
        g.draw(*self, &mut seen, &mut edges, &mut visited);
        Drawing { nodes: seen, edges }
    }
}

} // verus!
